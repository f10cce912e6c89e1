//! A corpus of articles looked up by title, and the extractors applied to
//! the article found.
use vstd::prelude::*;
use crate::ExtractError;
use crate::fieldmap::TemplateFieldMap;
use crate::template::{
    extract_template_block, extract_template_fields, extract_template_fields_clean,
    extract_template_fields_delinked, shape_template_fields, template_block, template_fields,
    Cleanup,
};
use crate::text::views;
use crate::wiki::{
    category_lines, category_names, extract_category_lines, extract_category_names,
    extract_media_files, extract_sections, media_files, section_views, sections, Section,
};

verus! {

/// One article of the corpus.
#[derive(Clone, Debug, PartialEq, Eq)]
pub struct Article {
    pub title: String,
    pub text: String,
}

impl View for Article {
    type V = (Seq<char>, Seq<char>);

    open spec fn view(&self) -> (Seq<char>, Seq<char>) {
        (self.title@, self.text@)
    }
}

impl Article {
    /// A copy of this article.
    pub fn copy(&self) -> (r: Article)
        ensures
            r@ == self@,
    {
        Article { title: self.title.clone(), text: self.text.clone() }
    }
}

/// The views of a sequence of articles.
pub open spec fn article_views(v: Seq<Article>) -> Seq<(Seq<char>, Seq<char>)> {
    v.map_values(|a: Article| a@)
}

/// The index of the first article at or after `i` titled `title`, or `arts.len()`.
pub open spec fn first_titled(arts: Seq<(Seq<char>, Seq<char>)>, title: Seq<char>, i: int) -> int
    decreases arts.len() - i,
{
    if i < 0 || i >= arts.len() {
        arts.len() as int
    } else if arts[i].0 == title {
        i
    } else {
        first_titled(arts, title, i + 1)
    }
}

/// The first article titled `title`, if any.
pub open spec fn lookup(arts: Seq<(Seq<char>, Seq<char>)>, title: Seq<char>) -> Option<(Seq<char>, Seq<char>)> {
    let i = first_titled(arts, title, 0);
    if 0 <= i < arts.len() {
        Some(arts[i])
    } else {
        None
    }
}

/// The text of the first article titled `title`, if any.
pub open spec fn article_text(arts: Seq<(Seq<char>, Seq<char>)>, title: Seq<char>) -> Option<Seq<char>> {
    match lookup(arts, title) {
        Some(a) => Some(a.1),
        None => None,
    }
}

proof fn lemma_first_titled(arts: Seq<(Seq<char>, Seq<char>)>, title: Seq<char>, i: int)
    requires
        0 <= i <= arts.len(),
    ensures
        i <= first_titled(arts, title, i) <= arts.len(),
        first_titled(arts, title, i) < arts.len() ==> arts[first_titled(arts, title, i)].0 == title,
        forall|k: int| i <= k < first_titled(arts, title, i) ==> arts[k].0 != title,
    decreases arts.len() - i,
{
    if i < arts.len() && arts[i].0 != title {
        lemma_first_titled(arts, title, i + 1);
    }
}

/// The first article of `articles` titled `title`; `None` when no article
/// has that title.
pub fn find_article(articles: &Vec<Article>, title: &str) -> (r: Option<Article>)
    ensures
        match r {
            Some(a) => lookup(article_views(articles@), title@) == Some(a@),
            None => lookup(article_views(articles@), title@) is None,
        },
        r is None <==> forall|i: int| 0 <= i < articles@.len() ==> articles@[i].title@ != title@,
{
    let ghost arts = article_views(articles@);
    let wanted = title.to_owned();
    proof {
        lemma_first_titled(arts, title@, 0);
    }
    let mut i: usize = 0;
    while i < articles.len()
        invariant
            i <= articles.len(),
            arts == article_views(articles@),
            wanted@ == title@,
            first_titled(arts, title@, i as int) == first_titled(arts, title@, 0),
        decreases articles.len() - i,
    {
        if articles[i].title == wanted {
            assert(arts[i as int].0 == title@);
            return Some(articles[i].copy());
        }
        i += 1;
    }
    proof {
        lemma_first_titled(arts, title@, 0);
        assert forall|k: int| 0 <= k < articles@.len() implies articles@[k].title@ != title@ by {
            assert(arts[k].0 == articles@[k].title@);
        }
    }
    None
}

/// Looks up articles by title and runs the extractors on their text.
pub struct JsonExtractor {
    articles: Vec<Article>,
}

impl View for JsonExtractor {
    type V = Seq<(Seq<char>, Seq<char>)>;

    closed spec fn view(&self) -> Seq<(Seq<char>, Seq<char>)> {
        article_views(self.articles@)
    }
}

impl JsonExtractor {
    /// An extractor over `articles`.
    pub fn new(articles: Vec<Article>) -> (r: JsonExtractor)
        ensures
            r@ == article_views(articles@),
    {
        JsonExtractor { articles }
    }

    /// The first article titled `title`, if any.
    pub fn search(&self, title: &str) -> (r: Option<Article>)
        ensures
            match r {
                Some(a) => lookup(self@, title@) == Some(a@),
                None => lookup(self@, title@) is None,
            },
    {
        find_article(&self.articles, title)
    }

    /// The text of the article titled `title`.
    pub fn extract_text(&self, title: &str) -> (r: Result<String, ExtractError>)
        ensures
            match article_text(self@, title@) {
                Some(t) => r is Ok && r->Ok_0@ == t,
                None => r == Err::<String, ExtractError>(ExtractError::NotFound),
            },
    {
        match self.search(title) {
            Some(a) => Ok(a.text),
            None => Err(ExtractError::NotFound),
        }
    }

    /// The category declaration lines of the article titled `title`.
    pub fn extract_categories(&self, title: &str) -> (r: Result<Vec<String>, ExtractError>)
        ensures
            match article_text(self@, title@) {
                Some(t) => r is Ok && views(r->Ok_0@) == category_lines(t),
                None => r == Err::<Vec<String>, ExtractError>(ExtractError::NotFound),
            },
    {
        let text = self.extract_text(title)?;
        Ok(extract_category_lines(text.as_str()))
    }

    /// The category names of the article titled `title`.
    pub fn extract_category_names(&self, title: &str) -> (r: Result<Vec<String>, ExtractError>)
        ensures
            match article_text(self@, title@) {
                Some(t) => r is Ok && views(r->Ok_0@) == category_names(t),
                None => r == Err::<Vec<String>, ExtractError>(ExtractError::NotFound),
            },
    {
        let text = self.extract_text(title)?;
        Ok(extract_category_names(text.as_str()))
    }

    /// The outline of the article titled `title`.
    pub fn extract_section(&self, title: &str) -> (r: Result<Vec<Section>, ExtractError>)
        ensures
            match article_text(self@, title@) {
                Some(t) => r is Ok && section_views(r->Ok_0@) == sections(t),
                None => r == Err::<Vec<Section>, ExtractError>(ExtractError::NotFound),
            },
    {
        let text = self.extract_text(title)?;
        Ok(extract_sections(text.as_str()))
    }

    /// The media file names of the article titled `title`.
    pub fn extract_media_file(&self, title: &str) -> (r: Result<Vec<String>, ExtractError>)
        ensures
            match article_text(self@, title@) {
                Some(t) => r is Ok && views(r->Ok_0@) == media_files(t),
                None => r == Err::<Vec<String>, ExtractError>(ExtractError::NotFound),
            },
    {
        let text = self.extract_text(title)?;
        Ok(extract_media_files(text.as_str()))
    }

    /// The infobox block of the article titled `title`.
    pub fn extract_template_txt(&self, title: &str) -> (r: Result<String, ExtractError>)
        ensures
            match article_text(self@, title@) {
                Some(t) => match template_block(t) {
                    Some(b) => r is Ok && r->Ok_0@ == b,
                    None => r == Err::<String, ExtractError>(ExtractError::MalformedTemplateBlock),
                },
                None => r == Err::<String, ExtractError>(ExtractError::NotFound),
            },
    {
        let text = self.extract_text(title)?;
        extract_template_block(text.as_str())
    }

    /// The infobox fields of the article titled `title`, values trimmed.
    pub fn extract_template_map(&self, title: &str) -> (r: Result<TemplateFieldMap, ExtractError>)
        ensures
            fields_result(self@, title@, Cleanup::Raw, r),
    {
        let text = self.extract_text(title)?;
        extract_template_fields(text.as_str())
    }

    /// The infobox fields of the article titled `title`, emphasis removed.
    pub fn extract_template_map_removed_em(&self, title: &str) -> (r: Result<TemplateFieldMap, ExtractError>)
        ensures
            fields_result(self@, title@, Cleanup::Emphasis, r),
    {
        let text = self.extract_text(title)?;
        extract_template_fields_clean(text.as_str())
    }

    /// The infobox fields of the article titled `title`, internal links
    /// resolved and emphasis removed.
    pub fn extract_template_map_removed_internal(&self, title: &str) -> (r: Result<TemplateFieldMap, ExtractError>)
        ensures
            fields_result(self@, title@, Cleanup::Links, r),
    {
        let text = self.extract_text(title)?;
        extract_template_fields_delinked(text.as_str())
    }

    /// The infobox fields of the article titled `title`, fully cleaned.
    pub fn shape_template(&self, title: &str) -> (r: Result<TemplateFieldMap, ExtractError>)
        ensures
            fields_result(self@, title@, Cleanup::Full, r),
    {
        let text = self.extract_text(title)?;
        shape_template_fields(text.as_str())
    }
}

/// `r` is what extracting the fields of the article titled `title` with the
/// clean-up `c` gives: the map, or why there is none.
pub open spec fn fields_result(
    arts: Seq<(Seq<char>, Seq<char>)>,
    title: Seq<char>,
    c: Cleanup,
    r: Result<TemplateFieldMap, ExtractError>,
) -> bool {
    match article_text(arts, title) {
        Some(t) => match template_fields(t, c) {
            Some(m) => r is Ok && r->Ok_0.wf() && r->Ok_0@ == m,
            None => r == Err::<TemplateFieldMap, ExtractError>(ExtractError::MalformedTemplateBlock),
        },
        None => r == Err::<TemplateFieldMap, ExtractError>(ExtractError::NotFound),
    }
}

} // verus!
