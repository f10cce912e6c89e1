//! Extraction of categories, section headings and media references from the
//! wiki markup of one article.
use vstd::prelude::*;
use crate::text::{
    chars_of, contains, find_char, find_either, find_either_char, find_from,
    lemma_find_either_bounds, lemma_find_from_bounds, lines, lines_from, lines_of, matches_at,
    occurs_at, starts_with, string_of, strip_cr, views,
};

verus! {

/// One heading of an article's outline.
#[derive(Clone, Debug, PartialEq, Eq)]
pub struct Section {
    pub name: String,
    /// Nesting depth: one less than the number of `=` around the name.
    pub level: usize,
}

impl View for Section {
    type V = (Seq<char>, nat);

    open spec fn view(&self) -> (Seq<char>, nat) {
        (self.name@, self.level as nat)
    }
}

/// The views of a sequence of sections.
pub open spec fn section_views(v: Seq<Section>) -> Seq<(Seq<char>, nat)> {
    v.map_values(|s: Section| s@)
}

// ---------------------------------------------------------------- categories

/// `[[Category`
pub open spec fn category_prefix() -> Seq<char> {
    seq!['[', '[', 'C', 'a', 't', 'e', 'g', 'o', 'r', 'y']
}

/// `[[Category:`
pub open spec fn category_open() -> Seq<char> {
    category_prefix().push(':')
}

fn category_prefix_chars() -> (r: Vec<char>)
    ensures
        r@ == category_prefix(),
{
    vec!['[', '[', 'C', 'a', 't', 'e', 'g', 'o', 'r', 'y']
}

/// The lines among `ls` that begin with `[[Category`, in order.
pub open spec fn select_category_lines(ls: Seq<Seq<char>>) -> Seq<Seq<char>>
    decreases ls.len(),
{
    if ls.len() == 0 {
        seq![]
    } else {
        let rest = select_category_lines(ls.drop_last());
        if starts_with(ls.last(), category_prefix()) {
            rest.push(ls.last())
        } else {
            rest
        }
    }
}

/// The category declaration lines of `s`.
pub open spec fn category_lines(s: Seq<char>) -> Seq<Seq<char>> {
    select_category_lines(lines(s))
}

/// Every line of `text` that begins with `[[Category`, in order of appearance.
pub fn extract_category_lines(text: &str) -> (r: Vec<String>)
    ensures
        views(r@) == category_lines(text@),
{
    let ls = lines_of(text);
    let prefix = category_prefix_chars();
    let mut r: Vec<String> = Vec::new();
    let mut i: usize = 0;
    while i < ls.len()
        invariant
            i <= ls.len(),
            prefix@ == category_prefix(),
            views(ls@) == lines(text@),
            views(r@) == select_category_lines(views(ls@).take(i as int)),
        decreases ls.len() - i,
    {
        let line = chars_of(ls[i].as_str());
        assert(views(ls@).take(i + 1).drop_last() == views(ls@).take(i as int));
        if matches_at(&line, 0, &prefix) {
            let copy = ls[i].clone();
            assert(views(r@.push(copy)) == views(r@).push(copy@));
            r.push(copy);
        }
        i += 1;
    }
    assert(views(ls@).take(i as int) == views(ls@));
    r
}

/// The largest `q` with `a <= q` and `q + 2 <= j` where `"]]"` stands at `q`,
/// or `a - 1` when there is none.
pub open spec fn last_close(s: Seq<char>, a: int, j: int) -> int
    decreases j - a,
{
    if j - a < 2 {
        a - 1
    } else if s[j - 2] == ']' && s[j - 1] == ']' {
        j - 2
    } else {
        last_close(s, a, j - 1)
    }
}

proof fn lemma_last_close(s: Seq<char>, a: int, j: int)
    ensures
        a - 1 <= last_close(s, a, j),
        last_close(s, a, j) >= a ==> last_close(s, a, j) + 2 <= j && s[last_close(s, a, j)] == ']'
            && s[last_close(s, a, j) + 1] == ']',
    decreases j - a,
{
    if j - a >= 2 && !(s[j - 2] == ']' && s[j - 1] == ']') {
        lemma_last_close(s, a, j - 1);
    }
}

/// A category link at `p` (`[[Category:` then the longest stretch of the same
/// line that is followed by `]]`): the end of the name and the end of the match.
pub open spec fn category_match_at(s: Seq<char>, p: int) -> Option<(int, int)> {
    if occurs_at(s, p, category_open()) {
        let a = p + 11;
        let q = last_close(s, a, find_from(s, a, '\n'));
        if q >= a {
            Some((q, q + 2))
        } else {
            None
        }
    } else {
        None
    }
}

/// The category names of `s` from position `i` on.
pub open spec fn category_names_from(s: Seq<char>, i: int) -> Seq<Seq<char>>
    decreases s.len() - i,
{
    if i < 0 || i >= s.len() {
        seq![]
    } else {
        match category_match_at(s, i) {
            Some((q, e)) => if i < e <= s.len() {
                seq![s.subrange(i + 11, q)] + category_names_from(s, e)
            } else {
                seq![]
            },
            None => category_names_from(s, i + 1),
        }
    }
}

/// The category names of `s`: what stands between `[[Category:` and `]]`.
pub open spec fn category_names(s: Seq<char>) -> Seq<Seq<char>> {
    category_names_from(s, 0)
}

/// The largest index `q` in `[a, j - 2]` with `"]]"` at `q`.
fn find_last_close(v: &Vec<char>, a: usize, j: usize) -> (r: Option<usize>)
    requires
        a <= j <= v.len(),
    ensures
        match r {
            Some(q) => q as int == last_close(v@, a as int, j as int) && q >= a,
            None => last_close(v@, a as int, j as int) < a,
        },
{
    let mut k = j;
    while k >= 2 && k - 2 >= a
        invariant
            a <= j <= v.len(),
            k <= j,
            last_close(v@, a as int, k as int) == last_close(v@, a as int, j as int),
        decreases k,
    {
        if v[k - 2] == ']' && v[k - 1] == ']' {
            return Some(k - 2);
        }
        k -= 1;
    }
    None
}

/// Every name captured by `[[Category:<name>]]`, in order of appearance; the
/// name runs to the last `]]` of its line and keeps any `|sortkey`.
pub fn extract_category_names(text: &str) -> (r: Vec<String>)
    ensures
        views(r@) == category_names(text@),
{
    let v = chars_of(text);
    let mut open = category_prefix_chars();
    open.push(':');
    let n = v.len();
    let mut r: Vec<String> = Vec::new();
    let mut i: usize = 0;
    while i < n
        invariant
            n == v.len(),
            v@ == text@,
            i <= n,
            open@ == category_open(),
            views(r@) + category_names_from(v@, i as int) == category_names(v@),
        decreases n - i,
    {
        let mut next = i + 1;
        if matches_at(&v, i, &open) {
            let a = i + 11;
            let e = find_char(&v, a, n, '\n');
            proof {
                lemma_find_from_bounds(v@, a as int, '\n');
                lemma_last_close(v@, a as int, e as int);
            }
            match find_last_close(&v, a, e) {
                Some(q) => {
                    let name = string_of(&v, a, q);
                    assert(views(r@.push(name)) == views(r@).push(name@));
                    assert(views(r@) + category_names_from(v@, i as int) == views(r@.push(name))
                        + category_names_from(v@, q + 2));
                    r.push(name);
                    next = q + 2;
                },
                None => {},
            }
        }
        i = next;
    }
    assert(views(r@) + category_names_from(v@, i as int) == views(r@));
    r
}

// ------------------------------------------------------------------ sections

/// The length of the run of `=` that starts at `i`.
pub open spec fn eq_run(s: Seq<char>, i: int) -> int
    decreases s.len() - i,
{
    if 0 <= i < s.len() && s[i] == '=' {
        1 + eq_run(s, i + 1)
    } else {
        0
    }
}

/// The first `j' >= j` on the same line with `"=="` at `j'`, or `s.len()`.
pub open spec fn find_double_eq(s: Seq<char>, j: int) -> int
    decreases s.len() - j,
{
    if j < 0 || j + 1 >= s.len() || s[j] == '\n' {
        s.len() as int
    } else if s[j] == '=' && s[j + 1] == '=' {
        j
    } else {
        find_double_eq(s, j + 1)
    }
}

proof fn lemma_eq_run(s: Seq<char>, i: int)
    requires
        0 <= i <= s.len(),
    ensures
        0 <= eq_run(s, i) <= s.len() - i,
        forall|k: int| i <= k < i + eq_run(s, i) ==> s[k] == '=',
        i + eq_run(s, i) < s.len() ==> s[i + eq_run(s, i)] != '=',
    decreases s.len() - i,
{
    if i < s.len() && s[i] == '=' {
        lemma_eq_run(s, i + 1);
    }
}

proof fn lemma_find_double_eq(s: Seq<char>, j: int)
    requires
        0 <= j,
    ensures
        find_double_eq(s, j) == s.len() || (j <= find_double_eq(s, j) && find_double_eq(s, j) + 1
            < s.len() && s[find_double_eq(s, j)] == '=' && s[find_double_eq(s, j) + 1] == '='),
    decreases s.len() - j,
{
    if !(j + 1 >= s.len() || s[j] == '\n') && !(s[j] == '=' && s[j + 1] == '=') {
        lemma_find_double_eq(s, j + 1);
    }
}

/// A heading match at `p`, as the pattern "a run of two or more `=`, the
/// shortest name on the same line, a run of two or more `=`" finds it
/// (longest opening run first): the opening run's length, the name's bounds
/// and the closing run's length.
pub open spec fn heading_at(s: Seq<char>, p: int) -> Option<(int, int, int, int)> {
    if 0 <= p && p + 1 < s.len() && s[p] == '=' && s[p + 1] == '=' {
        let k = eq_run(s, p);
        let j = find_double_eq(s, p + k);
        if j < s.len() {
            Some((k, p + k, j, eq_run(s, j)))
        } else if k >= 4 {
            // the run alone splits into an opening and a closing delimiter
            Some((k - 2, p + k - 2, p + k - 2, 2))
        } else {
            None
        }
    } else {
        None
    }
}

/// The sections of `s` from position `i` on: the heading matches whose two
/// delimiters have the same length.
pub open spec fn sections_from(s: Seq<char>, i: int) -> Seq<(Seq<char>, nat)>
    decreases s.len() - i,
{
    if i < 0 || i >= s.len() {
        seq![]
    } else {
        match heading_at(s, i) {
            Some((k, a, b, e)) => if i < b + e <= s.len() {
                let rest = sections_from(s, b + e);
                if k == e {
                    seq![(s.subrange(a, b), (k - 1) as nat)] + rest
                } else {
                    rest
                }
            } else {
                seq![]
            },
            None => sections_from(s, i + 1),
        }
    }
}

/// The outline of `s`.
pub open spec fn sections(s: Seq<char>) -> Seq<(Seq<char>, nat)> {
    sections_from(s, 0)
}

fn run_of_eq(v: &Vec<char>, i: usize) -> (r: usize)
    requires
        i <= v.len(),
    ensures
        r == eq_run(v@, i as int),
{
    proof {
        lemma_eq_run(v@, i as int);
    }
    let mut j = i;
    while j < v.len() && v[j] == '='
        invariant
            i <= j <= v.len(),
            eq_run(v@, i as int) == (j - i) + eq_run(v@, j as int),
        decreases v.len() - j,
    {
        j += 1;
    }
    j - i
}

fn first_double_eq(v: &Vec<char>, j: usize) -> (r: usize)
    requires
        j <= v.len(),
    ensures
        r == find_double_eq(v@, j as int),
{
    let mut k = j;
    while k < v.len() && k + 1 < v.len() && v[k] != '\n' && !(v[k] == '=' && v[k + 1] == '=')
        invariant
            j <= k <= v.len(),
            find_double_eq(v@, k as int) == find_double_eq(v@, j as int),
        decreases v.len() - k,
    {
        k += 1;
    }
    if k < v.len() && k + 1 < v.len() && v[k] != '\n' {
        k
    } else {
        v.len()
    }
}

/// The headings of `text`, in order of appearance: a run of two or more `=`,
/// a name, and a run of `=` of the same length; the level is the run's length
/// less one. Pairs of runs of different lengths give no section.
pub fn extract_sections(text: &str) -> (r: Vec<Section>)
    ensures
        section_views(r@) == sections(text@),
{
    let v = chars_of(text);
    let n = v.len();
    let mut r: Vec<Section> = Vec::new();
    let mut i: usize = 0;
    while i < n
        invariant
            n == v.len(),
            v@ == text@,
            i <= n,
            section_views(r@) + sections_from(v@, i as int) == sections(v@),
        decreases n - i,
    {
        let mut next = i + 1;
        if i + 1 < n && v[i] == '=' && v[i + 1] == '=' {
            let k = run_of_eq(&v, i);
            proof {
                lemma_eq_run(v@, i as int);
                lemma_find_double_eq(v@, i + k);
            }
            let j = first_double_eq(&v, i + k);
            let mut found = false;
            let mut open: usize = 0;
            let mut a: usize = 0;
            let mut b: usize = 0;
            let mut close: usize = 0;
            if j < n {
                proof {
                    lemma_eq_run(v@, j as int);
                }
                open = k;
                a = i + k;
                b = j;
                close = run_of_eq(&v, j);
                found = true;
            } else if k >= 4 {
                open = k - 2;
                a = i + k - 2;
                b = a;
                close = 2;
                found = true;
            }
            if found {
                assert(heading_at(v@, i as int) == Some((open as int, a as int, b as int, close as int)));
                if open == close {
                    let name = string_of(&v, a, b);
                    let sec = Section { name, level: open - 1 };
                    assert(section_views(r@.push(sec)) == section_views(r@).push(sec@));
                    assert(section_views(r@) + sections_from(v@, i as int) == section_views(r@.push(sec))
                        + sections_from(v@, b + close));
                    r.push(sec);
                }
                next = b + close;
            }
        }
        i = next;
    }
    assert(section_views(r@) + sections_from(v@, i as int) == section_views(r@));
    r
}

// --------------------------------------------------------------------- media

/// `[[File:`
pub open spec fn file_open() -> Seq<char> {
    seq!['[', '[', 'F', 'i', 'l', 'e', ':']
}

/// `[[ファイル:`
pub open spec fn file_open_ja() -> Seq<char> {
    seq!['[', '[', 'フ', 'ァ', 'イ', 'ル', ':']
}

/// A media link at `p`: `[[File:` or `[[ファイル:`, then a name up to the first
/// `|` of the same line; the index of that `|`.
pub open spec fn media_at(s: Seq<char>, p: int) -> Option<int> {
    if occurs_at(s, p, file_open()) || occurs_at(s, p, file_open_ja()) {
        let j = find_either(s, p + 7, '|', '\n');
        if j < s.len() && s[j] == '|' {
            Some(j)
        } else {
            None
        }
    } else {
        None
    }
}

/// The media file names of `s` from position `i` on.
pub open spec fn media_files_from(s: Seq<char>, i: int) -> Seq<Seq<char>>
    decreases s.len() - i,
{
    if i < 0 || i >= s.len() {
        seq![]
    } else {
        match media_at(s, i) {
            Some(j) => if i < j + 1 <= s.len() {
                seq![s.subrange(i + 7, j)] + media_files_from(s, j + 1)
            } else {
                seq![]
            },
            None => media_files_from(s, i + 1),
        }
    }
}

/// The media file names of `s`.
pub open spec fn media_files(s: Seq<char>) -> Seq<Seq<char>> {
    media_files_from(s, 0)
}

/// The file names of the media links of `text`, in order of appearance. A
/// link counts only where a `|` follows its name on the same line.
pub fn extract_media_files(text: &str) -> (r: Vec<String>)
    ensures
        views(r@) == media_files(text@),
{
    let v = chars_of(text);
    let en = vec!['[', '[', 'F', 'i', 'l', 'e', ':'];
    let ja = vec!['[', '[', 'フ', 'ァ', 'イ', 'ル', ':'];
    let n = v.len();
    let mut r: Vec<String> = Vec::new();
    let mut i: usize = 0;
    while i < n
        invariant
            n == v.len(),
            v@ == text@,
            i <= n,
            en@ == file_open(),
            ja@ == file_open_ja(),
            views(r@) + media_files_from(v@, i as int) == media_files(v@),
        decreases n - i,
    {
        let mut next = i + 1;
        if matches_at(&v, i, &en) || matches_at(&v, i, &ja) {
            let j = find_either_char(&v, i + 7, '|', '\n');
            proof {
                lemma_find_either_bounds(v@, i + 7, '|', '\n');
            }
            if j < n && v[j] == '|' {
                let name = string_of(&v, i + 7, j);
                assert(views(r@.push(name)) == views(r@).push(name@));
                assert(views(r@) + media_files_from(v@, i as int) == views(r@.push(name))
                    + media_files_from(v@, j + 1));
                r.push(name);
                next = j + 1;
            }
        }
        i = next;
    }
    assert(views(r@) + media_files_from(v@, i as int) == views(r@));
    r
}

// ---------------------------------------------------------------------- laws

/// `sec` is what a heading at or after `i` gives whose opening and closing
/// runs of `=` have the same length `k`: the text between the runs, and the
/// level `k - 1`.
pub open spec fn from_equal_heading(s: Seq<char>, i: int, sec: (Seq<char>, nat)) -> bool {
    exists|p: int|
        i <= p && match #[trigger] heading_at(s, p) {
            Some((k, a, b, e)) => k == e && sec == (s.subrange(a, b), (k - 1) as nat),
            None => false,
        }
}

/// Every section of the outline comes from a heading whose two delimiters
/// have the same length; a heading with delimiters of different lengths
/// gives none.
pub proof fn lemma_sections_have_equal_delimiters(s: Seq<char>, i: int)
    requires
        0 <= i,
    ensures
        forall|j: int| 0 <= j < sections_from(s, i).len() ==> from_equal_heading(s, i, #[trigger] sections_from(s, i)[j]),
    decreases s.len() - i,
{
    if i < s.len() {
        match heading_at(s, i) {
            Some((k, a, b, e)) => {
                if i < b + e <= s.len() {
                    lemma_sections_have_equal_delimiters(s, b + e);
                    let rest = sections_from(s, b + e);
                    assert forall|j: int| 0 <= j < sections_from(s, i).len() implies from_equal_heading(
                        s,
                        i,
                        #[trigger] sections_from(s, i)[j],
                    ) by {
                        if k == e && j == 0 {
                            assert(heading_at(s, i) == Some((k, a, b, k)));
                        } else {
                            let jj = if k == e { j - 1 } else { j };
                            assert(sections_from(s, i)[j] == rest[jj]);
                            assert(from_equal_heading(s, b + e, rest[jj]));
                        }
                    }
                }
            },
            None => {
                lemma_sections_have_equal_delimiters(s, i + 1);
                assert forall|j: int| 0 <= j < sections_from(s, i).len() implies from_equal_heading(
                    s,
                    i,
                    #[trigger] sections_from(s, i)[j],
                ) by {
                    assert(from_equal_heading(s, i + 1, sections_from(s, i + 1)[j]));
                }
            },
        }
    }
}

proof fn lemma_line_prefix_occurs(s: Seq<char>, i: int, p: Seq<char>)
    requires
        0 <= i <= s.len(),
    ensures
        forall|k: int| 0 <= k < lines_from(s, i).len() && starts_with(#[trigger] lines_from(s, i)[k], p)
            ==> contains(s, p),
    decreases s.len() - i,
{
    if i < s.len() {
        let e = find_from(s, i, '\n');
        lemma_find_from_bounds(s, i, '\n');
        if e < s.len() {
            lemma_line_prefix_occurs(s, e + 1, p);
            let first = strip_cr(s.subrange(i, e));
            assert forall|k: int| 0 <= k < lines_from(s, i).len() && starts_with(
                #[trigger] lines_from(s, i)[k],
                p,
            ) implies contains(s, p) by {
                if k == 0 {
                    assert(lines_from(s, i)[0] == first);
                    assert(s.subrange(i, i + p.len()) =~= first.subrange(0, p.len() as int));
                    assert(occurs_at(s, i, p));
                } else {
                    assert(lines_from(s, i)[k] == lines_from(s, e + 1)[k - 1]);
                }
            }
        } else {
            assert forall|k: int| 0 <= k < lines_from(s, i).len() && starts_with(
                #[trigger] lines_from(s, i)[k],
                p,
            ) implies contains(s, p) by {
                assert(s.subrange(i, i + p.len()) =~= s.subrange(i, s.len() as int).subrange(0, p.len() as int));
                assert(occurs_at(s, i, p));
            }
        }
    }
}

proof fn lemma_no_category_lines(ls: Seq<Seq<char>>)
    requires
        forall|k: int| 0 <= k < ls.len() ==> !starts_with(#[trigger] ls[k], category_prefix()),
    ensures
        select_category_lines(ls) == Seq::<Seq<char>>::empty(),
    decreases ls.len(),
{
    if ls.len() > 0 {
        let init = ls.drop_last();
        assert forall|k: int| 0 <= k < init.len() implies !starts_with(#[trigger] init[k], category_prefix()) by {
            assert(init[k] == ls[k]);
        }
        lemma_no_category_lines(init);
    }
}

proof fn lemma_no_category_names(s: Seq<char>, i: int)
    requires
        0 <= i,
        !contains(s, category_prefix()),
    ensures
        category_names_from(s, i) == Seq::<Seq<char>>::empty(),
    decreases s.len() - i,
{
    if i < s.len() {
        if occurs_at(s, i, category_open()) {
            assert(category_open().subrange(0, 10) =~= category_prefix());
            assert(s.subrange(i, i + 10) =~= s.subrange(i, i + 11).subrange(0, 10));
            assert(occurs_at(s, i, category_prefix()));
        }
        lemma_no_category_names(s, i + 1);
    }
}

/// A text in which `[[Category` never occurs has neither category lines nor
/// category names.
pub proof fn lemma_no_marker_no_categories(text: Seq<char>)
    requires
        !contains(text, category_prefix()),
    ensures
        category_lines(text) == Seq::<Seq<char>>::empty(),
        category_names(text) == Seq::<Seq<char>>::empty(),
{
    lemma_line_prefix_occurs(text, 0, category_prefix());
    lemma_no_category_lines(lines(text));
    lemma_no_category_names(text, 0);
}

} // verus!
