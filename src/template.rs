//! The infobox template of an article: its block of lines and its fields.
use vstd::prelude::*;
use crate::ExtractError;
use crate::fieldmap::TemplateFieldMap;
use crate::markup::{
    clean_value, delinked_value, flatten_brackets, shaped_value, strip_emphasis_chars,
    strip_line_breaks, trim_chars,
};
use crate::text::{
    chars_of, find_either, find_either_char, join, join_strings, lemma_find_either_bounds, lines,
    is_trimmed, lemma_trim_idempotent, lines_of, matches_at, occurs_at, starts_with, string_of, trim,
    trimmed_string, views,
};

verus! {

/// `{{基本情報`, the line that opens the infobox.
pub open spec fn infobox_marker() -> Seq<char> {
    seq!['{', '{', '基', '本', '情', '報']
}

/// `}}`, the line that closes it.
pub open spec fn block_terminator() -> Seq<char> {
    seq!['}', '}']
}

/// The first index at or after `i` of a line that opens the infobox, or `ls.len()`.
pub open spec fn first_marker_from(ls: Seq<Seq<char>>, i: int) -> int
    decreases ls.len() - i,
{
    if i < 0 || i >= ls.len() {
        ls.len() as int
    } else if starts_with(ls[i], infobox_marker()) {
        i
    } else {
        first_marker_from(ls, i + 1)
    }
}

/// The first index at or after `i` of a line that is exactly `}}`, or `ls.len()`.
pub open spec fn first_terminator_from(ls: Seq<Seq<char>>, i: int) -> int
    decreases ls.len() - i,
{
    if i < 0 || i >= ls.len() {
        ls.len() as int
    } else if ls[i] == block_terminator() {
        i
    } else {
        first_terminator_from(ls, i + 1)
    }
}

/// The lines after the first opening line up to the next `}}` line (both
/// excluded); `None` when no line opens the infobox.
pub open spec fn block_lines(ls: Seq<Seq<char>>) -> Option<Seq<Seq<char>>> {
    let m = first_marker_from(ls, 0);
    if 0 <= m < ls.len() {
        let t = first_terminator_from(ls, m + 1);
        Some(ls.subrange(m + 1, t))
    } else {
        None
    }
}

/// The infobox block of `s`, its lines joined with `'\n'`.
pub open spec fn template_block(s: Seq<char>) -> Option<Seq<char>> {
    match block_lines(lines(s)) {
        Some(b) => Some(join(b, seq!['\n'])),
        None => None,
    }
}

/// `<ref`
pub open spec fn ref_open() -> Seq<char> {
    seq!['<', 'r', 'e', 'f']
}

/// The first index at or after `k` of a `'\n'` or of `<ref`, or `b.len()`.
pub open spec fn value_end(b: Seq<char>, k: int) -> int
    decreases b.len() - k,
{
    if k < 0 || k >= b.len() {
        b.len() as int
    } else if b[k] == '\n' || occurs_at(b, k, ref_open()) {
        k
    } else {
        value_end(b, k + 1)
    }
}

/// A field at `p`: `|`, a name up to the first `=` of the line, and a value up
/// to the next `'\n'` or `<ref`. The index of the `=`, the end of the value
/// and the end of the match.
pub open spec fn field_at(b: Seq<char>, p: int) -> Option<(int, int, int)> {
    if 0 <= p < b.len() && b[p] == '|' {
        let f = find_either(b, p + 1, '=', '\n');
        if f < b.len() && b[f] == '=' {
            let k = value_end(b, f + 1);
            if k < b.len() {
                Some((f, k, if b[k] == '\n' { k + 1 } else { k + 4 }))
            } else {
                None
            }
        } else {
            None
        }
    } else {
        None
    }
}

/// The (name, value) pairs of the fields of `b` from position `i` on, untrimmed.
pub open spec fn raw_fields_from(b: Seq<char>, i: int) -> Seq<(Seq<char>, Seq<char>)>
    decreases b.len() - i,
{
    if i < 0 || i >= b.len() {
        seq![]
    } else {
        match field_at(b, i) {
            Some((f, k, e)) => if i < e <= b.len() {
                seq![(b.subrange(i + 1, f), b.subrange(f + 1, k))] + raw_fields_from(b, e)
            } else {
                seq![]
            },
            None => raw_fields_from(b, i + 1),
        }
    }
}

/// The (name, value) pairs of the fields of `b`, untrimmed.
pub open spec fn raw_fields(b: Seq<char>) -> Seq<(Seq<char>, Seq<char>)> {
    raw_fields_from(b, 0)
}

/// How much clean-up a field value receives.
#[derive(Clone, Copy, Debug, PartialEq, Eq, Structural)]
pub enum Cleanup {
    /// Trimmed only.
    Raw,
    /// Trimmed, emphasis removed.
    Emphasis,
    /// Internal links resolved as well.
    Links,
    /// Nested templates flattened and line breaks removed as well.
    Full,
}

/// A field value after the clean-up `c`.
pub open spec fn cleaned(c: Cleanup, v: Seq<char>) -> Seq<char> {
    match c {
        Cleanup::Raw => trim(v),
        Cleanup::Emphasis => clean_value(v),
        Cleanup::Links => delinked_value(v),
        Cleanup::Full => shaped_value(v),
    }
}

/// The map of the fields `raw`: trimmed name to cleaned value, the last of
/// several fields with one name winning.
pub open spec fn field_map(raw: Seq<(Seq<char>, Seq<char>)>, c: Cleanup) -> Map<Seq<char>, Seq<char>>
    decreases raw.len(),
{
    if raw.len() == 0 {
        Map::empty()
    } else {
        field_map(raw.drop_last(), c).insert(trim(raw.last().0), cleaned(c, raw.last().1))
    }
}

/// The infobox fields of `s` after the clean-up `c`; `None` without an infobox.
pub open spec fn template_fields(s: Seq<char>, c: Cleanup) -> Option<Map<Seq<char>, Seq<char>>> {
    match template_block(s) {
        Some(b) => Some(field_map(raw_fields(b), c)),
        None => None,
    }
}

/// Exec form of `cleaned`.
fn clean_chars(c: Cleanup, v: &Vec<char>) -> (r: Vec<char>)
    ensures
        r@ == cleaned(c, v@),
{
    let t = trim_chars(v);
    match c {
        Cleanup::Raw => t,
        Cleanup::Emphasis => strip_emphasis_chars(&t),
        _ => {
            let linked = flatten_brackets(&t, '[', ']');
            let t2 = trim_chars(&linked);
            let plain = strip_emphasis_chars(&t2);
            if c == Cleanup::Links {
                plain
            } else {
                let flat = flatten_brackets(&plain, '{', '}');
                strip_line_breaks(&flat)
            }
        },
    }
}

/// The infobox block of `text`: the lines after the first line that begins
/// with `{{基本情報`, up to the next line that is exactly `}}` (or the end),
/// joined with `'\n'`.
pub fn extract_template_block(text: &str) -> (r: Result<String, ExtractError>)
    ensures
        match template_block(text@) {
            Some(b) => r is Ok && r->Ok_0@ == b,
            None => r == Err::<String, ExtractError>(ExtractError::MalformedTemplateBlock),
        },
{
    let ls = lines_of(text);
    let marker = vec!['{', '{', '基', '本', '情', '報'];
    let ghost lv = views(ls@);
    let mut m: usize = 0;
    while m < ls.len() && !matches_at(&chars_of(ls[m].as_str()), 0, &marker)
        invariant
            m <= ls.len(),
            lv == views(ls@),
            marker@ == infobox_marker(),
            first_marker_from(lv, m as int) == first_marker_from(lv, 0),
        decreases ls.len() - m,
    {
        m += 1;
    }
    if m >= ls.len() {
        return Err(ExtractError::MalformedTemplateBlock);
    }
    let close = String::from_str("}}");
    proof {
        reveal_strlit("}}");
    }
    let mut t: usize = m + 1;
    while t < ls.len() && !(ls[t] == close)
        invariant
            m < t <= ls.len(),
            lv == views(ls@),
            close@ == block_terminator(),
            first_terminator_from(lv, t as int) == first_terminator_from(lv, m + 1),
        decreases ls.len() - t,
    {
        t += 1;
    }
    let mut block: Vec<String> = Vec::new();
    let mut k = m + 1;
    while k < t
        invariant
            m < k <= t <= ls.len(),
            lv == views(ls@),
            views(block@) == lv.subrange(m + 1, k as int),
        decreases t - k,
    {
        let line = ls[k].clone();
        assert(views(block@.push(line)) == views(block@).push(line@));
        assert(lv.subrange(m + 1, k + 1) == lv.subrange(m + 1, k as int).push(lv[k as int]));
        block.push(line);
        k += 1;
    }
    let nl = "\n";
    proof {
        reveal_strlit("\n");
    }
    assert(first_marker_from(lv, 0) == m);
    assert(first_terminator_from(lv, m + 1) == t);
    assert(views(block@) == lv.subrange(m + 1, t as int));
    assert(nl@ == seq!['\n']);
    Ok(join_strings(&block, nl))
}

/// The value end at or after `k` (exec form of `value_end`).
fn find_value_end(b: &Vec<char>, k: usize, refv: &Vec<char>) -> (r: usize)
    requires
        k <= b.len(),
        refv@ == ref_open(),
    ensures
        r == value_end(b@, k as int),
        k <= r <= b.len(),
        r < b.len() ==> b@[r as int] == '\n' || occurs_at(b@, r as int, ref_open()),
{
    let mut j = k;
    while j < b.len() && b[j] != '\n' && !matches_at(b, j, refv)
        invariant
            k <= j <= b.len(),
            refv@ == ref_open(),
            value_end(b@, j as int) == value_end(b@, k as int),
        decreases b.len() - j,
    {
        j += 1;
    }
    j
}

/// The fields of the block `b` after the clean-up `c`.
fn collect_fields(b: &Vec<char>, c: Cleanup) -> (r: TemplateFieldMap)
    ensures
        r.wf(),
        r@ == field_map(raw_fields(b@), c),
{
    let n = b.len();
    let refv = vec!['<', 'r', 'e', 'f'];
    let mut map = TemplateFieldMap::new();
    let ghost mut done: Seq<(Seq<char>, Seq<char>)> = seq![];
    let mut i: usize = 0;
    while i < n
        invariant
            n == b.len(),
            i <= n,
            refv@ == ref_open(),
            map.wf(),
            map@ == field_map(done, c),
            done + raw_fields_from(b@, i as int) == raw_fields(b@),
        decreases n - i,
    {
        let mut next = i + 1;
        if b[i] == '|' {
            let f = find_either_char(b, i + 1, '=', '\n');
            proof {
                lemma_find_either_bounds(b@, i + 1, '=', '\n');
            }
            if f < n && b[f] == '=' {
                let k = find_value_end(b, f + 1, &refv);
                if k < n {
                    let end = if b[k] == '\n' { k + 1 } else { k + 4 };
                    assert(field_at(b@, i as int) == Some((f as int, k as int, end as int)));
                    let key = trimmed_string(b, i + 1, f);
                    let mut raw_value: Vec<char> = Vec::new();
                    let mut q = f + 1;
                    while q < k
                        invariant
                            f + 1 <= q <= k < n == b.len(),
                            raw_value@ == b@.subrange(f + 1, q as int),
                        decreases k - q,
                    {
                        raw_value.push(b[q]);
                        assert(b@.subrange(f + 1, q + 1) == b@.subrange(f + 1, q as int).push(b@[q as int]));
                        q += 1;
                    }
                    let value_chars = clean_chars(c, &raw_value);
                    let value = string_of(&value_chars, 0, value_chars.len());
                    assert(value_chars@.subrange(0, value_chars.len() as int) == value_chars@);
                    let ghost item = (b@.subrange(i + 1, f as int), b@.subrange(f + 1, k as int));
                    proof {
                        assert(done.push(item).drop_last() == done);
                        assert(done + raw_fields_from(b@, i as int) == done.push(item) + raw_fields_from(b@, end as int));
                        done = done.push(item);
                    }
                    map.insert(key, value);
                    next = end;
                }
            }
        }
        i = next;
    }
    assert(done + raw_fields_from(b@, i as int) == done);
    map
}

/// The infobox fields of `text` after the clean-up `c`.
fn fields_with(text: &str, c: Cleanup) -> (r: Result<TemplateFieldMap, ExtractError>)
    ensures
        match template_fields(text@, c) {
            Some(m) => r is Ok && r->Ok_0.wf() && r->Ok_0@ == m,
            None => r == Err::<TemplateFieldMap, ExtractError>(ExtractError::MalformedTemplateBlock),
        },
{
    match extract_template_block(text) {
        Ok(block) => {
            let b = chars_of(block.as_str());
            Ok(collect_fields(&b, c))
        },
        Err(e) => Err(e),
    }
}

/// The infobox fields of `text`: each line part `|name=value` (the value
/// ending at a newline or at `<ref`) as trimmed name to trimmed value.
pub fn extract_template_fields(text: &str) -> (r: Result<TemplateFieldMap, ExtractError>)
    ensures
        match template_fields(text@, Cleanup::Raw) {
            Some(m) => r is Ok && r->Ok_0.wf() && r->Ok_0@ == m,
            None => r == Err::<TemplateFieldMap, ExtractError>(ExtractError::MalformedTemplateBlock),
        },
{
    fields_with(text, Cleanup::Raw)
}

/// As `extract_template_fields`, with the emphasis markup (`'''`, then `''`)
/// removed from the values.
pub fn extract_template_fields_clean(text: &str) -> (r: Result<TemplateFieldMap, ExtractError>)
    ensures
        match template_fields(text@, Cleanup::Emphasis) {
            Some(m) => r is Ok && r->Ok_0.wf() && r->Ok_0@ == m,
            None => r == Err::<TemplateFieldMap, ExtractError>(ExtractError::MalformedTemplateBlock),
        },
{
    fields_with(text, Cleanup::Emphasis)
}

/// As `extract_template_fields_clean`, with each internal link `[[...]]` of a
/// value first replaced by its last `|`-segment.
pub fn extract_template_fields_delinked(text: &str) -> (r: Result<TemplateFieldMap, ExtractError>)
    ensures
        match template_fields(text@, Cleanup::Links) {
            Some(m) => r is Ok && r->Ok_0.wf() && r->Ok_0@ == m,
            None => r == Err::<TemplateFieldMap, ExtractError>(ExtractError::MalformedTemplateBlock),
        },
{
    fields_with(text, Cleanup::Links)
}

/// As `extract_template_fields_delinked`, with each nested template `{{...}}`
/// replaced by its last `|`-segment and every `<br>` tag removed.
pub fn shape_template_fields(text: &str) -> (r: Result<TemplateFieldMap, ExtractError>)
    ensures
        match template_fields(text@, Cleanup::Full) {
            Some(m) => r is Ok && r->Ok_0.wf() && r->Ok_0@ == m,
            None => r == Err::<TemplateFieldMap, ExtractError>(ExtractError::MalformedTemplateBlock),
        },
{
    fields_with(text, Cleanup::Full)
}

// ---------------------------------------------------------------------- laws

proof fn lemma_field_map_keys(raw: Seq<(Seq<char>, Seq<char>)>, c: Cleanup, k: Seq<char>)
    requires
        field_map(raw, c).contains_key(k),
    ensures
        exists|x: Seq<char>| k == trim(x),
    decreases raw.len(),
{
    if raw.len() > 0 && k != trim(raw.last().0) {
        lemma_field_map_keys(raw.drop_last(), c, k);
    }
}

/// Every field name of an extracted infobox map, whatever the clean-up, is its
/// own trimmed form: it has no whitespace at either end.
pub proof fn lemma_field_names_trimmed(text: Seq<char>, c: Cleanup, k: Seq<char>)
    requires
        template_fields(text, c) is Some,
        template_fields(text, c)->Some_0.contains_key(k),
    ensures
        trim(k) == k,
        is_trimmed(k),
{
    let b = template_block(text)->Some_0;
    lemma_field_map_keys(raw_fields(b), c, k);
    let x = choose|x: Seq<char>| k == trim(x);
    lemma_trim_idempotent(x);
}

/// The fully cleaned fields depend on the article text alone: two
/// extractions from the same text give the same map, or both fail alike.
pub proof fn lemma_shape_template_fields_deterministic(t1: Seq<char>, t2: Seq<char>)
    requires
        t1 == t2,
    ensures
        template_fields(t1, Cleanup::Full) == template_fields(t2, Cleanup::Full),
        template_fields(t1, Cleanup::Full) is None <==> template_block(t1) is None,
{
}

} // verus!
