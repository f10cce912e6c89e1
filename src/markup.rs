//! Clean-up of template field values: emphasis, internal links, nested
//! templates and line-break tags.
use vstd::prelude::*;
use crate::text::{
    find_either, find_either_char, lemma_find_either_bounds, matches_at, occurs_at, remove_all,
    remove_pattern, trim, trim_bounds,
};

verus! {

/// The last index below `j` that holds `c`, or `-1`.
pub open spec fn last_index(t: Seq<char>, c: char, j: int) -> int
    decreases j,
{
    if j <= 0 {
        -1
    } else if t[j - 1] == c {
        j - 1
    } else {
        last_index(t, c, j - 1)
    }
}

proof fn lemma_last_index(t: Seq<char>, c: char, j: int)
    requires
        0 <= j <= t.len(),
    ensures
        -1 <= last_index(t, c, j) < j,
        last_index(t, c, j) >= 0 ==> t[last_index(t, c, j)] == c,
    decreases j,
{
    if j > 0 && t[j - 1] != c {
        lemma_last_index(t, c, j - 1);
    }
}

/// What follows the last `|` of `t`, or all of `t` when it has none.
pub open spec fn last_segment(t: Seq<char>) -> Seq<char> {
    t.subrange(last_index(t, '|', t.len() as int) + 1, t.len() as int)
}

/// A construct `oo<inner>cc` at `p` whose inner part holds neither `o` nor
/// `c`: the index of its closing pair.
pub open spec fn bracketed_at(s: Seq<char>, p: int, o: char, c: char) -> Option<int> {
    if occurs_at(s, p, seq![o, o]) {
        let k = find_either(s, p + 2, o, c);
        if occurs_at(s, k, seq![c, c]) {
            Some(k)
        } else {
            None
        }
    } else {
        None
    }
}

/// `s` from position `i` on, each `oo<inner>cc` construct replaced by the last
/// `|`-segment of its inner part, scanning left to right.
pub open spec fn flatten_from(s: Seq<char>, i: int, o: char, c: char) -> Seq<char>
    decreases s.len() - i,
{
    if i < 0 || i >= s.len() {
        seq![]
    } else {
        match bracketed_at(s, i, o, c) {
            Some(k) => if i < k + 2 <= s.len() {
                last_segment(s.subrange(i + 2, k)) + flatten_from(s, k + 2, o, c)
            } else {
                seq![]
            },
            None => seq![s[i]] + flatten_from(s, i + 1, o, c),
        }
    }
}

/// `s` with its internal links `[[target|text]]` replaced by their text.
pub open spec fn delink(s: Seq<char>) -> Seq<char> {
    flatten_from(s, 0, '[', ']')
}

/// `s` with its nested templates `{{name|...|text}}` replaced by their last part.
pub open spec fn detemplate(s: Seq<char>) -> Seq<char> {
    flatten_from(s, 0, '{', '}')
}

/// A line-break tag `<br>`, `<br/>`, `<br >` or `<br />` at `p`: its end.
pub open spec fn br_at(s: Seq<char>, p: int) -> Option<int> {
    if occurs_at(s, p, seq!['<', 'b', 'r']) {
        let q1 = if p + 3 < s.len() && s[p + 3] == ' ' { p + 4 } else { p + 3 };
        let q2 = if q1 < s.len() && s[q1] == '/' { q1 + 1 } else { q1 };
        if q2 < s.len() && s[q2] == '>' {
            Some(q2 + 1)
        } else {
            None
        }
    } else {
        None
    }
}

/// `s` from position `i` on without its line-break tags.
pub open spec fn remove_br_from(s: Seq<char>, i: int) -> Seq<char>
    decreases s.len() - i,
{
    if i < 0 || i >= s.len() {
        seq![]
    } else {
        match br_at(s, i) {
            Some(e) => if i < e <= s.len() {
                remove_br_from(s, e)
            } else {
                seq![]
            },
            None => seq![s[i]] + remove_br_from(s, i + 1),
        }
    }
}

/// `s` without its line-break tags.
pub open spec fn remove_br(s: Seq<char>) -> Seq<char> {
    remove_br_from(s, 0)
}

/// `s` without emphasis markup: runs `'''` removed first, then runs `''`.
pub open spec fn strip_emphasis(s: Seq<char>) -> Seq<char> {
    remove_all(remove_all(s, seq!['\'', '\'', '\'']), seq!['\'', '\''])
}

/// A field value after emphasis removal.
pub open spec fn clean_value(v: Seq<char>) -> Seq<char> {
    strip_emphasis(trim(v))
}

/// A field value after link resolution and emphasis removal.
pub open spec fn delinked_value(v: Seq<char>) -> Seq<char> {
    strip_emphasis(trim(delink(trim(v))))
}

/// A field value after every clean-up step.
pub open spec fn shaped_value(v: Seq<char>) -> Seq<char> {
    remove_br(detemplate(delinked_value(v)))
}

/// The index of the last `|` of `v[lo..hi]`, relative to `lo`, if any.
fn last_pipe(v: &Vec<char>, lo: usize, hi: usize) -> (r: Option<usize>)
    requires
        lo <= hi <= v.len(),
    ensures
        ({
            let t = v@.subrange(lo as int, hi as int);
            match r {
                Some(q) => q as int == last_index(t, '|', t.len() as int) && q < hi - lo,
                None => last_index(t, '|', t.len() as int) == -1,
            }
        }),
{
    let ghost t = v@.subrange(lo as int, hi as int);
    let mut j = hi - lo;
    while j > 0
        invariant
            lo <= hi <= v.len(),
            t == v@.subrange(lo as int, hi as int),
            j <= hi - lo,
            last_index(t, '|', j as int) == last_index(t, '|', t.len() as int),
        decreases j,
    {
        if v[lo + j - 1] == '|' {
            return Some(j - 1);
        }
        j -= 1;
    }
    None
}

/// Appends `v[lo..hi]` to `out`.
fn append_range(out: &mut Vec<char>, v: &Vec<char>, lo: usize, hi: usize)
    requires
        lo <= hi <= v.len(),
    ensures
        final(out)@ == old(out)@ + v@.subrange(lo as int, hi as int),
{
    let mut k = lo;
    while k < hi
        invariant
            lo <= k <= hi <= v.len(),
            out@ == old(out)@ + v@.subrange(lo as int, k as int),
        decreases hi - k,
    {
        out.push(v[k]);
        assert(v@.subrange(lo as int, k + 1) == v@.subrange(lo as int, k as int).push(v@[k as int]));
        k += 1;
    }
}

/// `v` with each `oo<inner>cc` construct replaced by the last `|`-segment of
/// its inner part.
pub fn flatten_brackets(v: &Vec<char>, o: char, c: char) -> (r: Vec<char>)
    requires
        o != c,
    ensures
        r@ == flatten_from(v@, 0, o, c),
{
    let n = v.len();
    let open = vec![o, o];
    let close = vec![c, c];
    let mut r: Vec<char> = Vec::new();
    let mut i: usize = 0;
    while i < n
        invariant
            n == v.len(),
            i <= n,
            open@ == seq![o, o],
            close@ == seq![c, c],
            r@ + flatten_from(v@, i as int, o, c) == flatten_from(v@, 0, o, c),
        decreases n - i,
    {
        let mut done = false;
        if matches_at(v, i, &open) {
            let k = find_either_char(v, i + 2, o, c);
            proof {
                lemma_find_either_bounds(v@, i + 2, o, c);
            }
            if matches_at(v, k, &close) {
                let ghost inner = v@.subrange(i + 2, k as int);
                proof {
                    lemma_last_index(inner, '|', inner.len() as int);
                }
                let start = match last_pipe(v, i + 2, k) {
                    Some(q) => i + 2 + q + 1,
                    None => i + 2,
                };
                assert(v@.subrange(start as int, k as int) == last_segment(inner));
                let ghost r0 = r@;
                append_range(&mut r, v, start, k);
                assert(r0 + flatten_from(v@, i as int, o, c) == r@ + flatten_from(v@, k + 2, o, c));
                i = k + 2;
                done = true;
            }
        }
        if !done {
            assert(r@ + flatten_from(v@, i as int, o, c) == r@.push(v@[i as int]) + flatten_from(v@, i + 1, o, c));
            r.push(v[i]);
            i += 1;
        }
    }
    assert(r@ + flatten_from(v@, i as int, o, c) == r@);
    r
}

/// `v` without its line-break tags.
pub fn strip_line_breaks(v: &Vec<char>) -> (r: Vec<char>)
    ensures
        r@ == remove_br(v@),
{
    let n = v.len();
    let tag = vec!['<', 'b', 'r'];
    let mut r: Vec<char> = Vec::new();
    let mut i: usize = 0;
    while i < n
        invariant
            n == v.len(),
            i <= n,
            tag@ == seq!['<', 'b', 'r'],
            r@ + remove_br_from(v@, i as int) == remove_br(v@),
        decreases n - i,
    {
        let mut done = false;
        if matches_at(v, i, &tag) {
            let mut q = i + 3;
            if q < n && v[q] == ' ' {
                q += 1;
            }
            if q < n && v[q] == '/' {
                q += 1;
            }
            if q < n && v[q] == '>' {
                assert(br_at(v@, i as int) == Some(q + 1));
                i = q + 1;
                done = true;
            }
        }
        if !done {
            assert(r@ + remove_br_from(v@, i as int) == r@.push(v@[i as int]) + remove_br_from(v@, i + 1));
            r.push(v[i]);
            i += 1;
        }
    }
    assert(r@ + remove_br_from(v@, i as int) == r@);
    r
}

/// `v` without emphasis markup.
pub fn strip_emphasis_chars(v: &Vec<char>) -> (r: Vec<char>)
    ensures
        r@ == strip_emphasis(v@),
{
    let bold = vec!['\'', '\'', '\''];
    let italic = vec!['\'', '\''];
    let once = remove_pattern(v, &bold);
    remove_pattern(&once, &italic)
}

/// `trim(v)` as a new vector.
pub fn trim_chars(v: &Vec<char>) -> (r: Vec<char>)
    ensures
        r@ == trim(v@),
{
    let (a, b) = trim_bounds(v, 0, v.len());
    assert(v@.subrange(0, v.len() as int) == v@);
    let mut r: Vec<char> = Vec::new();
    append_range(&mut r, v, a, b);
    assert(Seq::<char>::empty() + v@.subrange(a as int, b as int) == v@.subrange(a as int, b as int));
    r
}

} // verus!
