//! Line and column utilities over the content of a tab-separated file.
use vstd::prelude::*;
use crate::text::{chars_of, join, join_strings, lines, lines_of, push_char, string_of, views};

verus! {

/// The pieces of `s` between the occurrences of `sep`, from position `i` on
/// (`str::split(sep)`: always at least one piece).
pub open spec fn split_from(s: Seq<char>, i: int, sep: char) -> Seq<Seq<char>>
    decreases s.len() - i,
{
    let e = crate::text::find_from(s, i, sep);
    if 0 <= i <= e < s.len() {
        seq![s.subrange(i, e)] + split_from(s, e + 1, sep)
    } else if 0 <= i <= s.len() {
        seq![s.subrange(i, s.len() as int)]
    } else {
        seq![]
    }
}

/// The tab-separated fields of a line.
pub open spec fn fields(line: Seq<char>) -> Seq<Seq<char>> {
    split_from(line, 0, '\t')
}

/// Every line has a field at index `n`.
pub open spec fn has_column(ls: Seq<Seq<char>>, n: int) -> bool {
    forall|i: int| 0 <= i < ls.len() ==> n < #[trigger] fields(ls[i]).len()
}

/// The field at index `n` of each line.
pub open spec fn column(ls: Seq<Seq<char>>, n: int) -> Seq<Seq<char>> {
    ls.map_values(|l: Seq<char>| fields(l)[n])
}

/// `s` with each tab replaced by a space.
pub open spec fn tabs_to_spaces(s: Seq<char>) -> Seq<char> {
    s.map_values(|c: char| if c == '\t' { ' ' } else { c })
}

/// The field at index `n` of `line`, if it has one.
fn field_of(line: &String, n: usize) -> (r: Option<String>)
    ensures
        match r {
            Some(f) => n < fields(line@).len() && f@ == fields(line@)[n as int],
            None => n >= fields(line@).len(),
        },
{
    let v = chars_of(line.as_str());
    let len = v.len();
    let mut start: usize = 0;
    let mut k: usize = 0;
    while k < n
        invariant
            start <= len == v.len(),
            v@ == line@,
            k <= n,
            fields(v@).len() == k + split_from(v@, start as int, '\t').len(),
            forall|j: int| 0 <= j < split_from(v@, start as int, '\t').len() ==>
                fields(v@)[k + j] == #[trigger] split_from(v@, start as int, '\t')[j],
        decreases n - k,
    {
        let e = crate::text::find_char(&v, start, len, '\t');
        proof {
            crate::text::lemma_find_from_bounds(v@, start as int, '\t');
        }
        if e >= len {
            assert(split_from(v@, start as int, '\t').len() == 1);
            return None;
        }
        assert forall|j: int| 0 <= j < split_from(v@, e + 1, '\t').len() implies fields(v@)[k + 1 + j]
            == #[trigger] split_from(v@, e + 1, '\t')[j] by {
            assert(split_from(v@, start as int, '\t')[j + 1] == split_from(v@, e + 1, '\t')[j]);
        }
        start = e + 1;
        k += 1;
    }
    let e = crate::text::find_char(&v, start, len, '\t');
    proof {
        crate::text::lemma_find_from_bounds(v@, start as int, '\t');
    }
    assert(split_from(v@, start as int, '\t')[0] == v@.subrange(start as int, e as int));
    Some(string_of(&v, start, e))
}

/// The pairs `row1[i]` tab `row2[i]` for every index both rows have.
pub open spec fn zipped(row1: Seq<Seq<char>>, row2: Seq<Seq<char>>) -> Seq<Seq<char>> {
    let n = if row1.len() < row2.len() { row1.len() } else { row2.len() };
    Seq::new(n, |i: int| row1[i] + seq!['\t'] + row2[i])
}

/// The lines `ls` in chunks of `k` lines (the last one possibly shorter).
pub open spec fn chunks(ls: Seq<Seq<char>>, k: int) -> Seq<Seq<Seq<char>>>
    decreases ls.len(),
{
    if k <= 0 || ls.len() == 0 {
        seq![]
    } else if ls.len() <= k {
        seq![ls]
    } else {
        seq![ls.take(k)] + chunks(ls.skip(k), k)
    }
}

/// `size / n`, rounded up.
pub open spec fn ceil_div(size: int, n: int) -> int {
    if size % n == 0 {
        size / n
    } else {
        size / n + 1
    }
}

/// The number of lines per part when `size` lines are split into `split_num`
/// parts: `size / split_num`, rounded up.
pub fn get_split_line_count(size: usize, split_num: usize) -> (r: usize)
    requires
        split_num > 0,
    ensures
        r == ceil_div(size as int, split_num as int),
{
    let res: usize = size / split_num;
    proof {
        assert(res * split_num + size % split_num == size) by (nonlinear_arith)
            requires
                res == size / split_num,
                split_num > 0,
        ;
    }
    if size % split_num == 0 {
        res
    } else {
        assert(split_num != 1);
        proof {
            assert(res < usize::MAX) by (nonlinear_arith)
                requires
                    res * split_num <= size,
                    split_num >= 2,
                    size <= usize::MAX,
            ;
        }
        res + 1
    }
}

/// The names of the parts of a split: `base` followed by `a` and the `i`-th
/// letter of the alphabet, for each part `i` (at most 25 parts).
pub fn split_part_names(base: &str, n: usize) -> (r: Vec<String>)
    requires
        n <= 25,
    ensures
        r@.len() == n,
        forall|i: int| 0 <= i < n ==> (#[trigger] r@[i])@ == base@ + seq!['a', (97 + i) as u8 as char],
{
    let mut r: Vec<String> = Vec::new();
    let mut i: usize = 0;
    while i < n
        invariant
            i <= n <= 25,
            r@.len() == i,
            forall|k: int| 0 <= k < i ==> (#[trigger] r@[k])@ == base@ + seq!['a', (97 + k) as u8 as char],
        decreases n - i,
    {
        let mut name = base.to_owned();
        push_char(&mut name, 'a');
        let letter = (97 + i) as u8 as char;
        push_char(&mut name, letter);
        assert(name@ == base@ + seq!['a', (97 + i) as u8 as char]);
        r.push(name);
        i += 1;
    }
    r
}

/// Removes every `c` at either end of `s`.
pub fn trim_mut(s: &mut String, c: char)
    ensures
        exists|a: int, b: int|
            0 <= a <= b <= old(s)@.len() && final(s)@ == old(s)@.subrange(a, b)
                && (forall|i: int| 0 <= i < a ==> old(s)@[i] == c)
                && (forall|i: int| b <= i < old(s)@.len() ==> old(s)@[i] == c)
                && (b > a ==> old(s)@[a] != c && old(s)@[b - 1] != c),
{
    let v = chars_of(s.as_str());
    let mut a: usize = 0;
    while a < v.len() && v[a] == c
        invariant
            a <= v.len(),
            forall|i: int| 0 <= i < a ==> v@[i] == c,
        decreases v.len() - a,
    {
        a += 1;
    }
    let mut b = v.len();
    while b > a && v[b - 1] == c
        invariant
            a <= b <= v.len(),
            forall|i: int| b <= i < v.len() ==> v@[i] == c,
        decreases b,
    {
        b -= 1;
    }
    *s = string_of(&v, a, b);
}

/// The lines `row1[i]` `delimiter` `row2[i]`, for every index both rows
/// have, joined with `'\n'`.
pub fn merge(row1: &Vec<String>, row2: &Vec<String>, delimiter: char) -> (r: String)
    ensures
        r@ == join(
            Seq::new(
                if row1@.len() < row2@.len() { row1@.len() } else { row2@.len() },
                |i: int| row1@[i]@ + seq![delimiter] + row2@[i]@,
            ),
            "\n"@,
        ),
{
    let n = if row1.len() < row2.len() { row1.len() } else { row2.len() };
    let ghost pairs = Seq::new(n as nat, |i: int| row1@[i]@ + seq![delimiter] + row2@[i]@);
    let mut parts: Vec<String> = Vec::new();
    let mut i: usize = 0;
    while i < n
        invariant
            i <= n,
            n <= row1.len(),
            n <= row2.len(),
            pairs == Seq::new(n as nat, |i: int| row1@[i]@ + seq![delimiter] + row2@[i]@),
            views(parts@) == pairs.take(i as int),
        decreases n - i,
    {
        let mut line = row1[i].clone();
        push_char(&mut line, delimiter);
        line.append(row2[i].as_str());
        assert(line@ == pairs[i as int]);
        assert(views(parts@.push(line)) == views(parts@).push(line@));
        assert(pairs.take(i + 1) == pairs.take(i as int).push(pairs[i as int]));
        parts.push(line);
        i += 1;
    }
    assert(pairs.take(i as int) == pairs);
    join_strings(&parts, "\n")
}

/// The lines, joined with `'\n'` (what is written to a file of lines).
pub fn join_lines(lines: &Vec<String>) -> (r: String)
    ensures
        r@ == join(views(lines@), "\n"@),
{
    join_strings(lines, "\n")
}

/// `a` comes before `b` in the order of `String`: lexicographic by
/// character code.
pub open spec fn str_lt(a: Seq<char>, b: Seq<char>) -> bool
    decreases a.len(),
{
    if a.len() == 0 {
        b.len() > 0
    } else if b.len() == 0 {
        false
    } else if a[0] != b[0] {
        a[0] < b[0]
    } else {
        str_lt(a.drop_first(), b.drop_first())
    }
}

/// Exec form of `str_lt`.
fn less(a: &String, b: &String) -> (r: bool)
    ensures
        r == str_lt(a@, b@),
{
    let va = chars_of(a.as_str());
    let vb = chars_of(b.as_str());
    let mut i: usize = 0;
    assert(a@.skip(0) == a@);
    assert(b@.skip(0) == b@);
    while i < va.len() && i < vb.len() && va[i] == vb[i]
        invariant
            i <= va.len(),
            i <= vb.len(),
            va@ == a@,
            vb@ == b@,
            str_lt(a@, b@) == str_lt(a@.skip(i as int), b@.skip(i as int)),
        decreases va.len() - i,
    {
        assert(a@.skip(i as int).drop_first() == a@.skip(i + 1));
        assert(b@.skip(i as int).drop_first() == b@.skip(i + 1));
        i += 1;
    }
    if i == va.len() {
        i < vb.len()
    } else if i == vb.len() {
        false
    } else {
        va[i] < vb[i]
    }
}

/// Where `x` goes in the ascending list `s`, searching from `i`: the first
/// index whose item is not below `x`.
pub open spec fn insert_pos(s: Seq<Seq<char>>, x: Seq<char>, i: int) -> int
    decreases s.len() - i,
{
    if i < 0 || i >= s.len() {
        s.len() as int
    } else if !str_lt(s[i], x) {
        i
    } else {
        insert_pos(s, x, i + 1)
    }
}

/// `s` with `x` inserted in order, unless it holds `x` already.
pub open spec fn sorted_insert(s: Seq<Seq<char>>, x: Seq<char>) -> Seq<Seq<char>> {
    let p = insert_pos(s, x, 0);
    if 0 <= p < s.len() && s[p] == x {
        s
    } else {
        s.insert(p, x)
    }
}

/// The distinct items of `items` in ascending order, built by inserting
/// each in turn.
pub open spec fn sorted_unique(items: Seq<Seq<char>>) -> Seq<Seq<char>>
    decreases items.len(),
{
    if items.len() == 0 {
        seq![]
    } else {
        sorted_insert(sorted_unique(items.drop_last()), items.last())
    }
}

proof fn lemma_insert_pos(s: Seq<Seq<char>>, x: Seq<char>, i: int)
    requires
        0 <= i <= s.len(),
    ensures
        i <= insert_pos(s, x, i) <= s.len(),
    decreases s.len() - i,
{
    if i < s.len() && str_lt(s[i], x) {
        lemma_insert_pos(s, x, i + 1);
    }
}

proof fn lemma_str_lt_transitive(a: Seq<char>, b: Seq<char>, c: Seq<char>)
    requires
        str_lt(a, b),
        str_lt(b, c),
    ensures
        str_lt(a, c),
    decreases a.len(),
{
    if a.len() > 0 && b.len() > 0 && c.len() > 0 && a[0] == b[0] && b[0] == c[0] {
        lemma_str_lt_transitive(a.drop_first(), b.drop_first(), c.drop_first());
    }
}

proof fn lemma_str_lt_total(a: Seq<char>, b: Seq<char>)
    requires
        a != b,
    ensures
        str_lt(a, b) || str_lt(b, a),
    decreases a.len(),
{
    if a.len() > 0 && b.len() > 0 && a[0] == b[0] {
        if a.drop_first() == b.drop_first() {
            assert(a =~= seq![a[0]] + a.drop_first());
            assert(b =~= seq![b[0]] + b.drop_first());
        }
        lemma_str_lt_total(a.drop_first(), b.drop_first());
    } else if a.len() > 0 && b.len() > 0 {
        assert(a[0] != b[0]);
    } else if a.len() == 0 && b.len() == 0 {
        assert(a =~= b);
    }
}

/// Each item of `s` comes strictly before the next.
pub open spec fn strictly_ascending(s: Seq<Seq<char>>) -> bool {
    forall|i: int, j: int| 0 <= i < j < s.len() ==> str_lt(s[i], s[j])
}

proof fn lemma_insert_pos_sides(s: Seq<Seq<char>>, x: Seq<char>, i: int)
    requires
        0 <= i <= s.len(),
    ensures
        forall|k: int| i <= k < insert_pos(s, x, i) ==> str_lt(s[k], x),
        insert_pos(s, x, i) < s.len() ==> !str_lt(s[insert_pos(s, x, i)], x),
    decreases s.len() - i,
{
    if i < s.len() && str_lt(s[i], x) {
        lemma_insert_pos_sides(s, x, i + 1);
    }
}

proof fn lemma_sorted_insert(s: Seq<Seq<char>>, x: Seq<char>)
    requires
        strictly_ascending(s),
    ensures
        strictly_ascending(sorted_insert(s, x)),
        forall|y: Seq<char>| sorted_insert(s, x).contains(y) <==> (s.contains(y) || y == x),
{
    let p = insert_pos(s, x, 0);
    lemma_insert_pos(s, x, 0);
    lemma_insert_pos_sides(s, x, 0);
    if 0 <= p < s.len() && s[p] == x {
    } else {
        let t = s.insert(p, x);
        if p < s.len() {
            lemma_str_lt_total(s[p], x);
        }
        assert forall|i: int, j: int| 0 <= i < j < t.len() implies str_lt(t[i], t[j]) by {
            if j < p {
            } else if j == p {
            } else if i < p {
                // t[i] = s[i], t[j] = s[j - 1]
                if j - 1 == p {
                } else {
                }
            } else if i == p {
                // x below s[p] <= s[j - 1]
                if j - 1 > p {
                    lemma_str_lt_transitive(x, s[p], s[j - 1]);
                }
            } else {
            }
        }
        assert forall|y: Seq<char>| t.contains(y) <==> (s.contains(y) || y == x) by {
            if s.contains(y) {
                let k = choose|k: int| 0 <= k < s.len() && s[k] == y;
                if k < p {
                    assert(t[k] == y);
                } else {
                    assert(t[k + 1] == y);
                }
            }
            if t.contains(y) {
                let k = choose|k: int| 0 <= k < t.len() && t[k] == y;
                if k < p {
                    assert(s[k] == y);
                } else if k > p {
                    assert(s[k - 1] == y);
                }
            }
            if y == x {
                assert(t[p] == x);
            }
        }
    }
}

/// The list that `uniq_first_row` joins is strictly ascending and holds
/// exactly the items it was built from.
pub proof fn lemma_sorted_unique(items: Seq<Seq<char>>)
    ensures
        strictly_ascending(sorted_unique(items)),
        forall|y: Seq<char>| sorted_unique(items).contains(y) <==> items.contains(y),
    decreases items.len(),
{
    if items.len() > 0 {
        let init = items.drop_last();
        lemma_sorted_unique(init);
        lemma_sorted_insert(sorted_unique(init), items.last());
        assert forall|y: Seq<char>| sorted_unique(items).contains(y) <==> items.contains(y) by {
            if init.contains(y) {
                let k = choose|k: int| 0 <= k < init.len() && init[k] == y;
                assert(items[k] == y);
            }
            if items.contains(y) && y != items.last() {
                let k = choose|k: int| 0 <= k < items.len() && items[k] == y;
                assert(init[k] == y);
            }
            if y == items.last() {
                assert(items[items.len() - 1] == y);
            }
        }
    }
}

/// Inserts `x` into the ascending list `r` unless it is there already.
fn insert_sorted(r: &mut Vec<String>, x: String)
    ensures
        views(final(r)@) == sorted_insert(views(old(r)@), x@),
{
    let ghost s = views(r@);
    proof {
        lemma_insert_pos(s, x@, 0);
    }
    let mut p: usize = 0;
    while p < r.len() && less(&r[p], &x)
        invariant
            p <= r.len(),
            s == views(r@),
            r@ == old(r)@,
            insert_pos(s, x@, p as int) == insert_pos(s, x@, 0),
        decreases r.len() - p,
    {
        p += 1;
    }
    if p < r.len() && r[p] == x {
        return;
    }
    let ghost xv = x@;
    r.insert(p, x);
    assert(views(r@) == s.insert(p as int, xv));
}

/// The distinct items in ascending order, joined with `'\n'`.
pub fn sorted_unique_joined(items: &Vec<String>) -> (r: String)
    ensures
        r@ == join(sorted_unique(views(items@)), "\n"@),
{
    let mut acc: Vec<String> = Vec::new();
    let mut i: usize = 0;
    while i < items.len()
        invariant
            i <= items.len(),
            views(acc@) == sorted_unique(views(items@).take(i as int)),
        decreases items.len() - i,
    {
        assert(views(items@).take(i + 1).drop_last() == views(items@).take(i as int));
        insert_sorted(&mut acc, items[i].clone());
        i += 1;
    }
    assert(views(items@).take(i as int) == views(items@));
    join_strings(&acc, "\n")
}

proof fn lemma_first_field(line: Seq<char>)
    ensures
        fields(line).len() >= 1,
{
    crate::text::lemma_find_from_bounds(line, 0, '\t');
}

proof fn lemma_has_first_column(ls: Seq<Seq<char>>)
    ensures
        has_column(ls, 0),
{
    assert forall|i: int| 0 <= i < ls.len() implies 0 < #[trigger] fields(ls[i]).len() by {
        lemma_first_field(ls[i]);
    }
}

/// The number of times `x` occurs in `s`.
pub open spec fn occurrences(s: Seq<Seq<char>>, x: Seq<char>) -> nat
    decreases s.len(),
{
    if s.len() == 0 {
        0
    } else {
        occurrences(s.drop_last(), x) + if s.last() == x { 1nat } else { 0nat }
    }
}

/// Where `x` goes among the keys `s`, which are ordered by decreasing number
/// of occurrences in `col`, searching from `i`: after every key that occurs
/// at least as often.
pub open spec fn rank_pos(s: Seq<Seq<char>>, col: Seq<Seq<char>>, x: Seq<char>, i: int) -> int
    decreases s.len() - i,
{
    if i < 0 || i >= s.len() {
        s.len() as int
    } else if occurrences(col, s[i]) < occurrences(col, x) {
        i
    } else {
        rank_pos(s, col, x, i + 1)
    }
}

/// The keys `ks` ordered by decreasing number of occurrences in `col`; keys
/// that occur equally often keep their order.
pub open spec fn by_frequency(ks: Seq<Seq<char>>, col: Seq<Seq<char>>) -> Seq<Seq<char>>
    decreases ks.len(),
{
    if ks.len() == 0 {
        seq![]
    } else {
        let s = by_frequency(ks.drop_last(), col);
        s.insert(rank_pos(s, col, ks.last(), 0), ks.last())
    }
}

/// The lines of `ls` whose key in `col` is `k`, in order.
pub open spec fn group(ls: Seq<Seq<char>>, col: Seq<Seq<char>>, k: Seq<char>) -> Seq<Seq<char>>
    decreases ls.len(),
{
    if ls.len() == 0 {
        seq![]
    } else {
        let rest = group(ls.drop_last(), col, k);
        if col[ls.len() - 1] == k {
            rest.push(ls.last())
        } else {
            rest
        }
    }
}

/// The groups of the keys `ks`, one after the other.
pub open spec fn grouped(ls: Seq<Seq<char>>, col: Seq<Seq<char>>, ks: Seq<Seq<char>>) -> Seq<Seq<char>>
    decreases ks.len(),
{
    if ks.len() == 0 {
        seq![]
    } else {
        grouped(ls, col, ks.drop_last()) + group(ls, col, ks.last())
    }
}

/// The lines grouped by their first field, the most frequent first field
/// first (equally frequent ones in order of first appearance), each group
/// in the order of the lines.
pub open spec fn sorted_by_frequency(ls: Seq<Seq<char>>) -> Seq<Seq<char>> {
    let col = column(ls, 0);
    grouped(ls, col, by_frequency(crate::text::dedup(col), col))
}

proof fn lemma_dedup(s: Seq<Seq<char>>)
    ensures
        crate::text::dedup(s).no_duplicates(),
        forall|y: Seq<char>| crate::text::dedup(s).contains(y) <==> s.contains(y),
    decreases s.len(),
{
    if s.len() > 0 {
        let init = s.drop_last();
        lemma_dedup(init);
        assert forall|y: Seq<char>| crate::text::dedup(s).contains(y) <==> s.contains(y) by {
            if init.contains(y) {
                let k = choose|k: int| 0 <= k < init.len() && init[k] == y;
                assert(s[k] == y);
            }
            if s.contains(y) && y != s.last() {
                let k = choose|k: int| 0 <= k < s.len() && s[k] == y;
                assert(init[k] == y);
            }
            if y == s.last() {
                assert(s[s.len() - 1] == y);
            }
            let d = crate::text::dedup(init);
            if !d.contains(s.last()) && d.push(s.last()).contains(y) && y != s.last() {
                let k = choose|k: int| 0 <= k < d.push(s.last()).len() && d.push(s.last())[k] == y;
                assert(d[k] == y);
            }
            if !d.contains(s.last()) && d.contains(y) {
                let k = choose|k: int| 0 <= k < d.len() && d[k] == y;
                assert(d.push(s.last())[k] == y);
            }
            if !d.contains(s.last()) && y == s.last() {
                assert(d.push(s.last())[d.len() as int] == y);
            }
        }
    }
}

proof fn lemma_rank_pos(s: Seq<Seq<char>>, col: Seq<Seq<char>>, x: Seq<char>, i: int)
    requires
        0 <= i <= s.len(),
    ensures
        i <= rank_pos(s, col, x, i) <= s.len(),
    decreases s.len() - i,
{
    if i < s.len() && !(occurrences(col, s[i]) < occurrences(col, x)) {
        lemma_rank_pos(s, col, x, i + 1);
    }
}

proof fn lemma_by_frequency(ks: Seq<Seq<char>>, col: Seq<Seq<char>>)
    ensures
        by_frequency(ks, col).to_multiset() == ks.to_multiset(),
    decreases ks.len(),
{
    broadcast use vstd::seq_lib::group_to_multiset_ensures;

    if ks.len() > 0 {
        let init = ks.drop_last();
        lemma_by_frequency(init, col);
        let s = by_frequency(init, col);
        lemma_rank_pos(s, col, ks.last(), 0);
        assert(init.push(ks.last()) == ks);
    }
}

proof fn lemma_grouped_step(ls: Seq<Seq<char>>, col: Seq<Seq<char>>, ks: Seq<Seq<char>>)
    requires
        ls.len() > 0,
        ks.no_duplicates(),
    ensures
        grouped(ls, col, ks).to_multiset() == if ks.contains(col[ls.len() - 1]) {
            grouped(ls.drop_last(), col, ks).to_multiset().insert(ls.last())
        } else {
            grouped(ls.drop_last(), col, ks).to_multiset()
        },
    decreases ks.len(),
{
    broadcast use vstd::seq_lib::group_to_multiset_ensures;
    broadcast use vstd::seq_lib::lemma_multiset_commutative;
    broadcast use vstd::multiset::group_multiset_axioms;

    let c = col[ls.len() - 1];
    if ks.len() > 0 {
        let init = ks.drop_last();
        assert(init.no_duplicates());
        lemma_grouped_step(ls, col, init);
        let g1 = grouped(ls, col, init);
        let g0 = grouped(ls.drop_last(), col, init);
        let h1 = group(ls, col, ks.last());
        let h0 = group(ls.drop_last(), col, ks.last());
        assert(grouped(ls, col, ks) == g1 + h1);
        assert(grouped(ls.drop_last(), col, ks) == g0 + h0);
        if ks.contains(c) {
            let k = choose|k: int| 0 <= k < ks.len() && ks[k] == c;
            if k == ks.len() - 1 {
                if init.contains(c) {
                    let j = choose|j: int| 0 <= j < init.len() && init[j] == c;
                    assert(ks[j] == ks[k]);
                }
            } else {
                assert(init[k] == c);
                assert(ks.last() != c);
            }
        } else {
            if init.contains(c) {
                let j = choose|j: int| 0 <= j < init.len() && init[j] == c;
                assert(ks[j] == c);
            }
            assert(ks[ks.len() - 1] != c);
        }
        assert(grouped(ls, col, ks).to_multiset() =~= g1.to_multiset().add(h1.to_multiset()));
        assert(grouped(ls.drop_last(), col, ks).to_multiset() =~= g0.to_multiset().add(h0.to_multiset()));
    }
}

proof fn lemma_grouped_all(ls: Seq<Seq<char>>, col: Seq<Seq<char>>, ks: Seq<Seq<char>>)
    requires
        ks.no_duplicates(),
        forall|i: int| 0 <= i < ls.len() ==> ks.contains(#[trigger] col[i]),
    ensures
        grouped(ls, col, ks).to_multiset() == ls.to_multiset(),
    decreases ls.len(),
{
    broadcast use vstd::seq_lib::group_to_multiset_ensures;

    if ls.len() > 0 {
        lemma_grouped_all(ls.drop_last(), col, ks);
        lemma_grouped_step(ls, col, ks);
        assert(ls.drop_last().push(ls.last()) == ls);
        assert(ks.contains(col[ls.len() - 1]));
    } else {
        lemma_grouped_empty(ls, col, ks);
    }
}

proof fn lemma_grouped_empty(ls: Seq<Seq<char>>, col: Seq<Seq<char>>, ks: Seq<Seq<char>>)
    requires
        ls.len() == 0,
    ensures
        grouped(ls, col, ks) == Seq::<Seq<char>>::empty(),
    decreases ks.len(),
{
    if ks.len() > 0 {
        lemma_grouped_empty(ls, col, ks.drop_last());
    }
}

/// Sorting the lines by the frequency of their first field only reorders
/// them: every line comes out as often as it went in.
pub proof fn lemma_sorted_by_frequency_permutes(ls: Seq<Seq<char>>)
    ensures
        sorted_by_frequency(ls).to_multiset() == ls.to_multiset(),
{
    broadcast use vstd::seq_lib::group_to_multiset_ensures;

    let col = column(ls, 0);
    let d = crate::text::dedup(col);
    let ks = by_frequency(d, col);
    lemma_dedup(col);
    lemma_by_frequency(d, col);
    d.lemma_multiset_has_no_duplicates();
    ks.lemma_multiset_has_no_duplicates_conv();
    assert forall|i: int| 0 <= i < ls.len() implies ks.contains(#[trigger] col[i]) by {
        assert(col.contains(col[i]));
        assert(d.to_multiset().count(col[i]) > 0);
    }
    lemma_grouped_all(ls, col, ks);
}

/// The number of times `x` occurs in `v`.
fn count_of(v: &Vec<String>, x: &String) -> (r: usize)
    ensures
        r == occurrences(views(v@), x@),
{
    let mut c: usize = 0;
    let mut i: usize = 0;
    while i < v.len()
        invariant
            i <= v.len(),
            c <= i,
            c == occurrences(views(v@).take(i as int), x@),
        decreases v.len() - i,
    {
        assert(views(v@).take(i + 1).drop_last() == views(v@).take(i as int));
        if v[i] == *x {
            c += 1;
        }
        i += 1;
    }
    assert(views(v@).take(i as int) == views(v@));
    c
}

/// The content of a tab-separated file, and the line and column operations
/// over it.
pub struct FileExtractor {
    text: String,
}

impl View for FileExtractor {
    type V = Seq<char>;

    closed spec fn view(&self) -> Seq<char> {
        self.text@
    }
}

impl FileExtractor {
    /// An extractor over the file content `text`.
    pub fn new(text: &str) -> (r: FileExtractor)
        ensures
            r@ == text@,
    {
        FileExtractor { text: text.to_owned() }
    }

    /// The whole content.
    pub fn read(&self) -> (r: String)
        ensures
            r@ == self@,
    {
        self.text.clone()
    }

    /// The lines of the content.
    pub fn read_lines(&self) -> (r: Vec<String>)
        ensures
            views(r@) == lines(self@),
    {
        lines_of(self.text.as_str())
    }

    /// The number of lines.
    pub fn count_lines(&self) -> (r: usize)
        ensures
            r == lines(self@).len(),
    {
        self.read_lines().len()
    }

    /// The content with each tab replaced by a space.
    pub fn replace_tab_to_space(&self) -> (r: String)
        ensures
            r@ == tabs_to_spaces(self@),
    {
        let v = chars_of(self.text.as_str());
        let mut r = String::new();
        let mut i: usize = 0;
        while i < v.len()
            invariant
                i <= v.len(),
                v@ == self@,
                r@ == tabs_to_spaces(v@).take(i as int),
            decreases v.len() - i,
        {
            let c = if v[i] == '\t' { ' ' } else { v[i] };
            push_char(&mut r, c);
            assert(tabs_to_spaces(v@).take(i + 1) == tabs_to_spaces(v@).take(i as int).push(c));
            i += 1;
        }
        assert(tabs_to_spaces(v@).take(i as int) == tabs_to_spaces(v@));
        r
    }

    /// The field at index `n` (from 0) of every line; `None` when some line
    /// has fewer fields.
    pub fn extract_row(&self, n: usize) -> (r: Option<Vec<String>>)
        ensures
            match r {
                Some(col) => has_column(lines(self@), n as int) && views(col@) == column(lines(self@), n as int),
                None => !has_column(lines(self@), n as int),
            },
    {
        let ls = self.read_lines();
        let ghost lv = views(ls@);
        let mut col: Vec<String> = Vec::new();
        let mut i: usize = 0;
        while i < ls.len()
            invariant
                i <= ls.len(),
                lv == views(ls@),
                lv == lines(self@),
                forall|k: int| 0 <= k < i ==> n < #[trigger] fields(lv[k]).len(),
                views(col@) == column(lv.take(i as int), n as int),
            decreases ls.len() - i,
        {
            match field_of(&ls[i], n) {
                Some(f) => {
                    assert(views(col@.push(f)) == views(col@).push(f@));
                    assert(column(lv.take(i + 1), n as int) == column(lv.take(i as int), n as int).push(f@));
                    col.push(f);
                },
                None => {
                    assert(!(n < fields(lv[i as int]).len()));
                    return None;
                },
            }
            i += 1;
        }
        assert(lv.take(i as int) == lv);
        Some(col)
    }

    /// The lines `row1[i]` tab `row2[i]`, for every index both rows have,
    /// joined with `'\n'`.
    pub fn merge(row1: &Vec<String>, row2: &Vec<String>) -> (r: String)
        ensures
            r@ == join(zipped(views(row1@), views(row2@)), "\n"@),
    {
        let r = merge(row1, row2, '\t');
        assert(zipped(views(row1@), views(row2@)) == Seq::new(
            if row1@.len() < row2@.len() { row1@.len() } else { row2@.len() },
            |i: int| row1@[i]@ + seq!['\t'] + row2@[i]@,
        ));
        r
    }

    /// The distinct first fields, in ascending order, joined with `'\n'`.
    pub fn uniq_first_row(&self) -> (r: String)
        ensures
            r@ == join(sorted_unique(column(lines(self@), 0)), "\n"@),
    {
        proof {
            lemma_has_first_column(lines(self@));
        }
        match self.extract_row(0) {
            Some(col) => sorted_unique_joined(&col),
            None => String::new(),
        }
    }

    /// The lines grouped by first field, the most frequent first field first.
    pub fn sort_by_frequent_item(&self) -> (r: Vec<String>)
        ensures
            views(r@) == sorted_by_frequency(lines(self@)),
    {
        proof {
            lemma_has_first_column(lines(self@));
        }
        let ls = self.read_lines();
        let col = match self.extract_row(0) {
            Some(col) => col,
            None => Vec::new(),
        };
        let ghost lv = views(ls@);
        let ghost cv = views(col@);
        let keys = crate::text::dedup_strings(&col);
        // the keys by decreasing frequency, with their counts alongside
        let mut ranked: Vec<String> = Vec::new();
        let mut counts: Vec<usize> = Vec::new();
        let mut i: usize = 0;
        while i < keys.len()
            invariant
                i <= keys.len(),
                cv == views(col@),
                ranked@.len() == counts@.len(),
                forall|j: int| 0 <= j < counts@.len() ==> counts@[j] == occurrences(cv, #[trigger] views(ranked@)[j]),
                views(ranked@) == by_frequency(views(keys@).take(i as int), cv),
            decreases keys.len() - i,
        {
            let x = keys[i].clone();
            let cx = count_of(&col, &x);
            let ghost s = views(ranked@);
            let mut p: usize = 0;
            while p < ranked.len() && counts[p] >= cx
                invariant
                    p <= ranked.len() == counts.len(),
                    s == views(ranked@),
                    cx == occurrences(cv, x@),
                    forall|j: int| 0 <= j < counts@.len() ==> counts@[j] == occurrences(cv, #[trigger] views(ranked@)[j]),
                    rank_pos(s, cv, x@, p as int) == rank_pos(s, cv, x@, 0),
                decreases ranked.len() - p,
            {
                p += 1;
            }
            assert(views(keys@).take(i + 1).drop_last() == views(keys@).take(i as int));
            let ghost xv = x@;
            ranked.insert(p, x);
            counts.insert(p, cx);
            assert(views(ranked@) == s.insert(p as int, xv));
            assert forall|j: int| 0 <= j < counts@.len() implies counts@[j] == occurrences(cv, #[trigger] views(ranked@)[j]) by {
                if j < p {
                } else if j == p {
                } else {
                    assert(views(ranked@)[j] == s[j - 1]);
                }
            }
            i += 1;
        }
        assert(views(keys@).take(i as int) == views(keys@));
        let mut r: Vec<String> = Vec::new();
        let mut k: usize = 0;
        while k < ranked.len()
            invariant
                k <= ranked.len(),
                lv == views(ls@),
                cv == views(col@),
                col@.len() == ls@.len(),
                views(r@) == grouped(lv, cv, views(ranked@).take(k as int)),
            decreases ranked.len() - k,
        {
            let ghost before = views(r@);
            let mut m: usize = 0;
            while m < ls.len()
                invariant
                    m <= ls.len(),
                    k < ranked.len(),
                    lv == views(ls@),
                    cv == views(col@),
                    col@.len() == ls@.len(),
                    views(r@) == before + group(lv.take(m as int), cv, views(ranked@)[k as int]),
                decreases ls.len() - m,
            {
                assert(lv.take(m + 1).drop_last() == lv.take(m as int));
                proof {
                    lemma_group_prefix(lv, cv, views(ranked@)[k as int], m as int);
                }
                if col[m] == ranked[k] {
                    let line = ls[m].clone();
                    assert(views(r@.push(line)) == views(r@).push(line@));
                    r.push(line);
                }
                m += 1;
            }
            assert(lv.take(m as int) == lv);
            assert(views(ranked@).take(k + 1).drop_last() == views(ranked@).take(k as int));
            k += 1;
        }
        assert(views(ranked@).take(k as int) == views(ranked@));
        r
    }

    /// The first `n` lines, joined with `'\n'`.
    pub fn head(&self, n: usize) -> (r: String)
        ensures
            r@ == join(lines(self@).take(if n < lines(self@).len() { n as int } else { lines(self@).len() as int }), "\n"@),
    {
        let ls = self.read_lines();
        let k = if n < ls.len() { n } else { ls.len() };
        let part = slice_lines(&ls, 0, k);
        join_strings(&part, "\n")
    }

    /// The last `n` lines, joined with `'\n'`.
    pub fn tail(&self, n: usize) -> (r: String)
        ensures
            r@ == join(lines(self@).skip(if n < lines(self@).len() { lines(self@).len() - n } else { 0 }), "\n"@),
    {
        let ls = self.read_lines();
        let start = if n < ls.len() { ls.len() - n } else { 0 };
        let part = slice_lines(&ls, start, ls.len());
        assert(views(ls@).subrange(start as int, ls.len() as int) == views(ls@).skip(start as int));
        join_strings(&part, "\n")
    }

    /// The lines in `n` parts of `get_split_line_count(count, n)` lines each
    /// (the last possibly shorter), each part joined with `'\n'`.
    pub fn split(&self, n: usize) -> (r: Vec<String>)
        requires
            n > 0,
        ensures
            ({
                let ls = lines(self@);
                views(r@) == chunks(ls, ceil_div(ls.len() as int, n as int)).map_values(|c: Seq<Seq<char>>| join(c, "\n"@))
            }),
    {
        let ls = self.read_lines();
        let k = get_split_line_count(ls.len(), n);
        let ghost all = views(ls@);
        let ghost target = chunks(all, k as int).map_values(|c: Seq<Seq<char>>| join(c, "\n"@));
        let mut r: Vec<String> = Vec::new();
        if k == 0 {
            return r;
        }
        let mut start: usize = 0;
        assert(all.skip(0) == all);
        while start < ls.len()
            invariant
                0 < k,
                start <= ls.len(),
                all == views(ls@),
                target == chunks(all, k as int).map_values(|c: Seq<Seq<char>>| join(c, "\n"@)),
                views(r@) + chunks(all.skip(start as int), k as int).map_values(|c: Seq<Seq<char>>| join(c, "\n"@)) == target,
            decreases ls.len() - start,
        {
            let end = if ls.len() - start <= k { ls.len() } else { start + k };
            let part = slice_lines(&ls, start, end);
            let s = join_strings(&part, "\n");
            let ghost rest = all.skip(start as int);
            proof {
                if ls.len() - start <= k {
                    assert(all.subrange(start as int, end as int) == rest);
                    assert(all.skip(end as int).len() == 0);
                    assert(chunks(all.skip(end as int), k as int) == Seq::<Seq<Seq<char>>>::empty());
                } else {
                    assert(all.subrange(start as int, end as int) == rest.take(k as int));
                    assert(rest.skip(k as int) == all.skip(end as int));
                }
                assert(chunks(rest, k as int) == seq![all.subrange(start as int, end as int)] + chunks(all.skip(end as int), k as int));
                assert(chunks(rest, k as int).map_values(|c: Seq<Seq<char>>| join(c, "\n"@)) == seq![s@] + chunks(all.skip(end as int), k as int).map_values(|c: Seq<Seq<char>>| join(c, "\n"@)));
            }
            assert(views(r@.push(s)) == views(r@).push(s@));
            r.push(s);
            start = end;
        }
        assert(all.skip(start as int).len() == 0);
        assert(chunks(all.skip(start as int), k as int) == Seq::<Seq<Seq<char>>>::empty());
        r
    }
}

proof fn lemma_group_prefix(ls: Seq<Seq<char>>, col: Seq<Seq<char>>, key: Seq<char>, m: int)
    requires
        0 <= m < ls.len(),
    ensures
        group(ls.take(m + 1), col, key) == if col[m] == key {
            group(ls.take(m), col, key).push(ls[m])
        } else {
            group(ls.take(m), col, key)
        },
{
    assert(ls.take(m + 1).drop_last() == ls.take(m));
}

/// Copies of `ls[lo..hi]`.
fn slice_lines(ls: &Vec<String>, lo: usize, hi: usize) -> (r: Vec<String>)
    requires
        lo <= hi <= ls.len(),
    ensures
        views(r@) == views(ls@).subrange(lo as int, hi as int),
{
    let mut r: Vec<String> = Vec::new();
    let mut k = lo;
    while k < hi
        invariant
            lo <= k <= hi <= ls.len(),
            views(r@) == views(ls@).subrange(lo as int, k as int),
        decreases hi - k,
    {
        let x = ls[k].clone();
        assert(views(r@.push(x)) == views(r@).push(x@));
        assert(views(ls@).subrange(lo as int, k + 1) == views(ls@).subrange(lo as int, k as int).push(x@));
        r.push(x);
        k += 1;
    }
    r
}

} // verus!
