//! String warm-ups: reversal, selection by position, interleaving, word
//! lengths, n-grams and their set algebra, a template sentence, a cipher and
//! scrambled words.
use vstd::prelude::*;
use core::fmt::Display;
use vstd::string::to_string_from_display_ensures;
use crate::text::{
    chars_of, contains_string, dedup, dedup_strings, join, join_strings, push_char, string_of,
    utf8_len, utf8_len_capped, utf8_width, views, words, words_of,
};

verus! {

/// The characters of `s` in reverse order.
pub fn reverse(s: &str) -> (r: String)
    ensures
        r@ == s@.reverse(),
{
    let v = chars_of(s);
    let mut r = String::new();
    let mut i = v.len();
    while i > 0
        invariant
            i <= v.len(),
            v@ == s@,
            r@ == v@.subrange(i as int, v.len() as int).reverse(),
        decreases i,
    {
        i -= 1;
        push_char(&mut r, v[i]);
        assert(v@.subrange(i as int, v.len() as int).reverse() =~= v@.subrange(i + 1, v.len() as int).reverse().push(v@[i as int]));
    }
    assert(v@.subrange(0, v.len() as int) == v@);
    r
}

/// The characters of `s` at the positions where `keep` is true.
pub open spec fn pick(s: Seq<char>, keep: Seq<bool>) -> Seq<char>
    decreases s.len(),
{
    if s.len() == 0 {
        seq![]
    } else if keep[s.len() - 1] {
        pick(s.drop_last(), keep).push(s.last())
    } else {
        pick(s.drop_last(), keep)
    }
}

/// The characters of `s` whose position (counted in characters, from 0)
/// satisfies `pred`, in order.
pub fn extract<Pred: Fn(usize) -> bool>(s: &str, pred: Pred) -> (r: String)
    requires
        forall|i: usize| #[trigger] pred.requires((i,)),
    ensures
        exists|keep: Seq<bool>|
            keep.len() == s@.len() && (forall|i: int| 0 <= i < s@.len() ==> pred.ensures((i as usize,), #[trigger] keep[i]))
                && r@ == pick(s@, keep),
{
    let v = chars_of(s);
    let mut r = String::new();
    let ghost mut keep: Seq<bool> = seq![];
    let mut i: usize = 0;
    while i < v.len()
        invariant
            i <= v.len(),
            v@ == s@,
            forall|i: usize| #[trigger] pred.requires((i,)),
            keep.len() == i,
            forall|k: int| 0 <= k < i ==> pred.ensures((k as usize,), #[trigger] keep[k]),
            r@ == pick(v@.take(i as int), keep),
        decreases v.len() - i,
    {
        let b = pred(i);
        let ghost old_keep = keep;
        proof {
            keep = keep.push(b);
        }
        assert(v@.take(i + 1).drop_last() == v@.take(i as int));
        assert(pick(v@.take(i as int), keep) == pick(v@.take(i as int), old_keep)) by {
            lemma_pick_prefix(v@.take(i as int), old_keep, keep);
        }
        if b {
            push_char(&mut r, v[i]);
        }
        i += 1;
    }
    assert(v@.take(i as int) == v@);
    r
}

proof fn lemma_pick_prefix(s: Seq<char>, k1: Seq<bool>, k2: Seq<bool>)
    requires
        s.len() <= k1.len(),
        s.len() <= k2.len(),
        forall|i: int| 0 <= i < s.len() ==> k1[i] == k2[i],
    ensures
        pick(s, k1) == pick(s, k2),
    decreases s.len(),
{
    if s.len() > 0 {
        lemma_pick_prefix(s.drop_last(), k1, k2);
    }
}

/// `a` and `b` interleaved character by character, as long as both last.
pub fn join_alt(a: &str, b: &str) -> (r: String)
    ensures
        r@.len() == 2 * if a@.len() < b@.len() { a@.len() } else { b@.len() },
        forall|k: int| 0 <= 2 * k < r@.len() ==> r@[2 * k] == a@[k] && r@[2 * k + 1] == b@[k],
{
    let va = chars_of(a);
    let vb = chars_of(b);
    let n = if va.len() < vb.len() { va.len() } else { vb.len() };
    let mut r = String::new();
    let mut i: usize = 0;
    while i < n
        invariant
            i <= n,
            n <= va.len(),
            n <= vb.len(),
            va@ == a@,
            vb@ == b@,
            n == if a@.len() < b@.len() { a@.len() } else { b@.len() },
            r@.len() == 2 * i,
            forall|k: int| 0 <= 2 * k < r@.len() ==> r@[2 * k] == a@[k] && r@[2 * k + 1] == b@[k],
        decreases n - i,
    {
        push_char(&mut r, va[i]);
        push_char(&mut r, vb[i]);
        assert forall|k: int| 0 <= 2 * k < r@.len() implies r@[2 * k] == a@[k] && r@[2 * k + 1] == b@[k] by {
            if k < i {
            } else {
                assert(k == i);
            }
        }
        i += 1;
    }
    r
}

/// The sentence whose word lengths spell the digits of pi.
pub open spec fn piem() -> Seq<char> {
    "Now I need a drink, alcoholic of course, after the heavy lectures involving quantum mechanics."@
}

/// `c` is a comma or a full stop.
pub open spec fn is_punct(c: char) -> bool {
    c == ',' || c == '.'
}

/// `w` without commas and full stops at its start.
pub open spec fn strip_punct_start(w: Seq<char>) -> Seq<char>
    decreases w.len(),
{
    if w.len() > 0 && is_punct(w[0]) {
        strip_punct_start(w.drop_first())
    } else {
        w
    }
}

/// `w` without commas and full stops at its end.
pub open spec fn strip_punct_end(w: Seq<char>) -> Seq<char>
    decreases w.len(),
{
    if w.len() > 0 && is_punct(w.last()) {
        strip_punct_end(w.drop_last())
    } else {
        w
    }
}

/// The last digit of the length in bytes of `w` without the commas and full
/// stops at its ends.
pub open spec fn word_digit(w: Seq<char>) -> u32 {
    (utf8_len(strip_punct_end(strip_punct_start(w))) % 10) as u32
}

/// The digit of each word of `s`.
pub open spec fn word_digits(ws: Seq<Seq<char>>) -> Seq<u32> {
    ws.map_values(|w: Seq<char>| word_digit(w))
}

/// `word_digit` of `w`.
fn digit_of_word(w: &str) -> (r: u32)
    ensures
        r == word_digit(w@),
{
    let v = chars_of(w);
    let mut a: usize = 0;
    assert(v@.subrange(0, v.len() as int) == v@);
    while a < v.len() && (v[a] == ',' || v[a] == '.')
        invariant
            a <= v.len(),
            strip_punct_start(v@) == strip_punct_start(v@.subrange(a as int, v.len() as int)),
        decreases v.len() - a,
    {
        assert(v@.subrange(a as int, v.len() as int).drop_first() == v@.subrange(a + 1, v.len() as int));
        a += 1;
    }
    let mut b = v.len();
    while b > a && (v[b - 1] == ',' || v[b - 1] == '.')
        invariant
            a <= b <= v.len(),
            strip_punct_end(v@.subrange(a as int, v.len() as int)) == strip_punct_end(v@.subrange(a as int, b as int)),
        decreases b - a,
    {
        assert(v@.subrange(a as int, b as int).drop_last() == v@.subrange(a as int, b - 1));
        b -= 1;
    }
    let mut core: Vec<char> = Vec::new();
    let mut k = a;
    while k < b
        invariant
            a <= k <= b <= v.len(),
            core@ == v@.subrange(a as int, k as int),
        decreases b - k,
    {
        core.push(v[k]);
        assert(v@.subrange(a as int, k + 1) == v@.subrange(a as int, k as int).push(v@[k as int]));
        k += 1;
    }
    assert(strip_punct_end(strip_punct_start(v@)) == core@);
    let mut digit: u32 = 0;
    let mut i: usize = 0;
    while i < core.len()
        invariant
            i <= core.len(),
            digit < 10,
            digit as nat == utf8_len(core@.take(i as int)) % 10,
        decreases core.len() - i,
    {
        assert(core@.take(i + 1).drop_last() == core@.take(i as int));
        let c = core[i];
        let w: u32 = if (c as u32) < 0x80 {
            1
        } else if (c as u32) < 0x800 {
            2
        } else if (c as u32) < 0x10000 {
            3
        } else {
            4
        };
        assert(w == utf8_width(c));
        digit = (digit + w) % 10;
        i += 1;
    }
    assert(core@.take(i as int) == core@);
    digit
}

/// The digits that the word lengths of the pi sentence spell, each length
/// taken without punctuation and modulo 10.
pub fn convert_piem() -> (r: Vec<u32>)
    ensures
        r@ == word_digits(words(piem())),
{
    let sentence = "Now I need a drink, alcoholic of course, after the heavy lectures involving quantum mechanics.";
    let ws = words_of(sentence);
    let mut r: Vec<u32> = Vec::new();
    let mut i: usize = 0;
    while i < ws.len()
        invariant
            i <= ws.len(),
            views(ws@) == words(piem()),
            r@ == word_digits(views(ws@).take(i as int)),
        decreases ws.len() - i,
    {
        let d = digit_of_word(ws[i].as_str());
        assert(word_digits(views(ws@).take(i + 1)) == word_digits(views(ws@).take(i as int)).push(d));
        r.push(d);
        i += 1;
    }
    assert(views(ws@).take(i as int) == views(ws@));
    r
}

/// The mnemonic sentence of the first twenty elements.
pub open spec fn mnemonic() -> Seq<char> {
    "Hi He Lied Because Boron Could Not Oxidize Fluorine. New Nations Might Also Sign Peace Security Clause. Arthur King Can."@
}

/// The atomic numbers whose symbol is the first letter of their word alone.
pub open spec fn one_letter_symbol(number: int) -> bool {
    number == 1 || number == 5 || number == 6 || number == 7 || number == 8 || number == 9
        || number == 15 || number == 16 || number == 19
}

/// The symbol that the word `w` gives the element `number`: its first one or
/// two characters.
pub open spec fn symbol_of(w: Seq<char>, number: int) -> Seq<char> {
    let k: int = if one_letter_symbol(number) { 1 } else { 2 };
    if w.len() < k {
        w
    } else {
        w.take(k)
    }
}

/// The periodic table that the mnemonic spells: for the `i`-th word, its
/// symbol and the atomic number `i + 1`, in order.
pub fn generate_periodic_table() -> (r: Vec<(String, usize)>)
    ensures
        r@.len() == words(mnemonic()).len(),
        forall|i: int|
            0 <= i < r@.len() ==> (#[trigger] r@[i]).0@ == symbol_of(words(mnemonic())[i], i + 1)
                && r@[i].1 == i + 1,
{
    let sentence = "Hi He Lied Because Boron Could Not Oxidize Fluorine. New Nations Might Also Sign Peace Security Clause. Arthur King Can.";
    let ws = words_of(sentence);
    let mut r: Vec<(String, usize)> = Vec::new();
    let mut i: usize = 0;
    while i < ws.len()
        invariant
            i <= ws.len(),
            views(ws@) == words(mnemonic()),
            r@.len() == i,
            forall|k: int|
                0 <= k < i ==> (#[trigger] r@[k]).0@ == symbol_of(words(mnemonic())[k], k + 1)
                    && r@[k].1 == k + 1,
        decreases ws.len() - i,
    {
        let number = i + 1;
        let k: usize = if number == 1 || number == 5 || number == 6 || number == 7 || number == 8
            || number == 9 || number == 15 || number == 16 || number == 19 {
            1
        } else {
            2
        };
        let v = chars_of(ws[i].as_str());
        assert(v@ == words(mnemonic())[i as int]);
        let end = if v.len() < k { v.len() } else { k };
        let symbol = string_of(&v, 0, end);
        assert(symbol@ == symbol_of(v@, number as int));
        r.push((symbol, number));
        i += 1;
    }
    r
}

/// How a text is cut into n-grams.
pub enum AnalysisType {
    /// n consecutive words, joined with a space.
    Word,
    /// n consecutive characters.
    Character,
}

/// Which set operation `calc_two_bigrams` performs.
pub enum CalcType {
    InterSection,
    Union,
    Difference,
}

/// The windows of `n` consecutive characters of `s`, in order.
pub open spec fn char_grams(s: Seq<char>, n: int) -> Seq<Seq<char>> {
    if s.len() < n {
        seq![]
    } else {
        Seq::new((s.len() - n + 1) as nat, |i: int| s.subrange(i, i + n))
    }
}

/// The windows of `n` consecutive words of `ws`, each joined with a space.
pub open spec fn word_grams(ws: Seq<Seq<char>>, n: int) -> Seq<Seq<char>> {
    if ws.len() < n {
        seq![]
    } else {
        Seq::new((ws.len() - n + 1) as nat, |i: int| join(ws.subrange(i, i + n), " "@))
    }
}

/// The distinct n-grams of `text`, in order of first appearance.
pub open spec fn ngrams(text: Seq<char>, n: int, t: AnalysisType) -> Seq<Seq<char>> {
    match t {
        AnalysisType::Word => dedup(word_grams(words(text), n)),
        AnalysisType::Character => dedup(char_grams(text, n)),
    }
}

/// The distinct n-grams of size `size` of `text`, by words or by
/// characters, in order of first appearance.
pub fn generate_ngram(text: &str, size: usize, analysis_type: &AnalysisType) -> (r: Vec<String>)
    requires
        size >= 1,
    ensures
        views(r@) == ngrams(text@, size as int, *analysis_type),
{
    let mut all: Vec<String> = Vec::new();
    match analysis_type {
        AnalysisType::Word => {
            let ws = words_of(text);
            if ws.len() >= size {
                let count = ws.len() - size + 1;
                let mut i: usize = 0;
                while i < count
                    invariant
                        i <= count == ws.len() - size + 1,
                        ws.len() >= size >= 1,
                        views(ws@) == words(text@),
                        views(all@) == word_grams(views(ws@), size as int).take(i as int),
                    decreases count - i,
                {
                    let mut window: Vec<String> = Vec::new();
                    let mut k: usize = i;
                    while k < i + size
                        invariant
                            i <= k <= i + size <= ws.len(),
                            views(window@) == views(ws@).subrange(i as int, k as int),
                        decreases i + size - k,
                    {
                        let w = ws[k].clone();
                        assert(views(window@.push(w)) == views(window@).push(w@));
                        assert(views(ws@).subrange(i as int, k + 1) == views(ws@).subrange(i as int, k as int).push(views(ws@)[k as int]));
                        window.push(w);
                        k += 1;
                    }
                    let gram = join_strings(&window, " ");
                    assert(views(all@.push(gram)) == views(all@).push(gram@));
                    assert(word_grams(views(ws@), size as int).take(i + 1) == word_grams(views(ws@), size as int).take(i as int).push(gram@));
                    all.push(gram);
                    i += 1;
                }
                assert(word_grams(views(ws@), size as int).take(i as int) == word_grams(views(ws@), size as int));
            } else {
                assert(word_grams(views(ws@), size as int) == Seq::<Seq<char>>::empty());
            }
        },
        AnalysisType::Character => {
            let v = chars_of(text);
            if v.len() >= size {
                let count = v.len() - size + 1;
                let mut i: usize = 0;
                while i < count
                    invariant
                        i <= count == v.len() - size + 1,
                        v.len() >= size >= 1,
                        v@ == text@,
                        views(all@) == char_grams(v@, size as int).take(i as int),
                    decreases count - i,
                {
                    let gram = string_of(&v, i, i + size);
                    assert(views(all@.push(gram)) == views(all@).push(gram@));
                    assert(char_grams(v@, size as int).take(i + 1) == char_grams(v@, size as int).take(i as int).push(gram@));
                    all.push(gram);
                    i += 1;
                }
                assert(char_grams(v@, size as int).take(i as int) == char_grams(v@, size as int));
            } else {
                assert(char_grams(v@, size as int) == Seq::<Seq<char>>::empty());
            }
        },
    }
    dedup_strings(&all)
}

/// The items of `s` that are among `other` (when `inside`) or not among it
/// (otherwise), in order.
pub open spec fn keep_members(s: Seq<Seq<char>>, other: Seq<Seq<char>>, inside: bool) -> Seq<Seq<char>>
    decreases s.len(),
{
    if s.len() == 0 {
        seq![]
    } else {
        let rest = keep_members(s.drop_last(), other, inside);
        if other.contains(s.last()) == inside {
            rest.push(s.last())
        } else {
            rest
        }
    }
}

/// The set operation `c` on the bigram lists `a` and `b`.
pub open spec fn bigram_calc(a: Seq<Seq<char>>, b: Seq<Seq<char>>, c: CalcType) -> Seq<Seq<char>> {
    match c {
        CalcType::InterSection => keep_members(a, b, true),
        CalcType::Union => a + keep_members(b, a, false),
        CalcType::Difference => keep_members(a, b, false),
    }
}

/// The items of `s` that are (or are not) among `other`.
fn filter_members(s: &Vec<String>, other: &Vec<String>, inside: bool) -> (r: Vec<String>)
    ensures
        views(r@) == keep_members(views(s@), views(other@), inside),
{
    let mut r: Vec<String> = Vec::new();
    let mut i: usize = 0;
    while i < s.len()
        invariant
            i <= s.len(),
            views(r@) == keep_members(views(s@).take(i as int), views(other@), inside),
        decreases s.len() - i,
    {
        assert(views(s@).take(i + 1).drop_last() == views(s@).take(i as int));
        if contains_string(other, &s[i]) == inside {
            let x = s[i].clone();
            assert(views(r@.push(x)) == views(r@).push(x@));
            r.push(x);
        }
        i += 1;
    }
    assert(views(s@).take(i as int) == views(s@));
    r
}

/// The intersection, union or difference of the character bigrams of the
/// two texts: the bigrams of `text1` first, in order of first appearance.
pub fn calc_two_bigrams(text1: &str, text2: &str, calc_type: CalcType) -> (r: Vec<String>)
    ensures
        views(r@) == bigram_calc(
            ngrams(text1@, 2, AnalysisType::Character),
            ngrams(text2@, 2, AnalysisType::Character),
            calc_type,
        ),
{
    let bigram1 = generate_ngram(text1, 2, &AnalysisType::Character);
    let bigram2 = generate_ngram(text2, 2, &AnalysisType::Character);
    match calc_type {
        CalcType::InterSection => filter_members(&bigram1, &bigram2, true),
        CalcType::Union => {
            let extra = filter_members(&bigram2, &bigram1, false);
            let mut r: Vec<String> = Vec::new();
            let mut i: usize = 0;
            while i < bigram1.len()
                invariant
                    i <= bigram1.len(),
                    views(r@) == views(bigram1@).take(i as int),
                decreases bigram1.len() - i,
            {
                let x = bigram1[i].clone();
                assert(views(r@.push(x)) == views(r@).push(x@));
                assert(views(bigram1@).take(i + 1) == views(bigram1@).take(i as int).push(x@));
                r.push(x);
                i += 1;
            }
            let mut k: usize = 0;
            while k < extra.len()
                invariant
                    k <= extra.len(),
                    views(r@) == views(bigram1@) + views(extra@).take(k as int),
                decreases extra.len() - k,
            {
                let x = extra[k].clone();
                assert(views(r@.push(x)) == views(r@).push(x@));
                assert(views(extra@).take(k + 1) == views(extra@).take(k as int).push(x@));
                r.push(x);
                k += 1;
            }
            assert(views(bigram1@).take(i as int) == views(bigram1@));
            assert(views(extra@).take(k as int) == views(extra@));
            r
        },
        CalcType::Difference => filter_members(&bigram1, &bigram2, false),
    }
}

/// The sentence "`x`時の`y`は`z`" with each value in its `Display` form.
pub fn generate_description<A: Display, B: Display, C: Display>(x: A, y: B, z: C) -> (r: String)
    ensures
        exists|xs: String, ys: String, zs: String|
            to_string_from_display_ensures::<A>(&x, xs) && to_string_from_display_ensures::<B>(&y, ys)
                && to_string_from_display_ensures::<C>(&z, zs)
                && r@ == xs@ + "時の"@ + ys@ + "は"@ + zs@,
{
    let xs = x.to_string();
    let ys = y.to_string();
    let zs = z.to_string();
    let mut r = xs.clone();
    r.append("時の");
    r.append(ys.as_str());
    r.append("は");
    r.append(zs.as_str());
    r
}

/// The Unicode `Lowercase` property of `c`, as `char::is_lowercase` reports it.
pub uninterp spec fn lowercase_property(c: char) -> bool;

/// Relies on `char::is_lowercase`: whether `c` has the Unicode `Lowercase`
/// property.
#[verifier::external_body]
fn is_lowercase(c: char) -> (r: bool)
    ensures
        r == lowercase_property(c),
{
    c.is_lowercase()
}

/// The cipher of one character, given whether it is lowercase: a lowercase
/// character becomes `Û` (code 219), any other stays.
pub fn cipher_char(c: char, lowercase: bool) -> (r: char)
    ensures
        r == (if lowercase { '\u{DB}' } else { c }),
{
    if lowercase {
        '\u{DB}'
    } else {
        c
    }
}

/// `text` with each lowercase character replaced by `Û` (code 219).
pub fn generate_cipher(text: &str) -> (r: String)
    ensures
        r@.len() == text@.len(),
        forall|i: int|
            0 <= i < text@.len() ==> r@[i] == (if lowercase_property(text@[i]) { '\u{DB}' } else { text@[i] }),
{
    let v = chars_of(text);
    let mut r = String::new();
    let mut i: usize = 0;
    while i < v.len()
        invariant
            i <= v.len(),
            v@ == text@,
            r@.len() == i,
            forall|k: int|
                0 <= k < i ==> r@[k] == (if lowercase_property(v@[k]) { '\u{DB}' } else { v@[k] }),
        decreases v.len() - i,
    {
        let c = cipher_char(v[i], is_lowercase(v[i]));
        push_char(&mut r, c);
        i += 1;
    }
    r
}

/// Relies on `rand::seq::SliceRandom::shuffle` with the thread-local
/// generator: it only swaps elements, so the result is a permutation.
#[verifier::external_body]
fn shuffle(v: &mut Vec<char>)
    ensures
        final(v)@.len() == old(v)@.len(),
        final(v)@.to_multiset() == old(v)@.to_multiset(),
{
    rand::seq::SliceRandom::shuffle(v.as_mut_slice(), &mut rand::thread_rng());
}

/// `s` is `w` with its inner characters (all but the first and the last)
/// rearranged, or `w` itself when `w` takes at most four bytes.
pub open spec fn scrambled(w: Seq<char>, s: Seq<char>) -> bool {
    if utf8_len(w) <= 4 {
        s == w
    } else {
        s.len() == w.len() && s[0] == w[0] && s.last() == w.last()
            && s.subrange(1, s.len() - 1).to_multiset() == w.subrange(1, w.len() - 1).to_multiset()
    }
}

/// One word with its inner characters shuffled (words of at most four bytes
/// stay as they are).
fn typoglycemia_word(w: &String) -> (r: String)
    ensures
        scrambled(w@, r@),
{
    let v = chars_of(w.as_str());
    if utf8_len_capped(&v, 4) <= 4 {
        return w.clone();
    }
    // more than four bytes: at least two characters
    proof {
        lemma_utf8_len_short(v@);
    }
    let n = v.len();
    let mut middle: Vec<char> = Vec::new();
    let mut k: usize = 1;
    while k < n - 1
        invariant
            1 <= k <= n - 1,
            n == v.len(),
            n >= 2,
            middle@ == v@.subrange(1, k as int),
        decreases n - 1 - k,
    {
        middle.push(v[k]);
        assert(v@.subrange(1, k + 1) == v@.subrange(1, k as int).push(v@[k as int]));
        k += 1;
    }
    shuffle(&mut middle);
    let mut r = String::new();
    push_char(&mut r, v[0]);
    let mut i: usize = 0;
    while i < middle.len()
        invariant
            i <= middle.len(),
            r@ == seq![v@[0]] + middle@.take(i as int),
        decreases middle.len() - i,
    {
        push_char(&mut r, middle[i]);
        assert(middle@.take(i + 1) == middle@.take(i as int).push(middle@[i as int]));
        i += 1;
    }
    push_char(&mut r, v[n - 1]);
    assert(middle@.take(i as int) == middle@);
    assert(r@.subrange(1, r@.len() - 1) == middle@);
    r
}

proof fn lemma_utf8_len_short(s: Seq<char>)
    requires
        utf8_len(s) > 4,
    ensures
        s.len() >= 2,
    decreases s.len(),
{
    if s.len() == 1 {
        assert(utf8_len(s.drop_last()) == 0);
        assert(utf8_width(s.last()) <= 4);
    }
}

/// The words of `text`, each with its inner characters shuffled (words of at
/// most four bytes unchanged), joined with single spaces.
pub fn generate_typoglycemia(text: &str) -> (r: String)
    ensures
        exists|out: Seq<Seq<char>>|
            out.len() == words(text@).len() && (forall|i: int|
                0 <= i < out.len() ==> scrambled(words(text@)[i], #[trigger] out[i]))
                && r@ == join(out, " "@),
{
    let ws = words_of(text);
    let mut out: Vec<String> = Vec::new();
    let mut i: usize = 0;
    while i < ws.len()
        invariant
            i <= ws.len(),
            views(ws@) == words(text@),
            out@.len() == i,
            forall|k: int| 0 <= k < i ==> scrambled(words(text@)[k], #[trigger] views(out@)[k]),
        decreases ws.len() - i,
    {
        let s = typoglycemia_word(&ws[i]);
        let ghost before = views(out@);
        out.push(s);
        assert(views(out@) == before.push(s@));
        i += 1;
    }
    join_strings(&out, " ")
}

} // verus!
