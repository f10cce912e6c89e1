use std::collections::{HashMap, HashSet};

use natural_lang::warmup::{
    calc_two_bigrams, cipher_char, convert_piem, extract, generate_cipher, generate_description,
    generate_ngram, generate_periodic_table, generate_typoglycemia, join_alt, reverse,
    AnalysisType, CalcType,
};

fn get_pi_digits(n: usize) -> Vec<u32> {
    format!("{}", std::f64::consts::PI)
        .chars()
        .take(n)
        .filter_map(|s| s.to_digit(10))
        .collect()
}

fn to_set(lst: Vec<&str>) -> HashSet<String> {
    lst.into_iter().map(|s| s.to_string()).collect()
}

fn as_set(v: Vec<String>) -> HashSet<String> {
    v.into_iter().collect()
}

#[test]
fn test_ch01_00_reverse() {
    assert_eq!("desserts", reverse("stressed"));
}

#[test]
fn test_ch01_01_extract() {
    assert_eq!("パトカー", extract("パタトクカシーー", |idx| idx % 2 == 0));
}

#[test]
fn test_ch01_02_join_alt() {
    assert_eq!("パタトクカシーー", join_alt("パトカー", "タクシー"));
}

#[test]
fn test_helper_ch01_03_get_pi_digits() {
    let str_pi = get_pi_digits(16);
    assert_eq!(vec![3, 1, 4, 1, 5, 9, 2, 6, 5, 3, 5, 8, 9, 7, 9], str_pi);
}

#[test]
fn test_ch01_03_convert_piem() {
    assert_eq!(get_pi_digits(16), convert_piem());
}

#[test]
fn test_ch01_04_generate_periodic_table() {
    let periodic_table = [
        ("H", 1), ("He", 2), ("Li", 3), ("Be", 4), ("B", 5), ("C", 6), ("N", 7), ("O", 8),
        ("F", 9), ("Ne", 10), ("Na", 11), ("Mi", 12),
        ("Al", 13), ("Si", 14), ("P", 15),
        ("S", 16), ("Cl", 17), ("Ar", 18), ("K", 19), ("Ca", 20),
    ]
    .iter()
    .map(|&(s, n)| (s.to_string(), n))
    .collect::<HashMap<String, usize>>();
    let table = generate_periodic_table().into_iter().collect::<HashMap<String, usize>>();
    assert_eq!(periodic_table, table);
}

#[test]
fn test_ch01_05_generate_ngram() {
    let sentence = "I am an NLPer";
    assert_eq!(
        to_set(vec!["I am", "am an", "an NLPer"]),
        as_set(generate_ngram(sentence, 2, &AnalysisType::Word))
    );
    assert_eq!(
        to_set(vec!["I ", " a", "am", "m ", " a", "an", "n ", " N", "NL", "LP", "Pe", "er"]),
        as_set(generate_ngram(sentence, 2, &AnalysisType::Character))
    );
}

#[test]
fn test_ch01_06_calc_two_diagrams() {
    let (word1, word2) = ("paraparaparadise", "paragraph");

    let union = as_set(calc_two_bigrams(word1, word2, CalcType::Union));

    assert_eq!(
        to_set(vec!["pa", "ad", "gr", "ph", "ap", "is", "se", "ar", "ra", "ag", "di"]),
        union
    );
    assert!(union.contains("se"));

    assert_eq!(
        to_set(vec!["ar", "pa", "ra", "ap"]),
        as_set(calc_two_bigrams(word1, word2, CalcType::InterSection))
    );

    assert_eq!(
        to_set(vec!["ad", "is", "di", "se"]),
        as_set(calc_two_bigrams(word1, word2, CalcType::Difference))
    );
}

#[test]
fn test_ch01_07_generate_description() {
    assert_eq!("12時の気温は22.4", generate_description(12, "気温", 22.4));
}

#[test]
fn test_ch01_08_generate_cipher() {
    let sample = "12aBcdE8Qq";
    assert_eq!("12ÛBÛÛE8QÛ", generate_cipher(sample));
}

#[test]
fn test_ch01_09_generate_typoglycemia() {
    let sample_txt = "I couldn't believe that I could actually understand what I was reading :\
     the phenomenal power of the human mind.";

    println!("{}", generate_typoglycemia(sample_txt));
}

#[test]
fn ngram_lists_each_gram_once_in_order_of_appearance() {
    assert_eq!(
        generate_ngram("abab", 2, &AnalysisType::Character),
        vec!["ab".to_string(), "ba".to_string()]
    );
    assert_eq!(
        generate_ngram("a b a b", 2, &AnalysisType::Word),
        vec!["a b".to_string(), "b a".to_string()]
    );
}

#[test]
fn ngram_of_text_shorter_than_size_is_empty() {
    assert!(generate_ngram("ab", 3, &AnalysisType::Character).is_empty());
    assert!(generate_ngram("one two", 3, &AnalysisType::Word).is_empty());
    assert!(generate_ngram("", 1, &AnalysisType::Word).is_empty());
}

#[test]
fn ngram_counts_characters_not_bytes() {
    assert_eq!(
        generate_ngram("日本語", 2, &AnalysisType::Character),
        vec!["日本".to_string(), "本語".to_string()]
    );
}

#[test]
fn bigram_union_lists_first_text_first() {
    assert_eq!(
        calc_two_bigrams("abc", "bcd", CalcType::Union),
        vec!["ab".to_string(), "bc".to_string(), "cd".to_string()]
    );
}

#[test]
fn reverse_keeps_multibyte_characters() {
    assert_eq!("ーシクタ", reverse("タクシー"));
    assert_eq!("", reverse(""));
}

#[test]
fn join_alt_stops_at_the_shorter_text() {
    assert_eq!("adbe", join_alt("ab", "def"));
    assert_eq!("", join_alt("", "xyz"));
}

#[test]
fn cipher_of_one_character() {
    assert_eq!('Û', cipher_char('a', true));
    assert_eq!('A', cipher_char('A', false));
    assert_eq!("ÛÛ!", generate_cipher("ßé!"));
}

#[test]
fn typoglycemia_keeps_short_words_and_word_ends() {
    let text = "I am here scrambled";
    let out = generate_typoglycemia(text);
    let words: Vec<&str> = out.split(' ').collect();
    assert_eq!(words.len(), 4);
    assert_eq!(&words[..3], &["I", "am", "here"]);
    let w = words[3];
    assert_eq!(w.len(), "scrambled".len());
    assert!(w.starts_with('s') && w.ends_with('d'));
    let mut got: Vec<char> = w.chars().collect();
    let mut want: Vec<char> = "scrambled".chars().collect();
    got.sort();
    want.sort();
    assert_eq!(got, want);
}

#[test]
fn periodic_table_numbers_follow_word_order() {
    let table = generate_periodic_table();
    assert_eq!(table.len(), 20);
    assert_eq!(table[0], ("H".to_string(), 1));
    assert_eq!(table[19], ("Ca".to_string(), 20));
}
