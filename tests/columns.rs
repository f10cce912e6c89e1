use natural_lang::columns::{
    get_split_line_count, join_lines, merge, split_part_names, trim_mut, FileExtractor,
};

/// The maximum-temperature records, one tab-separated line each.
const HIGHTEMP: &str = "高知県\t江川崎\t41\t2013-08-12\n\
埼玉県\t熊谷\t40.9\t2007-08-16\n\
岐阜県\t多治見\t40.9\t2007-08-16\n\
山形県\t山形\t40.8\t1933-07-25\n\
山梨県\t甲府\t40.7\t2013-08-10\n\
和歌山県\tかつらぎ\t40.6\t1994-08-08\n\
静岡県\t天竜\t40.6\t1994-08-04\n\
山梨県\t勝沼\t40.5\t2013-08-10\n\
埼玉県\t越谷\t40.4\t2007-08-16\n\
群馬県\t館林\t40.3\t2007-08-16\n\
群馬県\t上里見\t40.3\t1998-07-04\n\
愛知県\t愛西\t40.3\t1994-08-05\n\
千葉県\t牛久\t40.2\t2004-07-20\n\
静岡県\t佐久間\t40.2\t2001-07-24\n\
愛媛県\t宇和島\t40.2\t1927-07-22\n\
山形県\t酒田\t40.1\t1978-08-03\n\
岐阜県\t美濃\t40\t2007-08-16\n\
群馬県\t前橋\t40\t2001-07-24\n\
千葉県\t茂原\t39.9\t2013-08-11\n\
埼玉県\t鳩山\t39.9\t1997-07-05\n\
大阪府\t豊中\t39.9\t1994-08-08\n\
山梨県\t大月\t39.9\t1990-07-19\n\
山形県\t鶴岡\t39.9\t1978-08-03\n\
愛知県\t名古屋\t39.9\t1942-08-02\n";

fn prefectures() -> Vec<String> {
    vec![
        "高知県",
        "埼玉県",
        "岐阜県",
        "山形県",
        "山梨県",
        "和歌山県",
        "静岡県",
        "山梨県",
        "埼玉県",
        "群馬県",
        "群馬県",
        "愛知県",
        "千葉県",
        "静岡県",
        "愛媛県",
        "山形県",
        "岐阜県",
        "群馬県",
        "千葉県",
        "埼玉県",
        "大阪府",
        "山梨県",
        "山形県",
        "愛知県",
    ]
    .into_iter()
    .map(|s: &str| s.to_string())
    .collect()
}

fn regions() -> Vec<String> {
    vec![
        "江川崎",
        "熊谷",
        "多治見",
        "山形",
        "甲府",
        "かつらぎ",
        "天竜",
        "勝沼",
        "越谷",
        "館林",
        "上里見",
        "愛西",
        "牛久",
        "佐久間",
        "宇和島",
        "酒田",
        "美濃",
        "前橋",
        "茂原",
        "鳩山",
        "豊中",
        "大月",
        "鶴岡",
        "名古屋",
    ]
    .into_iter()
    .map(|s: &str| s.to_string())
    .collect()
}

fn lines_of(text: &str) -> Vec<String> {
    text.lines().map(|s| s.to_string()).collect()
}

#[test]
fn ch02_test_read_lines() {
    let fxt = FileExtractor::new(HIGHTEMP);
    let res = fxt.read_lines();
    assert_eq!(res.iter().next().unwrap(), "高知県\t江川崎\t41\t2013-08-12");
}

#[test]
fn test_ch02_10_count_lines() {
    let fxt = FileExtractor::new(HIGHTEMP);
    assert_eq!(fxt.count_lines(), 24);
}

#[test]
fn test_ch02_11_replace_tab_to_space() {
    let fxt = FileExtractor::new(HIGHTEMP);
    let res = fxt.replace_tab_to_space();
    assert_eq!(res.lines().next().unwrap(), "高知県 江川崎 41 2013-08-12");
    assert_eq!(res, HIGHTEMP.replace('\t', " "));
}

#[test]
fn test_ch02_12_helper_extract_row() {
    let fxt = FileExtractor::new(HIGHTEMP);
    assert_eq!(prefectures(), fxt.extract_row(0).unwrap());
    assert_eq!(regions(), fxt.extract_row(1).unwrap());
}

#[test]
fn ch02_test_merge() {
    let fxt = FileExtractor::new(HIGHTEMP);
    let lines1 = fxt.extract_row(0).unwrap();
    let lines2 = fxt.extract_row(1).unwrap();
    let pasted = prefectures()
        .iter()
        .zip(regions().iter())
        .map(|(p, r)| format!("{}\t{}", p, r))
        .collect::<Vec<_>>()
        .join("\n");
    assert_eq!(FileExtractor::merge(&lines1, &lines2), pasted);
    assert_eq!(FileExtractor::merge(&lines1, &lines2).lines().next().unwrap(), "高知県\t江川崎");
}

#[test]
fn ch02_test_head() {
    let fxt = FileExtractor::new(HIGHTEMP);
    assert_eq!(
        fxt.head(5),
        "高知県\t江川崎\t41\t2013-08-12\n埼玉県\t熊谷\t40.9\t2007-08-16\n\
        岐阜県\t多治見\t40.9\t2007-08-16\n山形県\t山形\t40.8\t1933-07-25\n\
        山梨県\t甲府\t40.7\t2013-08-10"
    );
}

#[test]
fn ch02_test_tail() {
    let fxt = FileExtractor::new(HIGHTEMP);
    assert_eq!(
        fxt.tail(5),
        "埼玉県\t鳩山\t39.9\t1997-07-05\n\
        大阪府\t豊中\t39.9\t1994-08-08\n\
        山梨県\t大月\t39.9\t1990-07-19\n\
        山形県\t鶴岡\t39.9\t1978-08-03\n\
        愛知県\t名古屋\t39.9\t1942-08-02"
    );
}

#[test]
fn ch02_test_split() {
    let fxt = FileExtractor::new(HIGHTEMP);
    let n = 3;
    let vs = fxt.split(n);
    assert_eq!(n, vs.len());
    let all = lines_of(HIGHTEMP);
    let expected: Vec<String> = all.chunks(8).map(|c| c.join("\n")).collect();
    assert_eq!(vs, expected);
}

#[test]
fn ch02_test_uniq_first_row() {
    let fxt = FileExtractor::new(HIGHTEMP);
    assert_eq!(
        fxt.uniq_first_row(),
        "千葉県\n和歌山県\n埼玉県\n大阪府\n山形県\n山梨県\n岐阜県\n愛媛県\n愛知県\n群馬県\n静岡県\n高知県"
    );
}

#[test]
fn test_sort_by_frequent_item() {
    let fxt = FileExtractor::new(HIGHTEMP);
    let res = fxt.sort_by_frequent_item();
    println!("{:?}", res);
    assert_eq!(res.len(), 24);
    let firsts: Vec<&str> = res.iter().map(|l| l.split('\t').next().unwrap()).collect();
    assert_eq!(&firsts[..3], &["埼玉県", "埼玉県", "埼玉県"]);
    assert_eq!(firsts[23], "大阪府");
}

#[test]
fn test() {
    assert_eq!(get_split_line_count(9, 3), 3);
    assert_eq!(get_split_line_count(10, 3), 4);
    assert_eq!(get_split_line_count(11, 3), 4);
}

#[test]
fn test_trim_mut() {
    let mut s = "abc\n\n".to_string();
    trim_mut(&mut s, '\n');
    assert_eq!("abc", s);
}

#[test]
fn as_csv_test_merge() {
    let row1: Vec<String> = vec!["aa", "bb", "cc"].into_iter().map(|s| s.to_string()).collect();
    let row2: Vec<String> = [11, 12, 13].iter().map(|n| n.to_string()).collect();
    let res = merge(&row1, &row2, '\t');
    assert_eq!(res, "aa\t11\nbb\t12\ncc\t13");
}

#[test]
fn lines_drop_carriage_returns_and_final_newline() {
    let fxt = FileExtractor::new("a\r\nb\n\nc\r");
    assert_eq!(fxt.read_lines(), vec!["a", "b", "", "c\r"]);
    assert_eq!(FileExtractor::new("").count_lines(), 0);
    assert_eq!(FileExtractor::new("x\n").count_lines(), 1);
}

#[test]
fn extract_row_reports_missing_column() {
    let fxt = FileExtractor::new("a\tb\nc\n");
    assert_eq!(fxt.extract_row(0), Some(vec!["a".to_string(), "c".to_string()]));
    assert_eq!(fxt.extract_row(1), None);
}

#[test]
fn head_and_tail_beyond_length() {
    let fxt = FileExtractor::new("1\n2\n3\n");
    assert_eq!(fxt.head(10), "1\n2\n3");
    assert_eq!(fxt.tail(10), "1\n2\n3");
    assert_eq!(fxt.head(0), "");
}

#[test]
fn split_of_uneven_lines() {
    let fxt = FileExtractor::new("1\n2\n3\n4\n5\n");
    assert_eq!(fxt.split(2), vec!["1\n2\n3".to_string(), "4\n5".to_string()]);
    assert!(FileExtractor::new("").split(3).is_empty());
}

#[test]
fn trim_mut_both_ends() {
    let mut s = "--a-b--".to_string();
    trim_mut(&mut s, '-');
    assert_eq!(s, "a-b");
    let mut t = "---".to_string();
    trim_mut(&mut t, '-');
    assert_eq!(t, "");
}

#[test]
fn join_lines_puts_newlines_between() {
    let v = vec!["abc".to_string(), "あああ".to_string(), "bcd".to_string()];
    assert_eq!(join_lines(&v), "abc\nあああ\nbcd");
}

#[test]
fn split_parts_are_named_aa_ab_ac() {
    assert_eq!(
        split_part_names("split_", 3),
        vec!["split_aa".to_string(), "split_ab".to_string(), "split_ac".to_string()]
    );
    assert_eq!(split_part_names("x", 25)[24], "xay");
    assert!(split_part_names("x", 0).is_empty());
}

#[test]
fn sort_by_frequency_keeps_every_line() {
    let fxt = FileExtractor::new("b\t1\na\t2\nb\t3\nc\t4\na\t5\nb\t6\n");
    assert_eq!(
        fxt.sort_by_frequent_item(),
        vec!["b\t1", "b\t3", "b\t6", "a\t2", "a\t5", "c\t4"]
    );
    let mut sorted = FileExtractor::new(HIGHTEMP).sort_by_frequent_item();
    let mut lines = lines_of(HIGHTEMP);
    sorted.sort();
    lines.sort();
    assert_eq!(sorted, lines);
}

#[test]
fn uniq_first_row_is_ascending_and_distinct() {
    let fxt = FileExtractor::new("b\t1\na\t2\nb\t3\n\t4\n");
    assert_eq!(fxt.uniq_first_row(), "\na\nb");
}
