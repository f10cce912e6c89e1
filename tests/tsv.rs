use natural_lang::tsv::{column_of_records, CSVExtractor};

/// The maximum-temperature records, one tab-separated line each.
const HIGHTEMP: &str = "高知県\t江川崎\t41\t2013-08-12\n\
埼玉県\t熊谷\t40.9\t2007-08-16\n\
岐阜県\t多治見\t40.9\t2007-08-16\n\
山形県\t山形\t40.8\t1933-07-25\n\
山梨県\t甲府\t40.7\t2013-08-10\n\
和歌山県\tかつらぎ\t40.6\t1994-08-08\n\
静岡県\t天竜\t40.6\t1994-08-04\n\
山梨県\t勝沼\t40.5\t2013-08-10\n\
埼玉県\t越谷\t40.4\t2007-08-16\n\
群馬県\t館林\t40.3\t2007-08-16\n\
群馬県\t上里見\t40.3\t1998-07-04\n\
愛知県\t愛西\t40.3\t1994-08-05\n\
千葉県\t牛久\t40.2\t2004-07-20\n\
静岡県\t佐久間\t40.2\t2001-07-24\n\
愛媛県\t宇和島\t40.2\t1927-07-22\n\
山形県\t酒田\t40.1\t1978-08-03\n\
岐阜県\t美濃\t40\t2007-08-16\n\
群馬県\t前橋\t40\t2001-07-24\n\
千葉県\t茂原\t39.9\t2013-08-11\n\
埼玉県\t鳩山\t39.9\t1997-07-05\n\
大阪府\t豊中\t39.9\t1994-08-08\n\
山梨県\t大月\t39.9\t1990-07-19\n\
山形県\t鶴岡\t39.9\t1978-08-03\n\
愛知県\t名古屋\t39.9\t1942-08-02\n";

fn prefectures() -> Vec<String> {
    vec![
        "高知県",
        "埼玉県",
        "岐阜県",
        "山形県",
        "山梨県",
        "和歌山県",
        "静岡県",
        "山梨県",
        "埼玉県",
        "群馬県",
        "群馬県",
        "愛知県",
        "千葉県",
        "静岡県",
        "愛媛県",
        "山形県",
        "岐阜県",
        "群馬県",
        "千葉県",
        "埼玉県",
        "大阪府",
        "山梨県",
        "山形県",
        "愛知県",
    ]
    .into_iter()
    .map(|s: &str| s.to_string())
    .collect()
}

fn places() -> Vec<String> {
    vec![
        "江川崎",
        "熊谷",
        "多治見",
        "山形",
        "甲府",
        "かつらぎ",
        "天竜",
        "勝沼",
        "越谷",
        "館林",
        "上里見",
        "愛西",
        "牛久",
        "佐久間",
        "宇和島",
        "酒田",
        "美濃",
        "前橋",
        "茂原",
        "鳩山",
        "豊中",
        "大月",
        "鶴岡",
        "名古屋",
    ]
    .into_iter()
    .map(|s: &str| s.to_string())
    .collect()
}

#[test]
fn test_new() {
    let _csvor = CSVExtractor::new(HIGHTEMP);
}

#[test]
fn test_extract_first_second_row() {
    let csvor = CSVExtractor::new(HIGHTEMP);
    let (prefs, regions) = csvor.extract_first_second_row();
    assert_eq!(prefectures().join("\n"), prefs);
    assert_eq!(places().join("\n"), regions);
}

#[test]
fn as_csv_test_uniq_first_row() {
    let csvor = CSVExtractor::new(HIGHTEMP);
    assert_eq!(
        csvor.uniq_first_row(),
        "千葉県\n和歌山県\n埼玉県\n大阪府\n山形県\n山梨県\n岐阜県\n愛媛県\n愛知県\n群馬県\n静岡県\n高知県"
    );
}

#[test]
fn as_csv_test_replace_tab_to_space() {
    let csvor = CSVExtractor::new(HIGHTEMP);
    assert_eq!(csvor.replace_tab_to_space(), HIGHTEMP.replace('\t', " ").trim());
}

#[test]
fn column_of_records_skips_short_rows() {
    let rows = vec![
        vec!["a".to_string(), "b".to_string(), "1".to_string(), "d".to_string()],
        vec!["x".to_string()],
        vec!["c".to_string(), "e".to_string(), "2".to_string(), "f".to_string()],
    ];
    assert_eq!(column_of_records(&rows, 1), vec!["b".to_string(), "e".to_string()]);
}

#[test]
fn malformed_rows_are_skipped() {
    // the second row has a different number of fields than the first
    let csvor = CSVExtractor::new("a\tb\tc\td\nx\ty\ne\tf\tg\th\n");
    assert_eq!(csvor.extract_first_second_row(), ("a\ne".to_string(), "b\nf".to_string()));
}
