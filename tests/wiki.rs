use natural_lang::corpus::{find_article, Article, JsonExtractor};
use natural_lang::template::{
    extract_template_block, extract_template_fields, extract_template_fields_clean,
    extract_template_fields_delinked, shape_template_fields,
};
use natural_lang::wiki::{extract_category_lines, extract_category_names, extract_media_files, extract_sections, Section};
use natural_lang::ExtractError;

/// An excerpt of the article on the United Kingdom.
const UK: &str = "{{redirect|UK}}
{{基本情報 国
|略名 = イギリス
|日本語国名 = グレートブリテン及び北アイルランド連合王国
|公式国名 = {{lang|en|United Kingdom of Great Britain and Northern Ireland}}<ref>英語以外での正式国名:<br/>{{lang|gd|An Rìoghachd Aonaichte na Breatainn Mhòr agus Eirinn mu Thuath}}</ref>
|国旗画像 = Flag of the United Kingdom.svg
|国章画像 = [[ファイル:Royal Coat of Arms of the United Kingdom.svg|85px|イギリスの国章]]
|国章リンク = （[[イギリスの国章|国章]]）
|標語 = {{lang|fr|Dieu et mon droit}}<br/>（[[フランス語]]:神と私の権利）
|国歌 = [[女王陛下万歳|神よ女王陛下を守り給え]]
|確立形態1 = [[イングランド王国]]／[[スコットランド王国]]<br />（両国とも[[連合法 (1707年)|1707年連合法]]まで）
|確立形態4 = 現在の国号「'''グレートブリテン及び北アイルランド連合王国'''」に変更
|GDP値MER = 2兆4337億<ref name=\"imf-statistics-gdp\" />
|注記 = <references />
}}
'''グレートブリテン及び北アイルランド連合王国'''（グレートブリテンおよびきたアイルランドれんごうおうこく）は、ヨーロッパの西岸に位置する立憲君主制国家。

==国名==
正式名称は英語で'''{{lang|en|United Kingdom of Great Britain and Northern Ireland}}'''。

==歴史==
[[ファイル:Battle of Waterloo 1815.PNG|thumb|left|[[ワーテルローの戦い]]]]
[[ファイル:The British Empire.png|thumb|left|イギリス帝国の版図]]

==地理==
[[ファイル:Uk topo en.jpg|thumb|200px|イギリスの地形図]]
[[ファイル:BenNevis2005.jpg|thumb|ベン・ネビス山]]

===気候===
温帯に属し、北大西洋海流の影響を受ける。

==政治==
立憲君主制。

[[Category:イギリス|*]]
[[Category:英連邦王国|*]]
[[Category:G8加盟国]]
[[Category:欧州連合加盟国]]
[[Category:海洋国家]]
[[Category:君主国]]
[[Category:島国|くれいとふりてん]]
[[Category:1801年に設立された州・地域]]
";

fn corpus() -> JsonExtractor {
    JsonExtractor::new(vec![
        Article { title: "日本".to_string(), text: "==国号==\n".to_string() },
        Article { title: "イギリス".to_string(), text: UK.to_string() },
    ])
}

#[test]
fn test_search() {
    let ext = corpus();
    let key = "イギリス";
    let res = ext.search(key);
    assert_eq!(res.unwrap().title, key);
}

#[test]
fn test_extract_text() {
    let ext = corpus();
    let key = "イギリス";
    let res = ext.extract_text(key).unwrap();
    assert_eq!(res.lines().next().unwrap(), "{{redirect|UK}}");
}

#[test]
fn test_extract_categories() {
    let ext = corpus();
    let key = "イギリス";
    let res = ext.extract_categories(key).unwrap();
    assert_eq!(
        res,
        vec![
            "[[Category:イギリス|*]]",
            "[[Category:英連邦王国|*]]",
            "[[Category:G8加盟国]]",
            "[[Category:欧州連合加盟国]]",
            "[[Category:海洋国家]]",
            "[[Category:君主国]]",
            "[[Category:島国|くれいとふりてん]]",
            "[[Category:1801年に設立された州・地域]]"
        ]
    )
}

#[test]
fn test_extract_category_names() {
    let ext = corpus();
    let key = "イギリス";
    let res = ext.extract_category_names(key).unwrap();
    assert_eq!(
        res,
        vec![
            "イギリス|*",
            "英連邦王国|*",
            "G8加盟国",
            "欧州連合加盟国",
            "海洋国家",
            "君主国",
            "島国|くれいとふりてん",
            "1801年に設立された州・地域"
        ]
    )
}

#[test]
fn test_extract_section() {
    let ext = corpus();
    let key = "イギリス";
    let res = ext.extract_section(key).unwrap();

    res.iter().for_each(|section| assert!(section.level >= 1));

    assert_eq!(
        res.into_iter().take(5).collect::<Vec<_>>(),
        vec![
            Section { name: "国名".into(), level: 1 },
            Section { name: "歴史".into(), level: 1 },
            Section { name: "地理".into(), level: 1 },
            Section { name: "気候".into(), level: 2 },
            Section { name: "政治".into(), level: 1 },
        ]
    )
}

#[test]
fn test_extract_media_file() {
    let ext = corpus();
    let key = "イギリス";
    let res = ext.extract_media_file(key).unwrap();
    assert_eq!(
        res.into_iter().take(5).collect::<Vec<_>>(),
        vec![
            "Royal Coat of Arms of the United Kingdom.svg",
            "Battle of Waterloo 1815.PNG",
            "The British Empire.png",
            "Uk topo en.jpg",
            "BenNevis2005.jpg",
        ]
    );
}

#[test]
fn test_extract_template_map() {
    let ext = corpus();
    let key = "イギリス";
    let res = ext.extract_template_map(key).unwrap();

    for k in res.keys() {
        println!("{:?}", (k.clone(), res.get(&k)));
    }

    assert_eq!(
        res.get("標語").unwrap(),
        "{{lang|fr|Dieu et mon droit}}<br/>（[[フランス語]]:神と私の権利）"
    );
    assert_eq!(
        res.get("公式国名").unwrap(),
        "{{lang|en|United Kingdom of Great Britain and Northern Ireland}}"
    );
    assert_eq!(res.get("GDP値MER").unwrap(), "2兆4337億");
}

#[test]
fn test_extract_template_map_removed_em() {
    let ext = corpus();
    let key = "イギリス";
    let res = ext.extract_template_map_removed_em(key).unwrap();
    assert_eq!(
        res.get("確立形態4").unwrap(),
        "現在の国号「グレートブリテン及び北アイルランド連合王国」に変更"
    );
}

#[test]
fn test_extract_template_map_removed_internal() {
    let ext = corpus();
    let key = "イギリス";
    let res = ext.extract_template_map_removed_internal(key).unwrap();

    assert_eq!(
        res.get("標語").unwrap(),
        "{{lang|fr|Dieu et mon droit}}<br/>（フランス語:神と私の権利）"
    );
    assert_eq!(res.get("国歌").unwrap(), "神よ女王陛下を守り給え");
    assert_eq!(
        res.get("確立形態1").unwrap(),
        "イングランド王国／スコットランド王国<br />（両国とも1707年連合法まで）"
    )
}

#[test]
fn test_shape_template() {
    let ext = corpus();
    let key = "イギリス";
    let res = ext.shape_template(key).unwrap();

    assert_eq!(res.get("標語").unwrap(), "Dieu et mon droit（フランス語:神と私の権利）");
    assert_eq!(res.get("国歌").unwrap(), "神よ女王陛下を守り給え");
    assert_eq!(
        res.get("確立形態1").unwrap(),
        "イングランド王国／スコットランド王国（両国とも1707年連合法まで）"
    );
}

#[test]
fn text_without_category_marker_has_no_categories() {
    let text = "{{redirect|UK}}\n[[Categor:x]]\n[[category:y]]\n";
    assert!(extract_category_lines(text).is_empty());
    assert!(extract_category_names(text).is_empty());
    assert!(extract_category_lines("").is_empty());
}

#[test]
fn category_lines_of_literal_text() {
    let text = "{{redirect|UK}}\n[[Category:イギリス|*]]\n[[Category:英連邦王国|*]]\n";
    assert_eq!(
        extract_category_lines(text),
        vec!["[[Category:イギリス|*]]", "[[Category:英連邦王国|*]]"]
    );
}

#[test]
fn category_names_anywhere_in_a_line() {
    let text = "see [[Category:A]] and [[Category:B]]\n[[Category:C";
    assert_eq!(extract_category_names(text), vec!["A]] and [[Category:B"]);
    assert_eq!(extract_category_names("x [[Category:島国|くれ]]"), vec!["島国|くれ"]);
}

#[test]
fn sections_of_literal_text() {
    let text = "==国名==\n...\n===気候===\n";
    assert_eq!(
        extract_sections(text),
        vec![
            Section { name: "国名".to_string(), level: 1 },
            Section { name: "気候".to_string(), level: 2 },
        ]
    );
}

#[test]
fn mismatched_delimiters_give_no_section() {
    assert!(extract_sections("==Foo===\n").is_empty());
    assert_eq!(
        extract_sections("==Foo===\n==Bar==\n"),
        vec![Section { name: "Bar".to_string(), level: 1 }]
    );
}

#[test]
fn media_link_without_pipe_is_skipped() {
    assert!(extract_media_files("[[File:Foo.png]]").is_empty());
    assert!(extract_media_files("[[File:Foo.png]]\n|x").is_empty());
    assert_eq!(extract_media_files("[[File:Foo.png|thumb]]"), vec!["Foo.png"]);
    assert_eq!(extract_media_files("[[ファイル:猫.jpg|thumb]]"), vec!["猫.jpg"]);
}

#[test]
fn shaped_value_of_motto() {
    let text = "{{基本情報 国\n|標語 = {{lang|fr|Dieu et mon droit}}<br/>（[[フランス語]]:神と私の権利）\n|注記 = x\n}}\n";
    let res = shape_template_fields(text).unwrap();
    assert_eq!(res.get("標語").unwrap(), "Dieu et mon droit（フランス語:神と私の権利）");
    assert_eq!(res.len(), 1);
}

#[test]
fn shape_twice_gives_the_same_map() {
    let first = shape_template_fields(UK).unwrap();
    let second = shape_template_fields(UK).unwrap();
    assert_eq!(first.len(), second.len());
    for k in first.keys() {
        assert_eq!(first.get(&k), second.get(&k));
    }
}

#[test]
fn field_names_are_trimmed() {
    let text = "{{基本情報 国\n|  名前 \t= 値 \n| 別 = x<ref>y</ref>\n}}\n";
    let res = extract_template_fields(text).unwrap();
    for k in res.keys() {
        assert_eq!(k.trim(), k);
    }
    assert_eq!(res.get("名前").unwrap(), "値");
    assert_eq!(res.get("別").unwrap(), "x");
}

#[test]
fn later_field_wins() {
    let text = "{{基本情報 国\n|a = 1\n|a = 2\n|z = 0\n}}\n";
    let res = extract_template_fields(text).unwrap();
    assert_eq!(res.len(), 1);
    assert_eq!(res.get("a").unwrap(), "2");
}

#[test]
fn last_block_line_needs_a_terminator() {
    // the block is joined with newlines, so its last line has none after it
    let text = "{{基本情報 国\n|a = 1\n|b = 2\n}}\n";
    let res = extract_template_fields(text).unwrap();
    assert_eq!(res.get("a").unwrap(), "1");
    assert_eq!(res.get("b"), None);
}

#[test]
fn emphasis_removal_order() {
    let text = "{{基本情報 国\n|a = '''b''' ''i'' ''''x\n|z = 0\n}}\n";
    let res = extract_template_fields_clean(text).unwrap();
    assert_eq!(res.get("a").unwrap(), "b i 'x");
}

#[test]
fn links_resolve_to_last_segment() {
    let text = "{{基本情報 国\n|a = [[x|y|z]] [[w]] [[[q]]\n|z = 0\n}}\n";
    let res = extract_template_fields_delinked(text).unwrap();
    assert_eq!(res.get("a").unwrap(), "z w [q");
}

#[test]
fn line_breaks_all_removed() {
    let text = "{{基本情報 国\n|a = 1<br>2<br/>3<br />4<BR>\n|z = 0\n}}\n";
    let res = shape_template_fields(text).unwrap();
    assert_eq!(res.get("a").unwrap(), "1234<BR>");
}

#[test]
fn template_block_lines() {
    let text = "intro\n{{基本情報 国\n|a = 1\n}}\n|b = 2\n";
    assert_eq!(extract_template_block(text).unwrap(), "|a = 1");
    assert_eq!(extract_template_block("{{基本情報\nx\ny").unwrap(), "x\ny");
}

#[test]
fn missing_infobox_is_an_error() {
    let text = "==見出し==\n本文\n";
    assert_eq!(extract_template_block(text), Err(ExtractError::MalformedTemplateBlock));
    assert!(matches!(extract_template_fields(text), Err(ExtractError::MalformedTemplateBlock)));
    assert!(matches!(shape_template_fields(text), Err(ExtractError::MalformedTemplateBlock)));
    assert!(matches!(corpus().shape_template("日本"), Err(ExtractError::MalformedTemplateBlock)));
}

#[test]
fn unknown_title_is_not_found() {
    let ext = corpus();
    assert_eq!(ext.search("フランス"), None);
    assert_eq!(ext.extract_text("フランス"), Err(ExtractError::NotFound));
    assert!(matches!(ext.shape_template("フランス"), Err(ExtractError::NotFound)));
    let arts = vec![Article { title: "空".to_string(), text: String::new() }];
    assert_eq!(find_article(&arts, "空").unwrap().text, "");
    assert_eq!(find_article(&arts, "x"), None);
}

#[test]
fn first_article_of_a_title_wins() {
    let arts = vec![
        Article { title: "t".to_string(), text: "one".to_string() },
        Article { title: "t".to_string(), text: "two".to_string() },
    ];
    assert_eq!(find_article(&arts, "t").unwrap().text, "one");
}

#[test]
fn run_of_four_equals_is_an_empty_heading() {
    assert_eq!(extract_sections("====\n"), vec![Section { name: String::new(), level: 1 }]);
    assert!(extract_sections("=====\n").is_empty());
    assert!(extract_sections("==\n").is_empty());
    assert!(extract_sections("==a\n==\n").is_empty());
}
