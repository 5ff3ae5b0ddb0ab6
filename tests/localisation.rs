use clausewitz_script_parser::localisation::{
    normalize_localisation_value, parse_str, serialize_ast, File, Header, Item, LocError,
    LocExpected, Pair,
};

#[test]
fn localisation_value_is_escaped_and_quoted() {
    assert_eq!(normalize_localisation_value("a \"b\"\n"), "\"a \\\"b\\\"\\n\"");
    assert_eq!(normalize_localisation_value(""), "\"\"");
}

#[test]
fn localisation_file_is_written() {
    let file = File {
        header: Header { lang: "l_simp_chinese".to_string() },
        items: vec![
            Item::Comment("# names".to_string()),
            Item::Pair(Pair {
                key: "TST_name".to_string(),
                version: Some(0),
                value: "测试 \"国家\"".to_string(),
            }),
            Item::Comment("plain note".to_string()),
            Item::Pair(Pair { key: "TST_desc".to_string(), version: None, value: "x".to_string() }),
            Item::Pair(Pair { key: "TST_v".to_string(), version: Some(12), value: "y".to_string() }),
        ],
    };
    assert_eq!(
        serialize_ast(&file),
        "\u{feff}l_simp_chinese:\n # names\n TST_name:0 \"测试 \\\"国家\\\"\"\n # plain note\n TST_desc: \"x\"\n TST_v:12 \"y\"\n"
    );
}

#[test]
fn localisation_text_is_read() {
    let text = "\u{feff}l_simp_chinese:\n # names\n TST_name:0 \"测试 \\\"国家\\\"\"\n TST_desc: \"x\" # trailing\n";
    let file = parse_str(text).unwrap();
    assert_eq!(file.header.lang, "l_simp_chinese");
    assert_eq!(
        file.items,
        vec![
            Item::Comment("# names".to_string()),
            Item::Pair(Pair {
                key: "TST_name".to_string(),
                version: Some(0),
                value: "测试 \"国家\"".to_string(),
            }),
            Item::Pair(Pair { key: "TST_desc".to_string(), version: None, value: "x".to_string() }),
            Item::Comment("# trailing".to_string()),
        ]
    );
    assert_eq!(
        serialize_ast(&file),
        "\u{feff}l_simp_chinese:\n # names\n TST_name:0 \"测试 \\\"国家\\\"\"\n TST_desc: \"x\"\n # trailing\n"
    );
}

#[test]
fn localisation_value_runs_to_last_quote() {
    let file = parse_str("l_english:\n K:1 \"say \"hi\"\"\n").unwrap();
    assert_eq!(
        file.items,
        vec![Item::Pair(Pair {
            key: "K".to_string(),
            version: Some(1),
            value: "say \"hi\"".to_string()
        })]
    );
}

#[test]
fn localisation_errors() {
    assert_eq!(
        parse_str("# c\nk:0 \"v\"").unwrap_err(),
        LocError { position: 0, expected: LocExpected::Header }
    );
    assert_eq!(
        parse_str("l_english:\n key \"v\"\n").unwrap_err(),
        LocError { position: 15, expected: LocExpected::Colon }
    );
    assert_eq!(
        parse_str("l_english:\n k:0 \"v\n").unwrap_err(),
        LocError { position: 16, expected: LocExpected::ClosingQuote }
    );
    assert_eq!(
        parse_str("l_english:\n k:0 v\n").unwrap_err(),
        LocError { position: 16, expected: LocExpected::Quote }
    );
    assert_eq!(
        parse_str("l_english:\n k:4294967296 \"v\"\n").unwrap_err(),
        LocError { position: 14, expected: LocExpected::VersionInRange }
    );
    let file = parse_str("l_english:\n k:4294967295 \"v\"\n").unwrap();
    assert_eq!(
        file.items,
        vec![Item::Pair(Pair { key: "k".to_string(), version: Some(4294967295), value: "v".to_string() })]
    );
}
