use clausewitz_script_parser::parser::{parse_block, parse_value};
use clausewitz_script_parser::words::parse_date_str;
use clausewitz_script_parser::{
    escape_string, parse_str, parse_str_with, serialize_ast, serialize_ast_with, unescape_string,
    ArrayItem, Date, Expected, IndentStyle, Item, Key, Number, Operator, ParseError, ParseOptions,
    Value,
};

fn num(whole: &str, fraction: &str, negative: bool) -> Number {
    Number { negative, whole: whole.to_string(), fraction: fraction.to_string() }
}

fn round(text: &str) -> String {
    serialize_ast(&parse_str(text).unwrap())
}

fn single_value(text: &str) -> Value {
    let mut items = parse_str(text).unwrap();
    assert_eq!(items.len(), 1);
    match items.remove(0) {
        Item::Pair(p) => p.value,
        Item::Value(v) => v,
        Item::Comment(_) => panic!("comment"),
    }
}

#[test]
fn example_pair_with_array() {
    let items = parse_str("x = { 1 2 3 }").unwrap();
    assert_eq!(items.len(), 1);
    match &items[0] {
        Item::Pair(p) => {
            assert_eq!(p.key, Key::Identifier("x".to_string()));
            assert_eq!(p.op, Operator::Eq);
            match &p.value {
                Value::Array(a) => {
                    assert_eq!(a.values.len(), 3);
                    assert_eq!(a.values[0], ArrayItem::Value(Value::Number(num("1", "", false))));
                    assert_eq!(a.values[1], ArrayItem::Value(Value::Number(num("2", "", false))));
                    assert_eq!(a.values[2], ArrayItem::Value(Value::Number(num("3", "", false))));
                }
                _ => panic!("expected an array"),
            }
        }
        _ => panic!("expected a pair"),
    }
    assert_eq!(serialize_ast(&items), "x = {\n\t1 2 3\n}\n");
}

#[test]
fn classification_array_of_atoms() {
    match single_value("{a b c}") {
        Value::Array(a) => {
            assert_eq!(a.values.len(), 3);
            assert_eq!(a.values[0], ArrayItem::Value(Value::Identifier("a".to_string())));
        }
        _ => panic!("expected an array"),
    }
}

#[test]
fn classification_block_with_pair() {
    match single_value("{k = v}") {
        Value::Block(b) => {
            assert_eq!(b.items.len(), 1);
            assert!(matches!(&b.items[0], Item::Pair(_)));
        }
        _ => panic!("expected a block"),
    }
}

#[test]
fn classification_mixed_is_block() {
    match single_value("{a b k = v}") {
        Value::Block(b) => {
            assert_eq!(b.items.len(), 3);
            assert!(matches!(&b.items[0], Item::Value(_)));
            assert!(matches!(&b.items[1], Item::Value(_)));
            assert!(matches!(&b.items[2], Item::Pair(_)));
        }
        _ => panic!("expected a block"),
    }
}

#[test]
fn classification_empty_group_is_array() {
    match single_value("x = {}") {
        Value::Array(a) => assert!(a.values.is_empty()),
        _ => panic!("expected an array"),
    }
    assert_eq!(round("x = {}"), "x = {\n}\n");
}

#[test]
fn comment_in_array_by_option() {
    let text = "x = { a # note\n b }";
    match single_value(text) {
        Value::Array(a) => {
            assert_eq!(a.values.len(), 3);
            assert_eq!(a.values[1], ArrayItem::Comment("# note".to_string()));
        }
        _ => panic!("expected an array"),
    }
    let opts = ParseOptions { max_depth: 10, comments_force_block: true };
    let items = parse_str_with(text, &opts).unwrap();
    match &items[0] {
        Item::Pair(p) => assert!(matches!(&p.value, Value::Block(_))),
        _ => panic!("expected a pair"),
    }
    assert_eq!(round(text), "x = {\n\ta\n\t# note\n\tb\n}\n");
}

#[test]
fn quoted_date_without_hour() {
    let v = single_value("d = \"1936.1.1\"");
    assert_eq!(v, Value::Date(Date { y: 1936, m: 1, d: 1, h: None }));
    assert_eq!(round("d = \"1936.1.1\""), "d = 1936.1.1\n");
}

#[test]
fn quoted_date_with_hour() {
    let v = single_value("d = \"1936.1.1.6\"");
    assert_eq!(v, Value::Date(Date { y: 1936, m: 1, d: 1, h: Some(6) }));
    assert_eq!(round("d = \"1936.1.1.6\""), "d = \"1936.1.1.6\"\n");
}

#[test]
fn quoted_non_dates_stay_strings() {
    assert_eq!(single_value("d = \"36.1.1\""), Value::String("36.1.1".to_string()));
    assert_eq!(single_value("d = \"1936.1\""), Value::String("1936.1".to_string()));
    assert_eq!(single_value("d = \"1936.1.123\""), Value::String("1936.1.123".to_string()));
    assert_eq!(single_value("d = \"1936.1.1.1.1\""), Value::String("1936.1.1.1.1".to_string()));
}

#[test]
fn bare_dates_and_date_keys() {
    assert_eq!(single_value("d = 1.2.3"), Value::Date(Date { y: 1, m: 2, d: 3, h: None }));
    let items = parse_str("1936.1.1 = { a = b }").unwrap();
    match &items[0] {
        Item::Pair(p) => assert_eq!(p.key, Key::Date(Date { y: 1936, m: 1, d: 1, h: None })),
        _ => panic!("expected a pair"),
    }
    assert_eq!(parse_date_str("1936.12.31.23"), Some(Date { y: 1936, m: 12, d: 31, h: Some(23) }));
    assert_eq!(parse_date_str("1936.123.1"), Some(Date { y: 1936, m: 123, d: 1, h: None }));
    assert_eq!(parse_date_str("1936.001.01"), Some(Date { y: 1936, m: 1, d: 1, h: None }));
    assert_eq!(parse_date_str("1936.256.1"), None);
    assert_eq!(parse_date_str("4294967296.1.1"), None);
    assert_eq!(parse_date_str("4294967295.1.1.255"), Some(Date { y: 4294967295, m: 1, d: 1, h: Some(255) }));
    assert_eq!(parse_date_str("1936..1"), None);
    assert_eq!(parse_date_str("abc"), None);
}

#[test]
fn escape_round_trip() {
    let s = "a\\b\"c\td\ne\rf";
    let e = escape_string(s);
    assert_eq!(e, "a\\\\b\\\"c\\td\\ne\\rf");
    assert_eq!(unescape_string(&e), s);
}

#[test]
fn escape_plain_text_unchanged() {
    assert_eq!(escape_string("plain text"), "plain text");
    assert_eq!(unescape_string("plain text"), "plain text");
}

#[test]
fn unescape_keeps_unknown_escapes() {
    assert_eq!(unescape_string("a\\qb"), "a\\qb");
    assert_eq!(unescape_string("end\\"), "end\\");
    assert_eq!(unescape_string("x\\ny"), "x\ny");
}

#[test]
fn string_values_are_unescaped_and_reescaped() {
    assert_eq!(single_value("s = \"say \\\"hi\\\"\""), Value::String("say \"hi\"".to_string()));
    assert_eq!(round("s = \"say \\\"hi\\\"\""), "s = \"say \\\"hi\\\"\"\n");
}

#[test]
fn array_wraps_past_width() {
    let tokens: Vec<String> = (0..30).map(|_| "abcd".to_string()).collect();
    let text = format!("x = {{ {} }}", tokens.join(" "));
    let first = vec!["abcd"; 24].join(" ");
    let second = vec!["abcd"; 6].join(" ");
    assert_eq!(first.len(), 119);
    assert_eq!(round(&text), format!("x = {{\n\t{}\n\t{}\n}}\n", first, second));
}

#[test]
fn array_line_may_reach_width() {
    let mut tokens = vec!["abcd"; 23];
    tokens.push("abcdef");
    let line = tokens.join(" ");
    assert_eq!(line.len(), 121);
    tokens.pop();
    tokens.push("abcde");
    let line = tokens.join(" ");
    assert_eq!(line.len(), 120);
    assert_eq!(round(&format!("x = {{ {} }}", line)), format!("x = {{\n\t{}\n}}\n", line));
}

#[test]
fn long_token_stands_alone() {
    let long = "a".repeat(130);
    let text = format!("x = {{ b {} c }}", long);
    assert_eq!(round(&text), format!("x = {{\n\tb\n\t{}\n\tc\n}}\n", long));
}

#[test]
fn nesting_indents_each_level() {
    let text = "a = { b = { c = { 1 2 } } }";
    assert_eq!(round(text), "a = {\n\tb = {\n\t\tc = {\n\t\t\t1 2\n\t\t}\n\t}\n}\n");
    let items = parse_str(text).unwrap();
    assert_eq!(
        serialize_ast_with(&items, IndentStyle::FourSpaces),
        "a = {\n    b = {\n        c = {\n            1 2\n        }\n    }\n}\n"
    );
}

#[test]
fn comment_between_pairs_on_own_line() {
    let text = "x = { a = 1 # note\n b = 2 }";
    assert_eq!(round(text), "x = {\n\ta = 1\n\t# note\n\tb = 2\n}\n");
}

#[test]
fn canonical_text_round_trips() {
    let text = "# header\nfocus = {\n\tid = TST_focus\n\tcost = 10\n\tavailable = {\n\t\thas_war = no\n\t\tstability > 0.5\n\t}\n\tlist = {\n\t\tA B C\n\t}\n}\nname = \"Test \\\"x\\\"\"\n";
    assert_eq!(round(text), text);
}

#[test]
fn serializing_twice_is_stable() {
    let text = "a={b=yes c<=3 d>=-1.50 e=\"1936.1.1\" f={1 2 3 # c\n 4}}  g = 007";
    let once = round(text);
    assert_eq!(round(&once), once);
    assert_eq!(once, "a = {\n\tb = yes\n\tc <= 3\n\td >= -1.5\n\te = 1936.1.1\n\tf = {\n\t\t1 2 3\n\t\t# c\n\t\t4\n\t}\n}\ng = 7\n");
}

#[test]
fn numbers_are_held_canonically() {
    assert_eq!(single_value("n = 1.50"), Value::Number(num("1", "5", false)));
    assert_eq!(single_value("n = -007"), Value::Number(num("7", "", true)));
    assert_eq!(single_value("n = 0.0"), Value::Number(num("0", "", false)));
    assert_eq!(single_value("n = 1.2x"), Value::Identifier("1.2x".to_string()));
    assert_eq!(single_value("n = yes"), Value::Boolean(true));
    assert_eq!(single_value("n = no"), Value::Boolean(false));
}

#[test]
fn operators_are_read_and_written() {
    let text = "a = 1\nb < 2\nc > 3\nd <= 4\ne >= 5\n";
    let items = parse_str(text).unwrap();
    let ops: Vec<Operator> = items
        .iter()
        .map(|i| match i {
            Item::Pair(p) => p.op,
            _ => panic!("expected a pair"),
        })
        .collect();
    assert_eq!(ops, vec![Operator::Eq, Operator::Lt, Operator::Gt, Operator::Le, Operator::Ge]);
    assert_eq!(serialize_ast(&items), text);
}

#[test]
fn error_unterminated_string() {
    assert_eq!(
        parse_str("a = \"abc").unwrap_err(),
        ParseError::Syntax { position: 4, expected: Expected::ClosingQuote }
    );
}

#[test]
fn error_unclosed_brace() {
    assert_eq!(
        parse_str("a = { b = c").unwrap_err(),
        ParseError::Syntax { position: 11, expected: Expected::ClosingBrace }
    );
}

#[test]
fn error_stray_closing_brace() {
    assert_eq!(
        parse_str("a = b }").unwrap_err(),
        ParseError::Syntax { position: 6, expected: Expected::ItemOrEnd }
    );
}

#[test]
fn error_missing_value() {
    assert_eq!(
        parse_str("a = ").unwrap_err(),
        ParseError::Syntax { position: 4, expected: Expected::Value }
    );
    assert_eq!(
        parse_str("a = = b").unwrap_err(),
        ParseError::Syntax { position: 4, expected: Expected::Value }
    );
}

#[test]
fn error_too_deep() {
    let opts = ParseOptions { max_depth: 2, comments_force_block: false };
    assert!(parse_str_with("a = { b = { c = d } }", &opts).is_ok());
    assert_eq!(
        parse_str_with("a = { b = { c = { d } } }", &opts).unwrap_err(),
        ParseError::TooDeep { position: 16, limit: 2 }
    );
    let deep = format!("{}{}", "{ ".repeat(1001), "} ".repeat(1001));
    assert!(matches!(parse_str(&deep), Err(ParseError::TooDeep { limit: 1000, .. })));
}

#[test]
fn empty_document() {
    assert_eq!(parse_str("").unwrap().len(), 0);
    assert_eq!(parse_str("  \n\t ").unwrap().len(), 0);
    assert_eq!(serialize_ast(&[]), "");
}

#[test]
fn built_document_reads_back() {
    let items = vec![
        Item::Comment("# built".to_string()),
        Item::Pair(clausewitz_script_parser::Pair {
            key: Key::Identifier("outer".to_string()),
            op: Operator::Eq,
            value: Value::Block(clausewitz_script_parser::Block {
                items: vec![
                    Item::Pair(clausewitz_script_parser::Pair {
                        key: Key::Identifier("name".to_string()),
                        op: Operator::Ge,
                        value: Value::String("a \"b\"\tc".to_string()),
                    }),
                    Item::Pair(clausewitz_script_parser::Pair {
                        key: Key::Identifier("list".to_string()),
                        op: Operator::Eq,
                        value: Value::Array(clausewitz_script_parser::Array {
                            values: vec![
                                ArrayItem::Value(Value::Number(num("12", "25", true))),
                                ArrayItem::Value(Value::Boolean(false)),
                                ArrayItem::Value(Value::Date(Date { y: 1936, m: 1, d: 1, h: None })),
                            ],
                        }),
                    }),
                    Item::Pair(clausewitz_script_parser::Pair {
                        key: Key::Identifier("when".to_string()),
                        op: Operator::Lt,
                        value: Value::Date(Date { y: 1939, m: 9, d: 1, h: Some(5) }),
                    }),
                ],
            }),
        }),
    ];
    for style in [IndentStyle::Tab, IndentStyle::FourSpaces] {
        let text = serialize_ast_with(&items, style);
        let read = parse_str(&text).unwrap();
        assert_eq!(read, items);
        assert_eq!(serialize_ast_with(&read, style), text);
    }
}

#[test]
fn date_key_with_hour_reads_back() {
    let items = parse_str("1.1.1.1 = a").unwrap();
    match &items[0] {
        Item::Pair(p) => assert_eq!(p.key, Key::Date(Date { y: 1, m: 1, d: 1, h: Some(1) })),
        _ => panic!("expected a pair"),
    }
    let text = serialize_ast(&items);
    assert_eq!(text, "\"1.1.1.1\" = a\n");
    let again = parse_str(&text).unwrap();
    assert_eq!(again, items);
    assert_eq!(serialize_ast(&again), text);
    assert!(parse_str("\"abc\" = a").is_err());
}

#[test]
fn bare_dates_drop_leading_zeros() {
    assert_eq!(round("d = 1936.01.02"), "d = 1936.1.2\n");
    assert_eq!(single_value("d = 1936.100.1"), Value::Date(Date { y: 1936, m: 100, d: 1, h: None }));
}

#[test]
fn array_width_counts_utf8_bytes() {
    let tokens = vec!["测试"; 18];
    let text = format!("x = {{ {} }}", tokens.join(" "));
    let first = vec!["测试"; 17].join(" ");
    assert_eq!(first.len(), 118);
    assert_eq!(round(&text), format!("x = {{\n\t{}\n\t测试\n}}\n", first));
}

#[test]
fn cloned_document_is_equal() {
    let items = parse_str("a = { b = \"x\" c = { 1 2.5 yes } # note\n }\nd = 1936.1.1").unwrap();
    let copy: Vec<Item> = items.iter().map(|i| i.clone()).collect();
    assert_eq!(copy, items);
    assert_eq!(serialize_ast(&copy), serialize_ast(&items));
}

#[test]
fn group_and_quoted_value_readers() {
    let opts = ParseOptions::new();
    let cs: Vec<char> = "{a b c}".chars().collect();
    match parse_block(&cs, 1, 1, &opts).unwrap() {
        (Value::Array(a), end) => {
            assert_eq!(end, 7);
            assert_eq!(a.values.len(), 3);
        }
        _ => panic!("expected an array"),
    }
    let cs: Vec<char> = "\"1936.1.1.6\"".chars().collect();
    assert_eq!(
        parse_value(&cs, 0, 0, &opts).unwrap(),
        (Value::Date(Date { y: 1936, m: 1, d: 1, h: Some(6) }), 12)
    );
}
