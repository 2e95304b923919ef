use lib::jsondoc::{bool_value, get, items, parse, str_value};

#[test]
fn a_document_is_one_value_with_whitespace_around_it() {
    for good in ["{}", " [ ] ", "\"x\"", "-0.5e+3", "true", "null", "{\"a\":[1,2,{\"b\":false}],\"c\":\"\\u00e9\"}"] {
        assert!(parse(good).is_some(), "{:?} is a document", good);
    }
    for bad in ["", "{", "[1,]", "{\"a\"}", "01", "1.", "-", "tru", "\"\\x\"", "\"\\ud800\"", "\"a\nb\"", "{} {}", "[1 2]"] {
        assert!(parse(bad).is_none(), "{:?} is not a document", bad);
    }
}

#[test]
fn members_elements_strings_and_booleans_are_read_where_they_stand() {
    let d = parse(r#"{"c":"sort","by":"size","desc":true,"list":["a\tb",7,"\u00e9"],"c":"later"}"#).unwrap();
    let c = get(&d, d.root, "c").unwrap();
    assert_eq!(str_value(&d, c).as_deref(), Some("sort"), "the first of two equal names");
    let desc = get(&d, d.root, "desc").unwrap();
    assert_eq!(bool_value(&d, desc), Some(true));
    assert_eq!(str_value(&d, desc), None);
    assert_eq!(get(&d, d.root, "missing"), None);
    let list = get(&d, d.root, "list").unwrap();
    let es = items(&d, list).unwrap();
    assert_eq!(es.len(), 3);
    assert_eq!(str_value(&d, es[0]).as_deref(), Some("a\tb"));
    assert_eq!(str_value(&d, es[1]), None);
    assert_eq!(str_value(&d, es[2]).as_deref(), Some("é"));
    assert_eq!(items(&d, d.root), None, "an object is no array");
    assert_eq!(get(&d, list, "a"), None, "an array has no members");
}

#[test]
fn what_escape_writes_a_document_reads_back() {
    for value in ["plain", "a \"quoted\" \\ back", "tab\tnew\nline\r", "\u{1}\u{1f} ctl", "é ü 漢 🦀", ""] {
        let line = format!("\"{}\"", lib::json::escape(value));
        let d = parse(&line).expect("an escaped string is a document");
        assert_eq!(str_value(&d, d.root).as_deref(), Some(value));
    }
}
