use lib::json::{escape, field_str, field_usize};
use lib::rowguard::{refusal, stamped};

#[test]
fn a_rows_line_names_its_numbering_as_its_last_field() {
    let line = stamped(r#"{"t":"rows","start":0,"rows":[],"kinds":[],"ms":0.001}"#.to_string(), 7);
    assert_eq!(line, r#"{"t":"rows","start":0,"rows":[],"kinds":[],"ms":0.001,"listing":7}"#);
    assert_eq!(field_usize(&line, "listing"), Some(7));
}

#[test]
fn rows_read_from_an_earlier_numbering_are_refused_by_name() {
    let refused = refusal(r#"{"c":"trash","rows":[0],"menuId":0,"listing":1}"#, 2).expect("refused");
    assert_eq!(field_str(&refused, "t").as_deref(), Some("error"));
    assert_eq!(field_str(&refused, "where").as_deref(), Some("stale"));
    assert_eq!(field_str(&refused, "path").as_deref(), Some("trash"));
    for command in ["transfer", "paths"] {
        let line = format!(r#"{{"c":"{}","rows":[3],"listing":4}}"#, command);
        assert_eq!(refusal(&line, 5).and_then(|r| field_str(&r, "path")).as_deref(), Some(command));
    }
}

#[test]
fn a_stale_menu_snapshot_is_refused_in_the_shape_the_menu_waits_for() {
    let refused = refusal(r#"{"c":"menuaction","op":"snapshot","id":9,"rows":[0],"cursor":0,"listing":1}"#, 2)
        .expect("refused");
    assert_eq!(field_str(&refused, "t").as_deref(), Some("menuaction"));
    assert_eq!(field_usize(&refused, "id"), Some(9));
    assert!(refused.contains(r#""ok":false"#));
}

#[test]
fn the_numbering_in_force_an_absent_one_and_a_read_only_request_all_pass() {
    assert!(refusal(r#"{"c":"trash","rows":[0],"listing":2}"#, 2).is_none());
    assert!(refusal(r#"{"c":"trash","rows":[0]}"#, 2).is_none());
    assert!(refusal(r#"{"c":"window","start":0,"count":9,"listing":1}"#, 2).is_none());
    assert!(refusal(r#"{"c":"thumb","rows":[0],"listing":1}"#, 2).is_none());
}

#[test]
fn a_line_that_does_not_end_its_object_is_left_as_it_is() {
    assert_eq!(stamped("not json".to_string(), 3), "not json");
    assert_eq!(stamped("{}".to_string(), 0), r#"{,"listing":0}"#);
}

#[test]
fn the_refusal_message_reads_back_whole() {
    let refused = refusal(r#"{"c":"paths","listing":0}"#, 1).unwrap();
    assert_eq!(
        field_str(&refused, "msg").as_deref(),
        Some("the listing changed before this request arrived, so its rows name other files; nothing was done")
    );
    let menu = refusal(r#"{"c":"menuaction","listing":0}"#, 1).unwrap();
    assert_eq!(field_usize(&menu, "id"), Some(0), "no id is answered as id 0");
}

#[test]
fn a_string_field_decodes_its_escapes() {
    assert_eq!(field_str(r#"{"p":"a\"b\\c\/d\n\u00e9"}"#, "p").as_deref(), Some("a\"b\\c/d\né"));
    assert_eq!(field_str(r#"{"p":"\ud800"}"#, "p"), None, "a lone surrogate is not read");
    assert_eq!(field_str(r#"{"p":"open"#, "p"), None, "an unterminated string is not read");
    assert_eq!(field_str(r#"{"p":7}"#, "p"), None, "a number is not a string");
    assert_eq!(field_str(r#"{"q":"x"}"#, "p"), None);
}

#[test]
fn a_number_field_reads_its_leading_digits() {
    assert_eq!(field_usize(r#"{"n":42,"m":1}"#, "n"), Some(42));
    assert_eq!(field_usize(r#"{"n":"42"}"#, "n"), None);
    assert_eq!(field_usize(r#"{"n":-1}"#, "n"), None);
    assert_eq!(field_usize(r#"{"n":99999999999999999999999}"#, "n"), None);
}

#[test]
fn escape_writes_what_field_str_reads_back() {
    let value = "tab\there \"quoted\" back\\slash\u{1}bell\r\n";
    assert_eq!(escape(value), "tab\\there \\\"quoted\\\" back\\\\slash\\u0001bell\\r\\n");
    let line = format!(r#"{{"k":"{}"}}"#, escape(value));
    assert_eq!(field_str(&line, "k").as_deref(), Some(value));
}
