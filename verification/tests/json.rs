use tsk_core::events::{Event, Output};
use tsk_core::json::{as_number, as_text, parse, quote, Json};

#[test]
fn documents_go_out_as_they_came_in() {
    for s in [
        "null",
        "true",
        "0",
        "18446744073709551615",
        "-7",
        "1.5",
        "\"a\\\"b\\\\c\\n\\u0001é\"",
        "[]",
        "[1,[2,{\"a\":null}]]",
        "{}",
        "{\"a\":1,\"b\":[true,false]}",
    ] {
        assert_eq!(parse(s).unwrap().render(), s);
    }
}

#[test]
fn members_come_out_in_the_order_of_their_keys_and_once() {
    assert_eq!(parse(r#"{"b":1,"a":2,"b":3}"#).unwrap().render(), r#"{"a":2,"b":3}"#);
    assert_eq!(parse(r#"{"b":1,"a":[]}"#).unwrap().render_pretty(), "{\n  \"a\": [],\n  \"b\": 1\n}");
}

#[test]
fn numbers_are_told_apart() {
    assert_eq!(parse("7").unwrap(), Json::Number(serde_json::Number::from(7)));
    assert_eq!(as_number(parse(r#"{"n":7}"#).unwrap().get("n")), 7);
    assert_eq!(as_number(parse(r#"{"n":-7}"#).unwrap().get("n")), 0);
    assert_eq!(as_number(parse(r#"{"n":7.0}"#).unwrap().get("n")), 0);
    assert_eq!(as_number(parse(r#"{"n":"7"}"#).unwrap().get("n")), 0);
    assert_eq!(as_number(None), 0);
}

#[test]
fn what_is_no_json_says_why() {
    let e = parse("not json").unwrap_err();
    assert_eq!(e, "expected ident at line 1 column 2");
    assert!(parse("").unwrap_err().contains("EOF"));
    assert!(parse("{} x").unwrap_err().contains("trailing characters"));
}

#[test]
fn members_are_found_by_key() {
    let j = parse(r#"{"message":{"content":"x"},"type":"user"}"#).unwrap();
    assert_eq!(as_text(j.get("type")), Some("user"));
    assert_eq!(as_text(j.get_inner("message", "content")), Some("x"));
    assert!(j.get("none").is_none());
    assert!(j.get_inner("type", "content").is_none());
    assert!(parse("[1]").unwrap().get("0").is_none());
    assert!(as_text(j.get("message")).is_none());
    // A later member counts.
    let twice = Json::Object(vec![
        ("k".to_string(), Json::Null),
        ("k".to_string(), Json::Bool(true)),
    ]);
    assert_eq!(twice.get("k"), Some(&Json::Bool(true)));
    assert_eq!(twice.render(), r#"{"k":true}"#);
    assert_eq!(twice.copy().render(), r#"{"k":true}"#);
}

#[test]
fn strings_are_quoted() {
    assert_eq!(quote("plain 中 text"), "\"plain 中 text\"");
    assert_eq!(quote("a\"b\\c\n\u{1}\u{7f}"), "\"a\\\"b\\\\c\\n\\u0001\u{7f}\"");
}

#[test]
fn answers_have_the_shape_of_the_protocol() {
    assert_eq!(Output::Passthrough.to_string(), "{}");
    assert_eq!(
        Output::Context(Event::SessionStart, "a \"b\"".to_string()).to_string(),
        r#"{"hookSpecificOutput":{"additionalContext":"a \"b\"","hookEventName":"SessionStart"}}"#
    );
    let input = Json::Object(vec![("file_path".to_string(), Json::Text("/x".to_string()))]);
    assert_eq!(
        Output::UpdatedInput(input).json().render(),
        r#"{"hookSpecificOutput":{"hookEventName":"PreToolUse","updatedInput":{"file_path":"/x"}}}"#
    );
}

#[test]
fn events_are_known_by_name() {
    for e in [
        Event::PreToolUse,
        Event::PostToolUse,
        Event::SessionStart,
        Event::UserPromptSubmit,
        Event::PreCompact,
    ] {
        assert_eq!(Event::parse(e.name()), Some(e));
    }
    assert_eq!(Event::parse("NoSuchEvent"), None);
    assert_eq!(Event::parse("pretooluse"), None);
    assert_eq!(Event::parse(""), None);
}
