use glint::json::{extract, parse, pointer, to_text, Json};

fn obj(entries: Vec<(&str, Json)>) -> Json {
    Json::Obj(entries.into_iter().map(|(k, v)| (k.to_string(), v)).collect())
}

fn s(text: &str) -> Json {
    Json::Str(text.to_string())
}

#[test]
fn serializes_scalars() {
    assert_eq!(to_text(&Json::Null), "null");
    assert_eq!(to_text(&Json::Bool(true)), "true");
    assert_eq!(to_text(&Json::Bool(false)), "false");
    assert_eq!(to_text(&Json::Int(0)), "0");
    assert_eq!(to_text(&Json::Int(-42)), "-42");
    assert_eq!(to_text(&Json::Int(i64::MIN)), "-9223372036854775808");
    assert_eq!(to_text(&s("hi")), "\"hi\"");
}

#[test]
fn serializes_structures() {
    let v = obj(vec![
        ("id", s("abc")),
        ("n", Json::Int(7)),
        ("items", Json::Arr(vec![Json::Int(1), Json::Int(2)])),
    ]);
    assert_eq!(to_text(&v), "{\"id\":\"abc\",\"n\":7,\"items\":[1,2]}");
}

#[test]
fn escapes_strings() {
    assert_eq!(to_text(&s("a\"b\\c\nd\te")), "\"a\\\"b\\\\c\\nd\\te\"");
}

#[test]
fn parses_what_it_writes() {
    let v = obj(vec![
        ("user", obj(vec![("id", Json::Int(42)), ("name", s("ann"))])),
        ("tags", Json::Arr(vec![s("x"), s("y")])),
        ("none", Json::Null),
        ("ok", Json::Bool(true)),
    ]);
    let text = to_text(&v);
    assert_eq!(parse(&text), Some(v));
}

#[test]
fn parses_with_whitespace() {
    let parsed = parse(" { \"user\" : { \"id\" : 42 } } ").unwrap();
    assert_eq!(
        parsed,
        obj(vec![("user", obj(vec![("id", Json::Int(42))]))])
    );
}

#[test]
fn parses_escapes() {
    assert_eq!(parse("\"a\\n\\\"b\\\\\""), Some(s("a\n\"b\\")));
}

#[test]
fn parses_unicode_escapes() {
    assert_eq!(parse("\"\\u0041\""), Some(s("A")));
    assert_eq!(parse("\"caf\\u00e9\""), Some(s("caf\u{e9}")));
    assert_eq!(parse("\"\\u4e2d\""), Some(s("\u{4e2d}")));
    assert_eq!(parse("\"\\uD83D\\uDE00\""), None);
    assert_eq!(parse("\"\\u12\""), None);
    assert_eq!(parse("\"\\uzzzz\""), None);
}

#[test]
fn rejects_malformed_documents() {
    assert_eq!(parse(""), None);
    assert_eq!(parse("{"), None);
    assert_eq!(parse("{\"a\":1,}"), None);
    assert_eq!(parse("[1 2]"), None);
    assert_eq!(parse("01"), None);
    assert_eq!(parse("01.5"), None);
    assert_eq!(parse("1."), None);
    assert_eq!(parse("1e"), None);
    assert_eq!(parse("1e+"), None);
    assert_eq!(parse("tru"), None);
    assert_eq!(parse("\"abc"), None);
    assert_eq!(parse("{\"a\":1} trailing"), None);
}

#[test]
fn numbers_beyond_whole_range_keep_their_text() {
    assert_eq!(parse("1.5"), Some(Json::Num("1.5".to_string())));
    assert_eq!(parse("-2.5e-3"), Some(Json::Num("-2.5e-3".to_string())));
    assert_eq!(parse("1e3"), Some(Json::Num("1e3".to_string())));
    assert_eq!(parse("0.5"), Some(Json::Num("0.5".to_string())));
    assert_eq!(
        parse("9223372036854775808"),
        Some(Json::Num("9223372036854775808".to_string()))
    );
    assert_eq!(to_text(&Json::Num("4.50".to_string())), "4.50");
    let v = parse("{\"score\": 4.5, \"user\": {\"id\": 42}}").unwrap();
    assert_eq!(pointer(&v, "/user/id"), Some(&Json::Int(42)));
    assert_eq!(extract(pointer(&v, "/user/id").unwrap()), "42");
    assert_eq!(extract(pointer(&v, "/score").unwrap()), "4.5");
    assert_eq!(parse(&to_text(&v)), Some(v));
}

#[test]
fn parses_number_limits() {
    assert_eq!(parse("9223372036854775807"), Some(Json::Int(i64::MAX)));
    assert_eq!(parse("-9223372036854775808"), Some(Json::Int(i64::MIN)));
    assert_eq!(
        parse("-9223372036854775809"),
        Some(Json::Num("-9223372036854775809".to_string()))
    );
}

#[test]
fn pointer_walks_objects_and_arrays() {
    let v = obj(vec![
        ("user", obj(vec![("id", Json::Int(42))])),
        ("tags", Json::Arr(vec![s("x"), s("y")])),
    ]);
    assert_eq!(pointer(&v, ""), Some(&v));
    assert_eq!(pointer(&v, "/user/id"), Some(&Json::Int(42)));
    assert_eq!(pointer(&v, "/tags/1"), Some(&s("y")));
    assert_eq!(pointer(&v, "/tags/01"), None);
    assert_eq!(pointer(&v, "/tags/2"), None);
    assert_eq!(pointer(&v, "/absent"), None);
    assert_eq!(pointer(&v, "user/id"), None);
}

#[test]
fn pointer_unescapes_tokens() {
    let v = obj(vec![("a/b", Json::Int(1)), ("c~d", Json::Int(2))]);
    assert_eq!(pointer(&v, "/a~1b"), Some(&Json::Int(1)));
    assert_eq!(pointer(&v, "/c~0d"), Some(&Json::Int(2)));
}

#[test]
fn extraction_convention() {
    assert_eq!(extract(&Json::Null), "");
    assert_eq!(extract(&s("plain")), "plain");
    assert_eq!(extract(&Json::Int(42)), "42");
    assert_eq!(extract(&Json::Bool(false)), "false");
    assert_eq!(
        extract(&obj(vec![("a", Json::Int(1))])),
        "{\"a\":1}"
    );
}
