use dprintx::json::{number as whole, object, parse_json, same_json, Json, Members, NotJson};

fn text(s: &str) -> Json {
    Json::Text(s.to_string())
}

fn number(s: &str) -> Json {
    Json::Number(serde_json::from_str(s).unwrap())
}

#[test]
fn values_are_parsed() {
    assert_eq!(parse_json("null"), Ok(Json::Null));
    assert_eq!(parse_json(" true "), Ok(Json::Bool(true)));
    assert_eq!(parse_json("\"a\\n\\u00e9\""), Ok(text("a\n\u{e9}")));
    assert_eq!(parse_json("-12"), Ok(number("-12")));
    assert_eq!(parse_json("1.50"), Ok(number("1.5")));
    assert_eq!(
        parse_json("[1, [], {}]"),
        Ok(Json::Array(vec![
            number("1"),
            Json::Array(vec![]),
            object(vec![])
        ]))
    );
    assert_eq!(
        parse_json("{\"b\": 1, \"a\": {\"c\": null}}"),
        Ok(object(vec![
            ("b".to_string(), number("1")),
            (
                "a".to_string(),
                object(vec![("c".to_string(), Json::Null)])
            ),
        ]))
    );
}

#[test]
fn broken_text_is_refused() {
    assert_eq!(parse_json(""), Err(NotJson));
    assert_eq!(parse_json("{"), Err(NotJson));
    assert_eq!(parse_json("[1,]"), Err(NotJson));
    assert_eq!(parse_json("// x"), Err(NotJson));
    assert_eq!(parse_json("1 2"), Err(NotJson));
}

#[test]
fn members_are_found_and_set() {
    let mut json = parse_json("{\"a\": 1, \"b\": \"x\"}").unwrap();
    assert_eq!(json.get("b").and_then(|b| b.as_str()), Some("x"));
    assert!(json.get("c").is_none());
    assert!(number("1").get("a").is_none());
    json.set("a", text("y"));
    json.set("c", Json::Bool(false));
    assert_eq!(
        json,
        parse_json("{\"a\": \"y\", \"b\": \"x\", \"c\": false}").unwrap()
    );
    let mut nothing = Json::Null;
    nothing.set("k", Json::Null);
    assert_eq!(nothing, parse_json("{\"k\": null}").unwrap());
    assert_eq!(
        parse_json("[1]").unwrap().as_array().map(|items| items.len()),
        Some(1)
    );
    assert!(json.as_array().is_none());
}

#[test]
fn copies_are_equal() {
    let json = parse_json("{\"a\": [1, {\"b\": \"x\"}], \"c\": null, \"d\": true}").unwrap();
    assert_eq!(json.copy(), json);
}

#[test]
fn equality_is_that_of_the_values() {
    let samples = [
        "null", "true", "false", "0", "1", "1.0", "-1", "0.0", "-0.0", "-0", "\"1\"", "\"\"", "[]",
        "[1]", "[1, 2]", "[2, 1]", "{}", "{\"a\": 1}", "{\"a\": 1, \"b\": 2}",
        "{\"b\": 2, \"a\": 1}", "{\"a\": 1, \"b\": 3}", "{\"a\": 1, \"c\": 2}", "1e2", "100",
        "100.0", "18446744073709551615", "1e400x", "[{\"a\": 0.0}]", "[{\"a\": -0.0}]",
    ];
    for a in samples {
        for b in samples {
            let (Ok(x), Ok(y)) = (parse_json(a), parse_json(b)) else {
                continue;
            };
            let p: serde_json::Value = serde_json::from_str(a).unwrap();
            let q: serde_json::Value = serde_json::from_str(b).unwrap();
            assert_eq!(same_json(&x, &y), p == q, "{a} {b}");
        }
    }
}

#[test]
fn values_are_printed_compactly() {
    for text in [
        "null", "true", "false", "12", "-1.5", "1e300", "\"\"", "[]", "[1]",
        "\"a\\n\\\"\\u0007\u{e9}/\"",
        "[1, [2, null], {}]", "{}", "{\"a\": 1}", "{\"b\": [1, 2], \"a\": {\"x y\": \"\\\\\"}}",
    ] {
        let value: serde_json::Value = serde_json::from_str(text).unwrap();
        let printed = parse_json(text).unwrap().to_text();
        assert_eq!(printed, serde_json::to_string(&value).unwrap());
        assert_eq!(parse_json(&printed), parse_json(text));
    }
    assert_eq!(
        parse_json("{\"a\": [1, \"x\"], \"b\": null}").unwrap().to_text(),
        "{\"a\":[1,\"x\"],\"b\":null}"
    );
}

#[test]
fn control_characters_are_escaped() {
    assert_eq!(
        text("\u{8}\t\n\u{c}\r\u{0}\u{1f}\u{7f}\u{e9}\"\\/").to_text(),
        "\"\\b\\t\\n\\f\\r\\u0000\\u001f\u{7f}\u{e9}\\\"\\\\/\""
    );
}

#[test]
fn whole_numbers_print_as_digits() {
    for n in [0, 7, 1234567890, u64::MAX] {
        assert_eq!(whole(n).to_text(), n.to_string());
        assert_eq!(whole(n), number(&n.to_string()));
    }
}

#[test]
fn members_have_each_name_once() {
    let mut members = Members::new();
    members.insert("a", whole(1));
    members.insert("b", whole(2));
    members.insert("a", whole(3));
    assert_eq!(members.as_list().len(), 2);
    assert_eq!(Json::Object(members).to_text(), "{\"a\":3,\"b\":2}");
    assert_eq!(
        parse_json("{\"a\": 1, \"b\": 2, \"a\": 3}").unwrap().to_text(),
        "{\"a\":3,\"b\":2}"
    );
}
