use dprintx::json::{number, parse_json, Json};
use dprintx::message::{
    apply_uri_rewrite, extract_language, extract_uri, initialize_request,
    initialized_notification, null_reply, set_root,
};

fn json(text: &str) -> Json {
    parse_json(text).unwrap()
}

fn at<'a>(value: &'a Json, keys: &[&str]) -> Option<&'a Json> {
    let mut here = value;
    for key in keys {
        here = here.get(key)?;
    }
    Some(here)
}

fn text_at<'a>(value: &'a Json, keys: &[&str]) -> Option<&'a str> {
    at(value, keys).and_then(|v| v.as_str())
}

#[test]
fn test_extract_uri() {
    let msg = json(
        r#"{
        "method": "textDocument/formatting",
        "params": {
            "textDocument": {
                "uri": "file:///home/user/file.go"
            }
        }
    }"#,
    );
    assert_eq!(
        extract_uri(&msg),
        Some("file:///home/user/file.go".to_string())
    );
}

#[test]
fn test_extract_uri_missing() {
    let msg = json(r#"{"method": "shutdown"}"#);
    assert_eq!(extract_uri(&msg), None);
}

#[test]
fn test_apply_uri_rewrite() {
    let uri_languages = vec![("file:///home/user/myscript".to_string(), "sh".to_string())];

    let mut msg = json(
        r#"{
        "method": "textDocument/formatting",
        "params": {
            "textDocument": {
                "uri": "file:///home/user/myscript"
            }
        }
    }"#,
    );

    apply_uri_rewrite(&mut msg, &uri_languages);
    assert_eq!(
        text_at(&msg, &["params", "textDocument", "uri"]),
        Some("file:///home/user/myscript.sh")
    );
}

#[test]
fn test_set_root_replaces_editor_workspace() {
    // The editor opened one project; this backend serves another.
    let mut params = json(
        r#"{
        "rootUri": "file:///home/user/other",
        "rootPath": "/home/user/other",
        "workspaceFolders": [{ "uri": "file:///home/user/other", "name": "other" }],
        "capabilities": {}
    }"#,
    );

    set_root(&mut params, "/home/user/project");

    assert_eq!(
        text_at(&params, &["rootUri"]),
        Some("file:///home/user/project")
    );
    assert_eq!(text_at(&params, &["rootPath"]), Some("/home/user/project"));
    assert_eq!(
        params.get("workspaceFolders"),
        Some(&json(
            r#"[{ "uri": "file:///home/user/project", "name": "project" }]"#
        ))
    );
    // Untouched fields survive.
    assert_eq!(params.get("capabilities"), Some(&json("{}")));
}

#[test]
fn test_set_root_single_folder_only() {
    // A backend serves exactly one config, so it must not inherit a list of
    // folders the editor happened to have open.
    let mut params = json(
        r#"{
        "workspaceFolders": [
            { "uri": "file:///a", "name": "a" },
            { "uri": "file:///b", "name": "b" }
        ]
    }"#,
    );

    set_root(&mut params, "/home/user/project");

    assert_eq!(
        params
            .get("workspaceFolders")
            .unwrap()
            .as_array()
            .unwrap()
            .len(),
        1
    );
}

#[test]
fn test_apply_uri_rewrite_no_match() {
    let uri_languages = Vec::new(); // empty map

    let mut msg = json(
        r#"{
        "method": "textDocument/formatting",
        "params": {
            "textDocument": {
                "uri": "file:///home/user/myscript"
            }
        }
    }"#,
    );

    let original = msg.copy();
    apply_uri_rewrite(&mut msg, &uri_languages);
    // No rewrite — message unchanged.
    assert_eq!(msg, original);
}

#[test]
fn test_apply_uri_rewrite_already_correct() {
    let uri_languages = vec![("file:///home/user/main.go".to_string(), "go".to_string())];

    let mut msg = json(
        r#"{
        "method": "textDocument/formatting",
        "params": {
            "textDocument": {
                "uri": "file:///home/user/main.go"
            }
        }
    }"#,
    );

    let original = msg.copy();
    apply_uri_rewrite(&mut msg, &uri_languages);
    // Already correct extension — no rewrite.
    assert_eq!(msg, original);
}

#[test]
fn only_the_uri_changes() {
    let uri_languages = vec![("file:///s".to_string(), "zsh".to_string())];
    let mut msg = json(
        r#"{"id": 4, "params": {"options": [1], "textDocument": {"version": 2, "uri": "file:///s",
            "languageId": "zsh"}, "x": null}, "method": "m"}"#,
    );
    apply_uri_rewrite(&mut msg, &uri_languages);
    assert_eq!(
        msg,
        json(
            r#"{"id": 4, "params": {"options": [1], "textDocument": {"version": 2,
                "uri": "file:///s.sh", "languageId": "zsh"}, "x": null}, "method": "m"}"#
        )
    );
    assert_eq!(extract_language(&msg), Some("zsh".to_string()));
}

#[test]
fn uris_must_be_strings() {
    assert_eq!(
        extract_uri(&json(r#"{"params": {"textDocument": {"uri": 1}}}"#)),
        None
    );
    assert_eq!(extract_uri(&json(r#"{"params": [1]}"#)), None);
    assert_eq!(
        extract_language(&json(r#"{"params": {"textDocument": {}}}"#)),
        None
    );
}

#[test]
fn root_of_the_file_system_is_named_by_its_uri() {
    let mut params = Json::Null;
    set_root(&mut params, "/");
    assert_eq!(
        params,
        json(
            r#"{"workspaceFolders": [{"uri": "file:///", "name": "file:///"}],
                "rootUri": "file:///", "rootPath": "/"}"#
        )
    );
}

#[test]
fn messages_have_the_shape_of_the_protocol() {
    assert_eq!(
        null_reply(number(7)),
        json(r#"{"jsonrpc": "2.0", "id": 7, "result": null}"#)
    );
    assert_eq!(
        initialize_request(Json::Null, json("{}")),
        json(r#"{"jsonrpc": "2.0", "id": null, "method": "initialize", "params": {}}"#)
    );
    assert_eq!(
        initialized_notification(),
        json(r#"{"jsonrpc": "2.0", "method": "initialized", "params": {}}"#)
    );
}
