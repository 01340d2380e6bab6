use dprintx::config::{default_lsp_no_gitignore, default_lsp_timeout_ms, ConfigError, DprintxConfig};
use dprintx::file_path::FilePath;
use dprintx::json::{parse_json, Json};

fn members(value: Option<&Json>) -> Option<Vec<(String, Json)>> {
    match value {
        Some(Json::Object(members)) => {
            Some(members.as_list().iter().map(|(k, v)| (k.clone(), v.copy())).collect())
        }
        _ => None,
    }
}

fn config_from(text: &str) -> DprintxConfig {
    let json = parse_json(text).unwrap();
    DprintxConfig {
        config_dir: FilePath::from_text(""),
        dprint: json.get("dprint").unwrap().as_str().unwrap().to_string(),
        profiles: members(json.get("profiles")).unwrap(),
        match_rules: members(json.get("match")).unwrap(),
        match_content: members(json.get("match_content")),
        diff_pager: None,
        lsp_rewrite_uris: false,
        lsp_timeout_ms: default_lsp_timeout_ms(),
        lsp_no_gitignore: default_lsp_no_gitignore(),
    }
}

#[test]
fn test_compile_content_patterns() {
    let config_json = r#"{
            "dprint": "/usr/bin/dprint",
            "profiles": {
                "default": "/config/default.jsonc",
                "ignore": null
            },
            "match": { "**": "default" },
            "match_content": {
                "^// Code generated .+ DO NOT EDIT\\.$": "ignore"
            }
        }"#;
    let config = config_from(config_json);

    let matcher = config.compile_content_patterns().unwrap();
    assert!(matcher.is_some());

    let matcher = matcher.unwrap();
    assert_eq!(
        matcher.match_content("// Code generated by protoc DO NOT EDIT."),
        Some("ignore")
    );
    assert_eq!(
        matcher.match_content("package main\n\nfunc main() {}"),
        None
    );
}

#[test]
fn test_compile_content_patterns_none() {
    let config_json = r#"{
            "dprint": "/usr/bin/dprint",
            "profiles": { "default": "/config/default.jsonc" },
            "match": { "**": "default" }
        }"#;
    let config = config_from(config_json);

    let matcher = config.compile_content_patterns().unwrap();
    assert!(matcher.is_none());
}

#[test]
fn test_content_matcher_empty_content() {
    let config_json = r#"{
            "dprint": "/usr/bin/dprint",
            "profiles": {
                "default": "/config/default.jsonc",
                "ignore": null
            },
            "match": { "**": "default" },
            "match_content": {
                "DO NOT EDIT": "ignore"
            }
        }"#;
    let config = config_from(config_json);
    let matcher = config.compile_content_patterns().unwrap().unwrap();

    assert_eq!(matcher.match_content(""), None);
}

#[test]
fn test_content_matcher_multiline() {
    let config_json = r#"{
            "dprint": "/usr/bin/dprint",
            "profiles": {
                "default": "/config/default.jsonc",
                "ignore": null
            },
            "match": { "**": "default" },
            "match_content": {
                "DO NOT EDIT": "ignore"
            }
        }"#;
    let config = config_from(config_json);
    let matcher = config.compile_content_patterns().unwrap().unwrap();

    // Pattern found on line 3 — still matches (regex searches full content).
    let content = "package main\n\nimport \"fmt\"\n// DO NOT EDIT\nfunc main() {}";
    assert_eq!(matcher.match_content(content), Some("ignore"));

    // Pattern not present at all.
    let content = "package main\n\nfunc main() {}";
    assert_eq!(matcher.match_content(content), None);
}

#[test]
fn test_compile_content_patterns_invalid_regex() {
    let config_json = r#"{
            "dprint": "/usr/bin/dprint",
            "profiles": { "ignore": null },
            "match": { "**": "ignore" },
            "match_content": {
                "[invalid regex": "ignore"
            }
        }"#;
    let config = config_from(config_json);

    let result = config.compile_content_patterns();
    assert!(result.is_err());
    let error = result.unwrap_err();
    assert_eq!(error, ConfigError::InvalidRegex);
    assert!(error.message().contains("invalid regex"));
}

#[test]
fn test_content_matcher_first_match_wins() {
    let config_json = r#"{
            "dprint": "/usr/bin/dprint",
            "profiles": {
                "default": "/config/default.jsonc",
                "ignore": null,
                "strict": "/config/strict.jsonc"
            },
            "match": { "**": "default" },
            "match_content": {
                "DO NOT EDIT": "ignore",
                "STRICT MODE": "strict"
            }
        }"#;
    let config = config_from(config_json);
    let matcher = config.compile_content_patterns().unwrap().unwrap();

    // Both patterns match — first one (ignore) wins.
    assert_eq!(
        matcher.match_content("// DO NOT EDIT STRICT MODE"),
        Some("ignore")
    );
    // Only second matches.
    assert_eq!(
        matcher.match_content("// STRICT MODE enabled"),
        Some("strict")
    );
}

#[test]
fn anchors_hold_at_every_line() {
    let config = config_from(
        r#"{"dprint": "d", "profiles": {}, "match": {},
            "match_content": {"^two$": "line", "skipped": 1, "(?-m)^two$": "whole"}}"#,
    );
    let matcher = config.compile_content_patterns().unwrap().unwrap();
    assert_eq!(matcher.match_content("one\ntwo\nthree"), Some("line"));
    assert_eq!(matcher.match_content("one two"), None);
    assert_eq!(matcher.match_content("skipped"), None);
}

#[test]
fn first_of_the_matching_rules_names_the_profile() {
    let config = config_from(
        r#"{"dprint": "d", "profiles": {}, "match": {},
            "match_content": {"a": "first", "b": "second", "c": "third"}}"#,
    );
    let matcher = config.compile_content_patterns().unwrap().unwrap();
    assert_eq!(matcher.profile_of_first(&[]), None);
    assert_eq!(matcher.profile_of_first(&[0, 2]), Some("first"));
    assert_eq!(matcher.profile_of_first(&[1, 2]), Some("second"));
    assert_eq!(matcher.match_content("c b"), Some("second"));
    assert_eq!(matcher.match_content("c"), Some("third"));
}
