use dprintx::config::ConfigError;
use dprintx::file_path::FilePath;
use dprintx::json::{number, parse_json, Json};
use dprintx::local::{
    find_local_config, find_local_config_skipping, global_config_dir, global_config_dir_in,
    local_config_candidates, local_config_file_names, merge_profile, read_local_config,
};
use std::path::PathBuf;

fn files(list: &[&str]) -> Vec<String> {
    list.iter().map(|s| s.to_string()).collect()
}

fn path(text: &str) -> FilePath {
    FilePath::from_text(text)
}

/// An override that no path below lies in.
fn nowhere() -> FilePath {
    path("/nowhere/at/all")
}

#[test]
fn test_find_local_config_direct() {
    let dir = "/tmp/dprintx-test-find-direct";
    let present = files(&["/tmp/dprintx-test-find-direct/dprint.json"]);
    let result = find_local_config(dir, Some(&nowhere()), &present);
    assert_eq!(result, Some(format!("{dir}/dprint.json")));
}

/// dprint's own `dprint.jsonc` lives in the global config dir next to the
/// profiles, and claiming it would make those profiles format by whatever
/// the fallback config says rather than by their match rule.
#[test]
fn global_config_dir_is_not_a_project() {
    let dir = "/tmp/dprintx-test-global-skip";
    let present = files(&["/tmp/dprintx-test-global-skip/dprint.jsonc"]);

    assert_eq!(find_local_config_skipping(dir, Some(&path(dir)), &present), None);
    // Any other directory keeps its config.
    assert_eq!(
        find_local_config_skipping(dir, Some(&path("/nowhere")), &present),
        Some(format!("{dir}/dprint.jsonc"))
    );
    // The directory may be spelled in another way.
    assert_eq!(
        find_local_config_skipping(dir, Some(&path("/tmp/./dprintx-test-global-skip/")), &present),
        None
    );
    assert_eq!(find_local_config(dir, Some(&path(dir)), &present), None);
}

#[test]
fn test_find_local_config_walkup() {
    let root = "/tmp/dprintx-test-find-walkup";
    let sub = "/tmp/dprintx-test-find-walkup/a/b/c";

    // Config at root level.
    let present = files(&["/tmp/dprintx-test-find-walkup/dprint.jsonc"]);

    // Find from deeply nested dir should walk up and find it.
    let result = find_local_config(sub, Some(&nowhere()), &present);
    assert_eq!(result, Some(format!("{root}/dprint.jsonc")));
}

#[test]
fn test_find_local_config_name_priority() {
    let dir = "/tmp/dprintx-test-find-prefer";

    // All names at once, then without them one by one: each removal must
    // uncover exactly the next name in dprint's own priority order.
    let names = local_config_file_names();
    assert_eq!(
        names,
        ["dprint.json", "dprint.jsonc", ".dprint.json", ".dprint.jsonc"]
    );
    let mut present: Vec<String> = names.iter().map(|name| format!("{dir}/{name}")).collect();
    for name in names {
        assert_eq!(
            find_local_config(dir, Some(&nowhere()), &present),
            Some(format!("{dir}/{name}"))
        );
        present.remove(0);
    }
}

#[test]
fn test_find_local_config_hidden_walkup() {
    // A repo whose only config is `.dprint.jsonc` must not look like a repo
    // without any config at all.
    let root = "/tmp/dprintx-test-find-hidden";
    let sub = "/tmp/dprintx-test-find-hidden/src/nested";
    let present = files(&["/tmp/dprintx-test-find-hidden/.dprint.jsonc"]);
    assert_eq!(
        find_local_config(sub, Some(&nowhere()), &present),
        Some(format!("{root}/.dprint.jsonc"))
    );
}

#[test]
fn test_find_local_config_none() {
    assert_eq!(
        find_local_config("/tmp/dprintx-test-find-none", Some(&nowhere()), &[]),
        None
    );
}

#[test]
fn test_read_local_config_json() {
    let val = read_local_config(r#"{"plugins": ["https://example.com/plugin.wasm"]}"#).unwrap();
    assert!(matches!(val, Json::Object(_)));
    assert!(val.get("plugins").unwrap().as_array().is_some());
}

#[test]
fn test_read_local_config_jsonc() {
    let val = read_local_config(
        r#"{
                // local overrides
                "typescript": {
                    "lineWidth": 120,
                },
                "plugins": [
                    "https://example.com/plugin.wasm",
                ],
            }"#,
    )
    .unwrap();
    assert!(matches!(val, Json::Object(_)));
    assert_eq!(
        val.get("typescript").unwrap().get("lineWidth"),
        Some(&number(120))
    );
}

#[test]
fn broken_local_configs_are_refused() {
    let error = read_local_config("{ this is not json").unwrap_err();
    assert_eq!(error, ConfigError::InvalidLocalConfig);
    assert_eq!(error.message(), "parsing local dprint config");
}

#[test]
fn candidates_go_up_to_the_root() {
    let list = local_config_candidates("/a/b", Some(&path("/a")));
    assert_eq!(
        list,
        [
            "/a/b/dprint.json",
            "/a/b/dprint.jsonc",
            "/a/b/.dprint.json",
            "/a/b/.dprint.jsonc",
            "/dprint.json",
            "/dprint.jsonc",
            "/.dprint.json",
            "/.dprint.jsonc",
        ]
    );
    let list = local_config_candidates("a", None);
    assert_eq!(list[0], "a/dprint.json");
    assert_eq!(list[4], "dprint.json");
    assert_eq!(list.len(), 8);
}

#[test]
fn nearest_config_wins() {
    let present = files(&["/a/dprint.json", "/a/b/.dprint.jsonc"]);
    assert_eq!(
        find_local_config_skipping("/a/b/c", None, &present),
        Some("/a/b/.dprint.jsonc".to_string())
    );
    assert_eq!(
        find_local_config_skipping("/a/b/c", Some(&path("/a/b")), &present),
        Some("/a/dprint.json".to_string())
    );
}

#[test]
fn named_directory_comes_first() {
    let os = |dir: FilePath| PathBuf::from(dir.to_text().unwrap());
    assert_eq!(global_config_dir(Some(&path("/custom"))), Some(path("/custom")));
    let usual = dirs::config_dir().map(|dir| dir.join("dprint"));
    assert_eq!(global_config_dir(None).map(os), usual);
    assert_eq!(global_config_dir(Some(&path(""))).map(os), usual);
    assert_eq!(
        global_config_dir_in(Some(&path("")), Some(&path("/home/u/.config"))),
        Some(path("/home/u/.config/dprint"))
    );
    assert_eq!(global_config_dir_in(None, None), None);
    assert_eq!(global_config_dir_in(Some(&path("x")), None), Some(path("x")));
    let odd = FilePath::from_bytes(b"/\xff".to_vec());
    assert_eq!(
        global_config_dir_in(None, Some(&odd)).unwrap().as_bytes(),
        b"/\xff/dprint"
    );
    assert_eq!(global_config_dir_in(Some(&odd), None), Some(odd));
}

#[test]
fn profile_is_prepended_to_extends() {
    for (local, merged) in [
        (
            r#"{"yaml": {"commentSpacing": "ignore"}}"#,
            r#"{"yaml": {"commentSpacing": "ignore"}, "extends": "/profile/path"}"#,
        ),
        (
            r#"{"extends": "https://example.com/base", "x": 1}"#,
            r#"{"extends": ["/profile/path", "https://example.com/base"], "x": 1}"#,
        ),
        (
            r#"{"extends": ["a.json", "b.json"]}"#,
            r#"{"extends": ["/profile/path", "a.json", "b.json"]}"#,
        ),
    ] {
        let mut value = parse_json(local).unwrap();
        merge_profile(&mut value, "/profile/path");
        assert_eq!(value, parse_json(merged).unwrap());
    }
}
