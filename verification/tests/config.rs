use dprintx::config::{
    default_config_path, default_config_path_in, default_lsp_no_gitignore, default_lsp_timeout_ms,
    expand_tilde, expand_tilde_in, ConfigError, DprintxConfig, ProfileResolution,
};
use dprintx::file_path::FilePath;
use dprintx::json::{parse_json, Json};
use dprintx::jsonc::strip_jsonc_comments;
use std::path::PathBuf;

fn path(text: &str) -> FilePath {
    FilePath::from_text(text)
}

/// A path as the standard library holds it.
fn os_path(path: FilePath) -> PathBuf {
    PathBuf::from(path.to_text().unwrap())
}

fn members(value: Option<&Json>) -> Option<Vec<(String, Json)>> {
    match value {
        Some(Json::Object(members)) => {
            Some(members.as_list().iter().map(|(k, v)| (k.clone(), v.copy())).collect())
        }
        _ => None,
    }
}

fn config_from(text: &str) -> DprintxConfig {
    let json = parse_json(text).unwrap();
    DprintxConfig {
        config_dir: path(""),
        dprint: json.get("dprint").unwrap().as_str().unwrap().to_string(),
        profiles: members(json.get("profiles")).unwrap(),
        match_rules: members(json.get("match")).unwrap(),
        match_content: members(json.get("match_content")),
        diff_pager: None,
        lsp_rewrite_uris: false,
        lsp_timeout_ms: default_lsp_timeout_ms(),
        lsp_no_gitignore: default_lsp_no_gitignore(),
    }
}

/// The path of a resolution, as a path.
fn config_path(resolution: Option<ProfileResolution>) -> Option<PathBuf> {
    match resolution {
        Some(ProfileResolution::Config(path)) => Some(os_path(path)),
        _ => None,
    }
}

#[test]
fn test_expand_tilde() {
    let home = dirs::home_dir().unwrap();
    let result = os_path(expand_tilde("~/foo/bar"));
    assert_eq!(result, home.join("foo/bar"));

    let result = os_path(expand_tilde("/absolute/path"));
    assert_eq!(result, PathBuf::from("/absolute/path"));
}

#[test]
fn test_parse_full_dprintx_jsonc() {
    let input = r#"{
  // Path to real dprint binary
  "dprint": "~/.cargo/bin/dprint",
  "profiles": {
    "maintainer": "~/.config/dprint/dprint-maintainer.jsonc",
    "default": "~/.config/dprint/dprint-default.jsonc",
  },
  "match": {
    "**/noc/cmdb/**": "maintainer",
    "**/noc/invapi/**": "maintainer",
    /* catch-all */
    "**": "default",
  },
}"#;
    let json = strip_jsonc_comments(input);
    let config = config_from(&json);

    assert_eq!(config.dprint, "~/.cargo/bin/dprint");
    assert_eq!(config.profiles.len(), 2);

    // Verify match rules preserve order (first match semantics).
    let rules: Vec<(&str, &str)> = config.match_rules_iter();
    assert_eq!(rules.len(), 3);
    assert_eq!(rules[0], ("**/noc/cmdb/**", "maintainer"));
    assert_eq!(rules[1], ("**/noc/invapi/**", "maintainer"));
    assert_eq!(rules[2], ("**", "default"));

    // No match_content by default.
    assert!(config.match_content.is_none());

    // LSP defaults apply to configs written before these knobs existed.
    assert_eq!(config.lsp_timeout_ms, 30_000);
    assert!(config.lsp_no_gitignore);
}

#[test]
fn test_resolve_profile_config() {
    let config_json = r#"{
            "dprint": "/usr/bin/dprint",
            "profiles": {
                "maintainer": "/config/dprint-maintainer.jsonc",
                "default": "/config/dprint-default.jsonc"
            },
            "match": { "**": "default" }
        }"#;
    let config = config_from(config_json);

    assert_eq!(
        config.resolve_profile("maintainer"),
        Some(ProfileResolution::Config(path("/config/dprint-maintainer.jsonc")))
    );
    assert_eq!(
        config.resolve_profile("default"),
        Some(ProfileResolution::Config(path("/config/dprint-default.jsonc")))
    );
    assert_eq!(config.resolve_profile("nonexistent"), None);
}

#[test]
fn test_resolve_profile_null_ignore() {
    let config_json = r#"{
            "dprint": "/usr/bin/dprint",
            "profiles": {
                "default": "/config/dprint-default.jsonc",
                "ignore": null
            },
            "match": { "**": "default" }
        }"#;
    let config = config_from(config_json);

    assert_eq!(
        config.resolve_profile("ignore"),
        Some(ProfileResolution::Ignore)
    );
    assert_eq!(
        config.resolve_profile("default"),
        Some(ProfileResolution::Config(path("/config/dprint-default.jsonc")))
    );
}

#[test]
fn test_resolve_profile_relative_paths() {
    let config_json = r#"{
            "dprint": "./bin/dprint",
            "profiles": {
                "maintainer": "./profiles/maintainer.jsonc",
                "default": "./profiles/default.jsonc",
                "absolute": "/etc/dprint/absolute.jsonc",
                "tilde": "~/configs/tilde.jsonc",
                "ignore": null
            },
            "match": { "**": "default" }
        }"#;
    let mut config = config_from(config_json);
    config.config_dir = path("/home/user/.config/dprint");

    // Relative paths resolved against config_dir.
    assert_eq!(
        config_path(config.resolve_profile("maintainer")),
        Some(PathBuf::from(
            "/home/user/.config/dprint/profiles/maintainer.jsonc"
        ))
    );
    assert_eq!(
        config_path(config.resolve_profile("default")),
        Some(PathBuf::from(
            "/home/user/.config/dprint/profiles/default.jsonc"
        ))
    );

    // Absolute paths stay as-is.
    assert_eq!(
        config_path(config.resolve_profile("absolute")),
        Some(PathBuf::from("/etc/dprint/absolute.jsonc"))
    );

    // Tilde-expanded paths are absolute, stay as-is.
    let home = dirs::home_dir().unwrap();
    assert_eq!(
        config_path(config.resolve_profile("tilde")),
        Some(home.join("configs/tilde.jsonc"))
    );

    // Null profile stays Ignore.
    assert_eq!(
        config.resolve_profile("ignore"),
        Some(ProfileResolution::Ignore)
    );

    // dprint binary path also resolved.
    assert_eq!(
        os_path(config.dprint_path()),
        PathBuf::from("/home/user/.config/dprint/bin/dprint")
    );
}

#[test]
fn test_load_sets_config_dir() {
    let config = config_from(
        r#"{
                "dprint": "/usr/bin/dprint",
                "profiles": { "default": "/config/default.jsonc" },
                "match": { "**": "default" }
            }"#,
    );
    let config = config.load(&path("/tmp/dprintx-test-load-dir/dprintx.jsonc"));
    assert_eq!(os_path(config.config_dir.copy()), PathBuf::from("/tmp/dprintx-test-load-dir"));
    assert_eq!(config.dprint, "/usr/bin/dprint");
    assert_eq!(config.match_rules_iter(), [("**", "default")]);
}

#[test]
fn test_parse_match_content() {
    let input = r#"{
            "dprint": "/usr/bin/dprint",
            "profiles": {
                "default": "/config/default.jsonc",
                "ignore": null
            },
            "match": { "**": "default" },
            "match_content": {
                "^// Code generated .+ DO NOT EDIT\\.$": "ignore",
                "^# Code generated .+ DO NOT EDIT\\.$": "ignore"
            }
        }"#;
    let config = config_from(input);

    assert!(config.match_content.is_some());
    let rules: Vec<(&str, &str)> = config.match_content_rules_iter();
    assert_eq!(rules.len(), 2);
    assert_eq!(rules[0].1, "ignore");
    assert_eq!(rules[1].1, "ignore");
}

#[test]
fn tilde_stands_for_the_given_home() {
    assert_eq!(expand_tilde_in("~/x", Some(&path("/home/u"))).as_bytes(), b"/home/u/x");
    assert_eq!(expand_tilde_in("~//etc", Some(&path("/home/u"))).as_bytes(), b"/etc");
    assert_eq!(expand_tilde_in("~/x", None).as_bytes(), b"~/x");
    assert_eq!(expand_tilde_in("~", Some(&path("/home/u"))).as_bytes(), b"~");
    assert_eq!(expand_tilde_in("~other/x", Some(&path("/home/u"))).as_bytes(), b"~other/x");
    assert_eq!(expand_tilde_in("a/~/x", Some(&path("/home/u"))).as_bytes(), b"a/~/x");
}

#[test]
fn profiles_are_resolved_for_the_given_home() {
    let mut config = config_from(
        r#"{"dprint": "~/bin/dprint", "profiles": {"a": "~/a.jsonc", "b": "b.jsonc", "c": 1},
            "match": {}}"#,
    );
    config.config_dir = path("/etc/dprint");
    assert_eq!(
        config.resolve_profile_in("a", Some(&path("/h"))),
        Some(ProfileResolution::Config(path("/h/a.jsonc")))
    );
    assert_eq!(
        config.resolve_profile_in("a", None),
        Some(ProfileResolution::Config(path("/etc/dprint/~/a.jsonc")))
    );
    assert_eq!(
        config.resolve_profile_in("b", Some(&path("/h"))),
        Some(ProfileResolution::Config(path("/etc/dprint/b.jsonc")))
    );
    assert_eq!(config.resolve_profile_in("c", Some(&path("/h"))), None);
    assert_eq!(
        config.resolve_path_in("~/bin/dprint", Some(&path("/h"))).as_bytes(),
        b"/h/bin/dprint"
    );
}

#[test]
fn config_without_a_directory_has_none() {
    let text = r#"{"dprint": "d", "profiles": {}, "match": {}}"#;
    assert_eq!(config_from(text).load(&path("dprintx.jsonc")).config_dir.as_bytes(), b"");
    assert_eq!(config_from(text).load(&path("/")).config_dir.as_bytes(), b"");
    assert_eq!(config_from(text).load(&path("a/b.jsonc")).config_dir.as_bytes(), b"a");
}

#[test]
fn rules_that_name_no_profile_are_skipped() {
    let config = config_from(
        r#"{"dprint": "d", "profiles": {}, "match": {"z": "1", "b": 2, "a": "3", "c": null}}"#,
    );
    assert_eq!(config.match_rules_iter(), [("z", "1"), ("a", "3")]);
    assert!(config.match_content_rules_iter().is_empty());
}

#[test]
fn default_location_is_in_the_config_directory() {
    assert_eq!(
        default_config_path_in(&path("/home/u/.config")).as_bytes(),
        b"/home/u/.config/dprint/dprintx.jsonc"
    );
    match dirs::config_dir() {
        Some(dir) => assert_eq!(
            default_config_path().map(os_path),
            Ok(dir.join("dprint").join("dprintx.jsonc"))
        ),
        None => assert_eq!(default_config_path(), Err(ConfigError::NoConfigDir)),
    }
    assert_eq!(
        ConfigError::NoConfigDir.message(),
        "cannot determine config directory"
    );
}

#[test]
fn resolutions_compare_as_paths() {
    assert_eq!(
        ProfileResolution::Config(path("/a/./b")),
        ProfileResolution::Config(path("/a//b"))
    );
    assert_ne!(
        ProfileResolution::Config(path("/a/b")),
        ProfileResolution::Config(path("a/b"))
    );
    assert_eq!(ProfileResolution::Ignore, ProfileResolution::Ignore);
    assert_ne!(
        ProfileResolution::Config(path("/a")),
        ProfileResolution::Ignore
    );
}

#[test]
fn directories_need_not_be_text() {
    let home = FilePath::from_bytes(b"/home/\xff".to_vec());
    assert_eq!(home.to_text(), None);
    assert_eq!(
        expand_tilde_in("~/\u{e9}", Some(&home)).as_bytes(),
        b"/home/\xff/\xc3\xa9"
    );
    assert_eq!(
        default_config_path_in(&home).as_bytes(),
        b"/home/\xff/dprint/dprintx.jsonc"
    );
    let text = r#"{"dprint": "bin/dprint", "profiles": {"a": "a.jsonc"}, "match": {}}"#;
    let config = config_from(text).load(&default_config_path_in(&home));
    assert_eq!(config.config_dir.as_bytes(), b"/home/\xff/dprint");
    assert_eq!(
        config.resolve_path_in("bin/dprint", None).as_bytes(),
        b"/home/\xff/dprint/bin/dprint"
    );
    assert_eq!(
        config.resolve_profile_in("a", None),
        Some(ProfileResolution::Config(FilePath::from_bytes(
            b"/home/\xff/dprint/./a.jsonc".to_vec()
        )))
    );
}
