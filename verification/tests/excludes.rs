use dprintx::excludes::{collect, extends_targets, ConfigExcludes, ExcludeError, ExtendsWalk};
use dprintx::json::parse_json;

/// The excludes of a config among files in a directory.
fn load(dir: &str, config: &str, files: &[(&str, &str)]) -> ConfigExcludes {
    let list: Vec<(String, String)> = files
        .iter()
        .map(|(name, text)| (format!("{dir}/{name}"), text.to_string()))
        .collect();
    let path = format!("{dir}/{config}");
    let patterns = collect_spelled(&path, &list);
    ConfigExcludes::load(&path, &patterns).unwrap()
}

/// Visits a config, taking files by their path however it is spelled.
fn collect_spelled(path: &str, files: &[(String, String)]) -> Vec<String> {
    let mut walk = ExtendsWalk::start(path);
    while let Some(next) = walk.next().map(|s| s.to_string()) {
        let content = files
            .iter()
            .find(|(name, _)| std::path::Path::new(name) == std::path::Path::new(&next))
            .map(|(_, text)| text.as_str());
        walk.feed(content);
    }
    walk.into_patterns()
}

fn excluded(excludes: &ConfigExcludes, dir: &str, file: &str) -> bool {
    let path = format!("{dir}/{file}");
    assert!(excludes.is_askable(&path));
    excludes.excludes(&path)
}

#[test]
fn matches_directory_pattern() {
    let dir = "/tmp/dprintx-excludes-dirpat";
    let ex = load(
        dir,
        "dprint.json",
        &[("dprint.json", r#"{"excludes": ["**/zig-out", "/dist"]}"#)],
    );

    assert!(excluded(&ex, dir, "zig-out/build.md"));
    assert!(excluded(&ex, dir, "nested/zig-out/build.md"));
    assert!(excluded(&ex, dir, "dist/app.js"));
    assert!(!excluded(&ex, dir, "src/main.zig"));

    // `/dist` is anchored at the config dir, so a nested dist is untouched.
    assert!(!excluded(&ex, dir, "sub/dist/app.js"));
}

#[test]
fn matches_dprint_on_a_real_config() {
    let dir = "/tmp/dprintx-excludes-real";
    let ex = load(
        dir,
        ".dprint.jsonc",
        &[(
            ".dprint.jsonc",
            r#"{
                     // trailing comma and comments, as a real jsonc config has
                     "excludes": ["**/.zig-cache", "**/zig-out", "**/.ci/bin"],
                   }"#,
        )],
    );

    assert!(excluded(&ex, dir, "zig-out/probe.md"));
    assert!(excluded(&ex, dir, ".zig-cache/probe.md"));
    assert!(excluded(&ex, dir, ".ci/bin/probe.md"));
    assert!(excluded(&ex, dir, "node_modules/pkg/probe.md"));

    assert!(!excluded(&ex, dir, "probe.md"));
    assert!(!excluded(&ex, dir, ".ci/drift.sh"));
    assert!(!excluded(&ex, dir, ".github/workflows/ci.yml"));
}

#[test]
fn node_modules_excluded_without_being_configured() {
    let dir = "/tmp/dprintx-excludes-implicit";
    let ex = load(dir, "dprint.json", &[("dprint.json", "{}")]);

    assert!(excluded(&ex, dir, "node_modules/pkg/index.js"));
}

#[test]
fn negated_pattern_opts_back_in() {
    let dir = "/tmp/dprintx-excludes-negated";
    let ex = load(
        dir,
        "dprint.json",
        &[("dprint.json", r#"{"excludes": ["**/*.md", "!README.md"]}"#)],
    );

    assert!(excluded(&ex, dir, "docs/guide.md"));
    assert!(!excluded(&ex, dir, "README.md"));
}

#[test]
fn inherits_excludes_through_extends() {
    let dir = "/tmp/dprintx-excludes-extends";
    let ex = load(
        dir,
        "dprint.json",
        &[
            (
                "dprint.json",
                r#"{"extends": "./base.json", "excludes": ["/own"]}"#,
            ),
            ("base.json", r#"{"excludes": ["/inherited"]}"#),
        ],
    );

    assert!(excluded(&ex, dir, "own/a.md"));
    assert!(excluded(&ex, dir, "inherited/a.md"));
}

#[test]
fn extends_array_and_remote_entries() {
    let dir = "/tmp/dprintx-excludes-extends-array";
    let ex = load(
        dir,
        "dprint.json",
        &[
            (
                "dprint.json",
                r#"{"extends": ["https://example.com/remote.json", "./local.json"]}"#,
            ),
            ("local.json", r#"{"excludes": ["/vendor"]}"#),
        ],
    );

    // The remote entry is skipped rather than fetched, and the local one
    // beside it still contributes.
    assert!(excluded(&ex, dir, "vendor/lib.go"));
}

#[test]
fn extends_cycle_terminates() {
    let dir = "/tmp/dprintx-excludes-cycle";
    let ex = load(
        dir,
        "a.json",
        &[
            ("a.json", r#"{"extends": "./b.json", "excludes": ["/x"]}"#),
            ("b.json", r#"{"extends": "./a.json"}"#),
        ],
    );

    assert!(excluded(&ex, dir, "x/file.md"));
}

#[test]
fn paths_outside_config_dir_are_not_excluded() {
    let dir = "/tmp/dprintx-excludes-outside";
    let ex = load(
        dir,
        "dprint.json",
        &[("dprint.json", r#"{"excludes": ["**/*.md"]}"#)],
    );

    assert!(excluded(&ex, dir, "a.md"));
    assert!(ex.is_askable("/somewhere/else/a.md"));
    assert!(!ex.excludes("/somewhere/else/a.md"));
}

#[test]
fn missing_or_broken_config_excludes_nothing_beyond_defaults() {
    let dir = "/tmp/dprintx-excludes-broken";
    let ex = load(dir, "dprint.json", &[("dprint.json", "{ this is not json")]);

    assert!(!excluded(&ex, dir, "a.md"));
    assert!(excluded(&ex, dir, "node_modules/x.js"));

    let none = load(dir, "dprint.json", &[]);
    assert!(!excluded(&none, dir, "a.md"));
}

#[test]
fn cycles_are_cut_off_at_the_depth_limit() {
    let files = vec![(
        "a.json".to_string(),
        r#"{"extends": "a.json", "excludes": ["/x"]}"#.to_string(),
    )];
    let patterns = collect("a.json", &files);
    assert_eq!(patterns, vec!["/x".to_string(); 25]);
}

#[test]
fn files_are_visited_in_order() {
    let files: Vec<(String, String)> = [
        ("/r/a.json", r#"{"extends": ["b.json", "sub/c.json"], "excludes": ["1", 2, "3"]}"#),
        ("/r/b.json", r#"{"extends": "sub/d.json", "excludes": ["4"]}"#),
        ("/r/sub/c.json", r#"{"excludes": ["5"], "extends": "d.json"}"#),
        ("/r/sub/d.json", r#"{"excludes": ["6"]}"#),
    ]
    .iter()
    .map(|(name, text)| (name.to_string(), text.to_string()))
    .collect();
    assert_eq!(
        collect("/r/a.json", &files),
        ["1", "3", "4", "6", "5", "6"]
    );
    assert_eq!(
        collect_spelled("/r/a.json", &files),
        collect("/r/a.json", &files)
    );
    assert!(collect("/r/missing.json", &files).is_empty());
}

#[test]
fn targets_are_a_string_or_a_list() {
    let targets = |text: &str| extends_targets(&parse_json(text).unwrap());
    assert_eq!(targets(r#"{"extends": "a"}"#), ["a"]);
    assert_eq!(targets(r#"{"extends": ["a", 1, "b"]}"#), ["a", "b"]);
    assert!(targets(r#"{"extends": 1}"#).is_empty());
    assert!(targets("{}").is_empty());
    assert!(targets("[]").is_empty());
}

#[test]
fn remote_targets_are_not_visited() {
    let files = vec![(
        "a.json".to_string(),
        r#"{"extends": ["http://x", "https://y", "httpz", "/abs.json"]}"#.to_string(),
    )];
    let mut walk = ExtendsWalk::start("a.json");
    let mut visited = Vec::new();
    while let Some(next) = walk.next().map(|s| s.to_string()) {
        let content = files.iter().find(|(n, _)| *n == next).map(|(_, t)| t.as_str());
        visited.push(next);
        walk.feed(content);
    }
    assert_eq!(visited, ["a.json", "httpz", "/abs.json"]);
}

#[test]
fn invalid_patterns_are_reported() {
    let patterns = vec!["ok".to_string(), "{a,b".to_string(), "{c,d".to_string()];
    match ConfigExcludes::load("/r/dprint.json", &patterns) {
        Err(ExcludeError::InvalidPattern(pattern)) => assert_eq!(pattern, "{a,b"),
        other => panic!("expected an invalid pattern, got {other:?}"),
    }
}

#[test]
fn comments_and_blank_lines_are_no_patterns() {
    let patterns = vec!["# *.md".to_string(), "  ".to_string(), "*.txt  ".to_string()];
    let ex = ConfigExcludes::load("/r/dprint.json", &patterns).unwrap();
    assert!(!ex.excludes("/r/a.md"));
    assert!(ex.excludes("/r/a.txt"));
    assert!(!ex.excludes("/r/a.rs"));
}

#[test]
fn relative_configs_see_relative_files() {
    let patterns = vec!["/dist".to_string()];
    let ex = ConfigExcludes::load("dprint.json", &patterns).unwrap();
    assert!(ex.excludes("dist/a.js"));
    assert!(!ex.excludes("src/dist/a.js"));
    // An absolute file is seen from nowhere, with its root cut off once.
    assert!(ex.is_askable("/dist/a.js"));
    assert!(ex.excludes("/dist/a.js"));
    assert!(!ex.is_askable("//dist/a.js"));
    let nested = ConfigExcludes::load("a/dprint.json", &patterns).unwrap();
    assert!(!nested.is_askable("a/a//b"));
    assert!(nested.is_askable("a/a/b"));
}
