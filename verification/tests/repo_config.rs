use dprintx::excludes::ConfigExcludes;
use dprintx::repo_config::{
    candidates, config_covers, coverage_query, covered_subset, early_verdict, group_by_config,
    verdict, verdicts, RepoAnswer, Verdict,
};

fn list(items: &[&str]) -> Vec<String> {
    items.iter().map(|s| s.to_string()).collect()
}

fn dist_excluded() -> ConfigExcludes {
    ConfigExcludes::load("/r/dprint.json", &list(&["/dist"])).unwrap()
}

#[test]
fn files_without_a_config_are_unclaimed() {
    let excludes = dist_excluded();
    assert_eq!(
        verdict(None, Some(&excludes), "/r/dist/a", true),
        Verdict::Unclaimed
    );
    assert_eq!(
        early_verdict(None, None, "/r/a"),
        Some(Verdict::Unclaimed)
    );
}

#[test]
fn excludes_come_before_coverage() {
    let excludes = dist_excluded();
    let config = Some("/r/dprint.json");
    assert_eq!(
        verdict(config, Some(&excludes), "/r/dist/a.md", true),
        Verdict::Excluded
    );
    assert_eq!(
        early_verdict(config, Some(&excludes), "/r/dist/a.md"),
        Some(Verdict::Excluded)
    );
    assert_eq!(early_verdict(config, Some(&excludes), "/r/a.md"), None);
    assert_eq!(
        verdict(config, Some(&excludes), "/r/a.md", true),
        Verdict::Owned("/r/dprint.json".to_string())
    );
    assert_eq!(
        verdict(config, Some(&excludes), "/r/a.md", false),
        Verdict::Unclaimed
    );
    // Excludes that could not be loaded exclude nothing.
    assert_eq!(
        verdict(config, None, "/r/dist/a.md", true),
        Verdict::Owned("/r/dprint.json".to_string())
    );
}

#[test]
fn one_config_means_one_group() {
    let files = list(&["/r/a", "/x", "/s/b", "/r/c", "/y"]);
    let configs = vec![
        Some("/r/dprint.json".to_string()),
        None,
        Some("/s/dprint.json".to_string()),
        Some("/r/./dprint.json".to_string()),
        None,
    ];
    let groups = group_by_config(&files, &configs);
    assert_eq!(groups.len(), 3);
    assert_eq!(groups[0].config.as_deref(), Some("/r/dprint.json"));
    assert_eq!(groups[0].files, ["/r/a", "/r/c"]);
    assert_eq!(groups[1].config, None);
    assert_eq!(groups[1].files, ["/x", "/y"]);
    assert_eq!(groups[2].config.as_deref(), Some("/s/dprint.json"));
    assert_eq!(groups[2].files, ["/s/b"]);
}

#[test]
fn only_candidates_are_asked_about() {
    let excludes = dist_excluded();
    let files = list(&["/r/a.md", "/r/dist/b.md", "/r/c.md"]);
    assert_eq!(candidates(Some(&excludes), &files), ["/r/a.md", "/r/c.md"]);
    assert_eq!(candidates(None, &files), files);
}

#[test]
fn queries_run_in_the_directory_of_the_config() {
    let query = coverage_query("/r/dprint.json", &list(&["/r/a", "/r/b"])).unwrap();
    assert_eq!(
        query.args,
        ["output-file-paths", "--config", "/r/dprint.json", "/r/a", "/r/b"]
    );
    assert_eq!(query.dir, "/r");
    assert!(coverage_query("/r/dprint.json", &[].to_vec()).is_none());
    assert!(coverage_query("/", &list(&["/r/a"])).is_none());
}

#[test]
fn coverage_is_success_and_output() {
    assert!(config_covers(true, b"/r/a\n"));
    assert!(!config_covers(true, b""));
    assert!(!config_covers(false, b"/r/a\n"));
}

#[test]
fn listed_files_are_covered() {
    let files = list(&["a", "b/../c", "d"]);
    let resolved = list(&["/r/a", "/r/c", "/r/d"]);
    assert_eq!(
        covered_subset(&files, &resolved, Some("/r//a\r\n/r/c\n/r/x")),
        ["a", "b/../c"]
    );
    assert!(covered_subset(&files, &resolved, Some("")).is_empty());
    assert!(covered_subset(&files, &resolved, None).is_empty());
}

#[test]
fn many_verdicts_agree_with_single_ones() {
    let files = list(&["/r/a.md", "/r/dist/b.md", "/r/c.ts", "/x.md", "/s/d.md"]);
    let configs = vec![
        Some("/r/dprint.json".to_string()),
        Some("/r/dprint.json".to_string()),
        Some("/r/dprint.json".to_string()),
        None,
        Some("/s/dprint.json".to_string()),
    ];
    let answers = vec![
        RepoAnswer {
            config: "/r/dprint.json".to_string(),
            excludes: Some(dist_excluded()),
            covered: list(&["/r/./a.md"]),
        },
        RepoAnswer {
            config: "/s/dprint.json".to_string(),
            excludes: None,
            covered: list(&["/s/d.md", "/r/c.ts"]),
        },
    ];
    let all = verdicts(&files, &configs, &answers);
    assert_eq!(all.len(), files.len());
    let expected = [
        Verdict::Owned("/r/dprint.json".to_string()),
        Verdict::Excluded,
        Verdict::Unclaimed,
        Verdict::Unclaimed,
        Verdict::Owned("/s/dprint.json".to_string()),
    ];
    for (i, (file, claim)) in all.iter().enumerate() {
        assert_eq!(file, &files[i]);
        assert_eq!(claim, &expected[i]);
        let own = configs[i].as_deref().filter(|c| *c == "/r/dprint.json");
        assert_eq!(
            &verdict(
                configs[i].as_deref(),
                own.and(answers[0].excludes.as_ref()),
                file,
                i == 0 || i == 4
            ),
            claim
        );
    }
}

#[test]
fn repeated_files_get_one_verdict() {
    let files = list(&["/r/a.md", "/x", "/r/./a.md", "/r/a.md", "/x"]);
    let config = Some("/r/dprint.json".to_string());
    let configs = vec![config.clone(), None, config.clone(), config, None];
    let answers = vec![RepoAnswer {
        config: "/r/dprint.json".to_string(),
        excludes: None,
        covered: list(&["/r/a.md"]),
    }];
    let all = verdicts(&files, &configs, &answers);
    assert_eq!(
        all,
        [
            (
                "/r/a.md".to_string(),
                Verdict::Owned("/r/dprint.json".to_string())
            ),
            ("/x".to_string(), Verdict::Unclaimed),
        ]
    );
    assert!(verdicts(&vec![], &vec![], &answers).is_empty());
}

#[test]
fn verdicts_compare_configs_as_paths() {
    assert_eq!(
        Verdict::Owned("/a/./b".to_string()),
        Verdict::Owned("/a/b/".to_string())
    );
    assert_ne!(
        Verdict::Owned("/a/b".to_string()),
        Verdict::Owned("/a/c".to_string())
    );
    assert_ne!(Verdict::Excluded, Verdict::Unclaimed);
    assert_ne!(Verdict::Owned("/a".to_string()), Verdict::Excluded);
}

#[test]
fn spelling_that_is_not_excluded_counts() {
    let config = Some("/r/dprint.json".to_string());
    let configs = vec![config.clone(), config];
    let excludes = || ConfigExcludes::load("/r/dprint.json", &list(&["/a/b"])).unwrap();
    assert_eq!(
        verdict(Some("/r/dprint.json"), Some(&excludes()), "/r/a/b", true),
        Verdict::Excluded
    );
    assert_eq!(
        verdict(Some("/r/dprint.json"), Some(&excludes()), "/r/a/./b", true),
        Verdict::Owned("/r/dprint.json".to_string())
    );
    for files in [list(&["/r/a/b", "/r/a/./b"]), list(&["/r/a/./b", "/r/a/b"])] {
        for covered in [list(&["/r/a/b"]), list(&[])] {
            let expected = if covered.is_empty() {
                Verdict::Unclaimed
            } else {
                Verdict::Owned("/r/dprint.json".to_string())
            };
            let answers = vec![RepoAnswer {
                config: "/r/dprint.json".to_string(),
                excludes: Some(excludes()),
                covered,
            }];
            let all = verdicts(&files, &configs, &answers);
            assert_eq!(all, [(files[0].clone(), expected)]);
        }
    }
    let answers = vec![RepoAnswer {
        config: "/r/dprint.json".to_string(),
        excludes: Some(excludes()),
        covered: list(&["/r/a/b"]),
    }];
    let twice = list(&["/r/a/b", "/r/a/b"]);
    assert_eq!(
        verdicts(&twice, &configs, &answers),
        [("/r/a/b".to_string(), Verdict::Excluded)]
    );
}
