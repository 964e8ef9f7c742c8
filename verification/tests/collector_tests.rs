use contribution_showcase::breakdown::{build_project_data, build_type_breakdown};
use contribution_showcase::commit::{commit_kind, parse_conventional_commit, type_label};
use contribution_showcase::config::{Config, FilterConfig};
use contribution_showcase::filter::apply_filters;
use contribution_showcase::gitlog::parse_shortstat;
use contribution_showcase::model::{sum_lines, CommitEntry, ProposalEntry};
use contribution_showcase::testmetrics::{is_excluded_dir, is_test_file};
use contribution_showcase::timeline::{build_timeline, TimelineEntry};

fn buckets(commits: &[CommitEntry]) -> Vec<TimelineEntry> {
    build_timeline(commits).buckets
}

fn make_commit(date: &str, insertions: usize, deletions: usize) -> CommitEntry {
    CommitEntry {
        hash: "abc123".to_string(),
        date: date.to_string(),
        commit_type: "feat".to_string(),
        scope: String::new(),
        subject: "test".to_string(),
        project: "test".to_string(),
        insertions,
        deletions,
    }
}

/// The type and scope recorded for a commit of the named project.
fn apply_wiki_override(project_name: &str, subject: &str) -> (String, String) {
    commit_kind(project_name, subject)
}

#[test]
fn test_parse_conventional_commit_feat() {
    let (t, s) = parse_conventional_commit("feat: add login");
    assert_eq!(t, "feat");
    assert_eq!(s, "");
}

#[test]
fn test_parse_conventional_commit_with_scope() {
    let (t, s) = parse_conventional_commit("fix(auth): token refresh");
    assert_eq!(t, "fix");
    assert_eq!(s, "auth");
}

#[test]
fn test_parse_conventional_commit_breaking() {
    let (t, s) = parse_conventional_commit("feat!: remove API");
    assert_eq!(t, "feat");
    assert_eq!(s, "");
}

#[test]
fn test_parse_conventional_commit_non_matching() {
    let (t, s) = parse_conventional_commit("Initial commit");
    assert_eq!(t, "other");
    assert_eq!(s, "");
}

#[test]
fn test_parse_conventional_commit_merge() {
    let (t, s) = parse_conventional_commit("Merge branch 'dev'");
    assert_eq!(t, "other");
    assert_eq!(s, "");
}

#[test]
fn test_parse_conventional_commit_empty_scope() {
    let (t, s) = parse_conventional_commit("docs(): update");
    assert_eq!(t, "docs");
    assert_eq!(s, "");
}

#[test]
fn test_parse_conventional_commit_breaking_with_scope() {
    let (t, s) = parse_conventional_commit("refactor(core)!: restructure");
    assert_eq!(t, "refactor");
    assert_eq!(s, "core");
}

#[test]
fn test_parse_conventional_commit_empty_string() {
    let (t, s) = parse_conventional_commit("");
    assert_eq!(t, "other");
    assert_eq!(s, "");
}

#[test]
fn test_type_label_known_types() {
    assert_eq!(type_label("feat"), "新功能");
    assert_eq!(type_label("fix"), "錯誤修復");
    assert_eq!(type_label("docs"), "文件");
    assert_eq!(type_label("refactor"), "重構");
    assert_eq!(type_label("test"), "測試");
    assert_eq!(type_label("chore"), "維護");
    assert_eq!(type_label("ci"), "CI/CD");
    assert_eq!(type_label("build"), "建構");
    assert_eq!(type_label("style"), "格式");
    assert_eq!(type_label("perf"), "效能");
}

#[test]
fn test_type_label_unknown_fallback() {
    assert_eq!(type_label("unknown"), "其他");
    assert_eq!(type_label("random"), "其他");
    assert_eq!(type_label(""), "其他");
}

#[test]
fn test_wiki_override_feat_becomes_docs() {
    let (t, s) = apply_wiki_override("my-project.wiki", "feat(nav): add sidebar");
    assert_eq!(t, "docs");
    assert_eq!(s, "nav");
}

#[test]
fn test_wiki_override_non_conventional_becomes_docs() {
    let (t, s) = apply_wiki_override("my-project.wiki", "Update architecture page");
    assert_eq!(t, "docs");
    assert_eq!(s, "");
}

#[test]
fn test_wiki_override_already_docs_stays_docs() {
    let (t, s) = apply_wiki_override("my-project.wiki", "docs: update readme");
    assert_eq!(t, "docs");
    assert_eq!(s, "");
}

#[test]
fn test_non_wiki_project_not_overridden() {
    let (t, _) = apply_wiki_override("my-frontend", "feat: add map");
    assert_eq!(t, "feat");
}

#[test]
fn test_contains_wiki_but_not_suffix_not_overridden() {
    let (t, _) = apply_wiki_override("my-project.wiki-tools", "feat: add parser");
    assert_eq!(t, "feat");
}

#[test]
fn test_uppercase_wiki_not_overridden() {
    let (t, _) = apply_wiki_override("my-project.WIKI", "feat: add page");
    assert_eq!(t, "feat");
}


#[test]
fn test_apply_filters_date_range() {
    let commits = vec![
        CommitEntry {
            hash: "a".to_string(),
            date: "2024-01-01".to_string(),
            commit_type: "feat".to_string(),
            scope: "".to_string(),
            subject: "A".to_string(),
            project: "test".to_string(),
            insertions: 0,
            deletions: 0,
        },
        CommitEntry {
            hash: "b".to_string(),
            date: "2024-06-15".to_string(),
            commit_type: "fix".to_string(),
            scope: "".to_string(),
            subject: "B".to_string(),
            project: "test".to_string(),
            insertions: 0,
            deletions: 0,
        },
        CommitEntry {
            hash: "c".to_string(),
            date: "2024-12-31".to_string(),
            commit_type: "docs".to_string(),
            scope: "".to_string(),
            subject: "C".to_string(),
            project: "test".to_string(),
            insertions: 0,
            deletions: 0,
        },
    ];
    let proposals = vec![];
    let config = Config {
        title: None,
        output: None,
        projects: vec![],
        filters: Some(FilterConfig {
            author: None,
            since: Some("2024-03-01".to_string()),
            until: Some("2024-09-01".to_string()),
            types: None,
            exclude_hashes: None,
        }),
    };
    let (filtered, _) = apply_filters(&commits, &proposals, &config);
    assert_eq!(filtered.len(), 1);
    assert_eq!(filtered[0].hash, "b");
}

#[test]
fn test_apply_filters_date_range_inclusive() {
    let commits = vec![
        CommitEntry {
            hash: "a".to_string(),
            date: "2024-01-01".to_string(),
            commit_type: "feat".to_string(),
            scope: "".to_string(),
            subject: "A".to_string(),
            project: "test".to_string(),
            insertions: 0,
            deletions: 0,
        },
        CommitEntry {
            hash: "b".to_string(),
            date: "2024-12-31".to_string(),
            commit_type: "fix".to_string(),
            scope: "".to_string(),
            subject: "B".to_string(),
            project: "test".to_string(),
            insertions: 0,
            deletions: 0,
        },
    ];
    let proposals = vec![];
    let config = Config {
        title: None,
        output: None,
        projects: vec![],
        filters: Some(FilterConfig {
            author: None,
            since: Some("2024-01-01".to_string()),
            until: Some("2024-12-31".to_string()),
            types: None,
            exclude_hashes: None,
        }),
    };
    let (filtered, _) = apply_filters(&commits, &proposals, &config);
    assert_eq!(filtered.len(), 2, "Boundary dates should be inclusive");
}

#[test]
fn test_apply_filters_type_filter() {
    let commits = vec![
        CommitEntry {
            hash: "a".to_string(),
            date: "2024-01-01".to_string(),
            commit_type: "feat".to_string(),
            scope: "".to_string(),
            subject: "A".to_string(),
            project: "test".to_string(),
            insertions: 0,
            deletions: 0,
        },
        CommitEntry {
            hash: "b".to_string(),
            date: "2024-01-02".to_string(),
            commit_type: "fix".to_string(),
            scope: "".to_string(),
            subject: "B".to_string(),
            project: "test".to_string(),
            insertions: 0,
            deletions: 0,
        },
        CommitEntry {
            hash: "c".to_string(),
            date: "2024-01-03".to_string(),
            commit_type: "docs".to_string(),
            scope: "".to_string(),
            subject: "C".to_string(),
            project: "test".to_string(),
            insertions: 0,
            deletions: 0,
        },
    ];
    let proposals = vec![];
    let config = Config {
        title: None,
        output: None,
        projects: vec![],
        filters: Some(FilterConfig {
            author: None,
            since: None,
            until: None,
            types: Some(vec!["feat".to_string(), "fix".to_string()]),
            exclude_hashes: None,
        }),
    };
    let (filtered, _) = apply_filters(&commits, &proposals, &config);
    assert_eq!(filtered.len(), 2);
}

#[test]
fn test_apply_filters_excludes_hash() {
    let commits = vec![
        CommitEntry {
            hash: "aaa111".to_string(),
            date: "2024-01-01".to_string(),
            commit_type: "feat".to_string(),
            scope: String::new(),
            subject: "feat: keep".to_string(),
            project: "test".to_string(),
            insertions: 0,
            deletions: 0,
        },
        CommitEntry {
            hash: "bbb222".to_string(),
            date: "2024-01-02".to_string(),
            commit_type: "fix".to_string(),
            scope: String::new(),
            subject: "fix: drop".to_string(),
            project: "test".to_string(),
            insertions: 0,
            deletions: 0,
        },
    ];
    let proposals = vec![];
    let config = Config {
        title: None,
        output: None,
        projects: vec![],
        filters: Some(FilterConfig {
            author: None,
            since: None,
            until: None,
            types: None,
            exclude_hashes: Some(vec!["bbb222".to_string()]),
        }),
    };
    let (filtered, _) = apply_filters(&commits, &proposals, &config);
    assert_eq!(filtered.len(), 1);
    assert_eq!(filtered[0].hash, "aaa111");
}

#[test]
fn test_apply_filters_retains_all_when_exclude_hashes_none() {
    let commits = vec![
        CommitEntry {
            hash: "aaa111".to_string(),
            date: "2024-01-01".to_string(),
            commit_type: "feat".to_string(),
            scope: String::new(),
            subject: "feat: a".to_string(),
            project: "test".to_string(),
            insertions: 0,
            deletions: 0,
        },
        CommitEntry {
            hash: "bbb222".to_string(),
            date: "2024-01-02".to_string(),
            commit_type: "fix".to_string(),
            scope: String::new(),
            subject: "fix: b".to_string(),
            project: "test".to_string(),
            insertions: 0,
            deletions: 0,
        },
    ];
    let proposals = vec![];
    let config = Config {
        title: None,
        output: None,
        projects: vec![],
        filters: Some(FilterConfig {
            author: None,
            since: None,
            until: None,
            types: None,
            exclude_hashes: None,
        }),
    };
    let (filtered, _) = apply_filters(&commits, &proposals, &config);
    assert_eq!(filtered.len(), 2);
}

#[test]
fn test_apply_filters_retains_all_when_exclude_hashes_empty_vec() {
    let commits = vec![CommitEntry {
        hash: "aaa111".to_string(),
        date: "2024-01-01".to_string(),
        commit_type: "feat".to_string(),
        scope: String::new(),
        subject: "feat: a".to_string(),
        project: "test".to_string(),
        insertions: 0,
        deletions: 0,
    }];
    let proposals = vec![];
    let config = Config {
        title: None,
        output: None,
        projects: vec![],
        filters: Some(FilterConfig {
            author: None,
            since: None,
            until: None,
            types: None,
            exclude_hashes: Some(vec![]),
        }),
    };
    let (filtered, _) = apply_filters(&commits, &proposals, &config);
    assert_eq!(
        filtered.len(),
        1,
        "Empty exclude list should retain all commits"
    );
}

#[test]
fn test_apply_filters_retains_all_when_no_matching_hash() {
    let commits = vec![
        CommitEntry {
            hash: "aaa111".to_string(),
            date: "2024-01-01".to_string(),
            commit_type: "feat".to_string(),
            scope: String::new(),
            subject: "feat: a".to_string(),
            project: "test".to_string(),
            insertions: 0,
            deletions: 0,
        },
        CommitEntry {
            hash: "bbb222".to_string(),
            date: "2024-01-02".to_string(),
            commit_type: "fix".to_string(),
            scope: String::new(),
            subject: "fix: b".to_string(),
            project: "test".to_string(),
            insertions: 0,
            deletions: 0,
        },
    ];
    let proposals = vec![];
    let config = Config {
        title: None,
        output: None,
        projects: vec![],
        filters: Some(FilterConfig {
            author: None,
            since: None,
            until: None,
            types: None,
            exclude_hashes: Some(vec!["zzz999".to_string()]),
        }),
    };
    let (filtered, _) = apply_filters(&commits, &proposals, &config);
    assert_eq!(filtered.len(), 2);
}

#[test]
fn test_apply_filters_short_prefix_does_not_exclude() {
    let commits = vec![CommitEntry {
        hash: "dd33ee63950bb49a284de835528343561f1a70d5".to_string(),
        date: "2024-01-01".to_string(),
        commit_type: "feat".to_string(),
        scope: String::new(),
        subject: "feat: a".to_string(),
        project: "test".to_string(),
        insertions: 0,
        deletions: 0,
    }];
    let proposals = vec![];
    let config = Config {
        title: None,
        output: None,
        projects: vec![],
        filters: Some(FilterConfig {
            author: None,
            since: None,
            until: None,
            types: None,
            exclude_hashes: Some(vec!["dd33ee63".to_string()]),
        }),
    };
    let (filtered, _) = apply_filters(&commits, &proposals, &config);
    assert_eq!(filtered.len(), 1, "Short prefix should not match full hash");
}

#[test]
fn test_apply_filters_proposals_date_range() {
    let commits = vec![];
    let proposals = vec![
        ProposalEntry {
            slug: "early".to_string(),
            date: "2024-01-01".to_string(),
            project: "proj".to_string(),
            description: "early".to_string(),
            task_count: 1,
        },
        ProposalEntry {
            slug: "mid".to_string(),
            date: "2024-06-15".to_string(),
            project: "proj".to_string(),
            description: "mid".to_string(),
            task_count: 2,
        },
        ProposalEntry {
            slug: "late".to_string(),
            date: "2024-12-31".to_string(),
            project: "proj".to_string(),
            description: "late".to_string(),
            task_count: 3,
        },
    ];
    let config = Config {
        title: None,
        output: None,
        projects: vec![],
        filters: Some(FilterConfig {
            author: None,
            since: Some("2024-03-01".to_string()),
            until: Some("2024-09-01".to_string()),
            types: None,
            exclude_hashes: None,
        }),
    };
    let (_, filtered_proposals) = apply_filters(&commits, &proposals, &config);
    assert_eq!(filtered_proposals.len(), 1);
    assert_eq!(filtered_proposals[0].slug, "mid");
}

#[test]
fn test_apply_filters_no_filters() {
    let commits = vec![CommitEntry {
        hash: "a".to_string(),
        date: "2024-01-01".to_string(),
        commit_type: "feat".to_string(),
        scope: String::new(),
        subject: "feat: a".to_string(),
        project: "test".to_string(),
        insertions: 0,
        deletions: 0,
    }];
    let proposals = vec![];
    let config = Config {
        title: None,
        output: None,
        projects: vec![],
        filters: None,
    };
    let (filtered, _) = apply_filters(&commits, &proposals, &config);
    assert_eq!(filtered.len(), 1);
}


#[test]
fn test_shortstat_parsing_insertions_only() {
    let (ins, del) = parse_shortstat("3 files changed, 42 insertions(+)");
    assert_eq!(ins, 42);
    assert_eq!(del, 0);
}

#[test]
fn test_shortstat_parsing_deletions_only() {
    let (ins, del) = parse_shortstat("1 file changed, 5 deletions(-)");
    assert_eq!(ins, 0);
    assert_eq!(del, 5);
}

#[test]
fn test_shortstat_parsing_both() {
    let (ins, del) = parse_shortstat("2 files changed, 10 insertions(+), 3 deletions(-)");
    assert_eq!(ins, 10);
    assert_eq!(del, 3);
}

#[test]
fn test_parse_shortstat_empty_string() {
    let (ins, del) = parse_shortstat("");
    assert_eq!(ins, 0);
    assert_eq!(del, 0);
}

#[test]
fn test_parse_shortstat_whitespace_only() {
    let (ins, del) = parse_shortstat("   ");
    assert_eq!(ins, 0);
    assert_eq!(del, 0);
}


#[test]
fn test_is_excluded_dir_all_excluded() {
    let excluded = [
        "node_modules",
        "target",
        ".venv",
        "__pycache__",
        ".git",
        "dist",
        ".tox",
    ];
    for name in &excluded {
        assert!(is_excluded_dir(name), "'{}' should be excluded", name);
    }
}

#[test]
fn test_is_excluded_dir_non_excluded() {
    let allowed = ["src", "tests", "lib", "docs", "build", "bin"];
    for name in &allowed {
        assert!(!is_excluded_dir(name), "'{}' should not be excluded", name);
    }
}

#[test]
fn test_is_test_file_pytest_patterns() {
    assert!(is_test_file("test_foo.py", "pytest"));
    assert!(is_test_file("foo_test.py", "pytest"));
    assert!(!is_test_file("foo.py", "pytest"));
    assert!(!is_test_file("test_foo.rs", "pytest"));
}

#[test]
fn test_is_test_file_vitest_jest_patterns() {
    assert!(is_test_file("foo.test.ts", "vitest"));
    assert!(is_test_file("bar.spec.js", "jest"));
    assert!(is_test_file("baz.test.tsx", "vitest"));
    assert!(!is_test_file("foo.ts", "vitest"));
    assert!(!is_test_file("foo.ts", "jest"));
}

#[test]
fn test_is_test_file_cargo_patterns() {
    assert!(is_test_file("foo.rs", "cargo test"));
    assert!(!is_test_file("foo.py", "cargo test"));
    // No extension → false
    assert!(!is_test_file("Makefile", "cargo test"));
}

#[test]
fn test_is_test_file_unknown_framework() {
    assert!(!is_test_file("test_foo.py", "unknown"));
    assert!(!is_test_file("foo.rs", "none"));
}

#[test]
fn test_is_test_file_deno_test_patterns() {
    assert!(is_test_file("parser_test.ts", "deno test"));
    assert!(is_test_file("parser_test.js", "deno test"));
    assert!(is_test_file("parser_test.mjs", "deno test"));
    assert!(is_test_file("foo.test.ts", "deno test"));
    assert!(!is_test_file("parser.ts", "deno test"));
    assert!(!is_test_file("parser.js", "deno test"));
}


#[test]
fn test_build_timeline_weekly_aggregation() {
    let commits = vec![
        CommitEntry {
            hash: "a".to_string(),
            date: "2024-01-01".to_string(),
            commit_type: "feat".to_string(),
            scope: "".to_string(),
            subject: "feat: A".to_string(),
            project: "test".to_string(),
            insertions: 10,
            deletions: 5,
        },
        CommitEntry {
            hash: "b".to_string(),
            date: "2024-01-02".to_string(),
            commit_type: "fix".to_string(),
            scope: "".to_string(),
            subject: "fix: B".to_string(),
            project: "test".to_string(),
            insertions: 20,
            deletions: 3,
        },
        CommitEntry {
            hash: "c".to_string(),
            date: "2024-01-15".to_string(),
            commit_type: "docs".to_string(),
            scope: "".to_string(),
            subject: "docs: C".to_string(),
            project: "test".to_string(),
            insertions: 7,
            deletions: 2,
        },
    ];
    let timeline = buckets(&commits);
    assert!(timeline.len() >= 2, "Should have at least 2 week buckets");
    let total: usize = timeline.iter().map(|t| t.lines).sum();
    assert_eq!(total, 10 + 5 + 20 + 3 + 7 + 2);
}

#[test]
fn test_zero_stat_commits_contribute_zero_to_timeline() {
    let commits = vec![CommitEntry {
        hash: "z1".to_string(),
        date: "2024-03-01".to_string(),
        commit_type: "feat".to_string(),
        scope: String::new(),
        subject: "feat: empty".to_string(),
        project: "test".to_string(),
        insertions: 0,
        deletions: 0,
    }];
    let timeline = buckets(&commits);
    assert_eq!(timeline.len(), 1);
    assert_eq!(timeline[0].lines, 0);
}

#[test]
fn test_build_timeline_empty_commits() {
    let timeline = buckets(&[]);
    assert!(timeline.is_empty());
}

#[test]
fn test_build_timeline_daily_granularity() {
    let commits = vec![
        make_commit("2025-03-10", 10, 5),
        make_commit("2025-03-12", 20, 3),
        make_commit("2025-03-15", 7, 2),
    ];
    let timeline = buckets(&commits);
    // Contiguous daily buckets from 03-10 to 03-15 = 6 days
    assert_eq!(timeline.len(), 6);
    assert!(timeline.iter().all(|t| t.label.len() == 10)); // %Y-%m-%d
    assert_eq!(timeline[0].label, "2025-03-10");
    assert_eq!(timeline[0].lines, 15); // 10+5
    assert_eq!(timeline[1].label, "2025-03-11");
    assert_eq!(timeline[1].lines, 0); // gap day
    assert_eq!(timeline[2].label, "2025-03-12");
    assert_eq!(timeline[2].lines, 23); // 20+3
    assert_eq!(timeline[5].label, "2025-03-15");
    assert_eq!(timeline[5].lines, 9); // 7+2
}

#[test]
fn test_build_timeline_weekly_granularity() {
    let commits = vec![
        make_commit("2025-03-01", 10, 5),
        make_commit("2025-03-15", 20, 3),
        make_commit("2025-03-31", 7, 2),
    ];
    let timeline = buckets(&commits);
    assert!(timeline.iter().all(|t| t.label.contains("-W")));
    let total: usize = timeline.iter().map(|t| t.lines).sum();
    assert_eq!(total, 10 + 5 + 20 + 3 + 7 + 2);
}

#[test]
fn test_build_timeline_monthly_granularity() {
    // Span ~8 months: > 14 distinct weeks, ≤ 14 months → monthly
    let commits = vec![
        make_commit("2025-01-15", 10, 5),
        make_commit("2025-06-01", 20, 3),
        make_commit("2025-08-15", 7, 2),
    ];
    let timeline = buckets(&commits);
    // Contiguous monthly buckets from 2025-01 to 2025-08 = 8 months
    assert_eq!(timeline.len(), 8);
    assert!(timeline.iter().all(|t| t.label.len() == 7)); // %Y-%m
    assert_eq!(timeline[0].label, "2025-01");
    assert_eq!(timeline[0].lines, 15);
    assert_eq!(timeline[1].label, "2025-02");
    assert_eq!(timeline[1].lines, 0); // gap month
    assert_eq!(timeline[4].label, "2025-05");
    assert_eq!(timeline[4].lines, 0); // gap month
    assert_eq!(timeline[5].label, "2025-06");
    assert_eq!(timeline[5].lines, 23);
    assert_eq!(timeline[7].label, "2025-08");
    assert_eq!(timeline[7].lines, 9);
}

#[test]
fn test_build_timeline_boundary_14_days() {
    // 15 inclusive days (> 14) → escalates to weekly
    let commits = vec![
        make_commit("2025-03-01", 10, 0),
        make_commit("2025-03-15", 5, 0),
    ];
    let timeline = buckets(&commits);
    assert!(timeline.iter().all(|t| t.label.contains("-W")));
}

#[test]
fn test_build_timeline_boundary_60_days() {
    // 61 inclusive days → > 14 days; ~9 distinct weeks ≤ 14 → weekly
    let commits = vec![
        make_commit("2025-01-01", 10, 0),
        make_commit("2025-03-02", 5, 0),
    ];
    let timeline = buckets(&commits);
    assert!(timeline.iter().all(|t| t.label.contains("-W")));
}

#[test]
fn test_build_timeline_boundary_61_days() {
    // 62 inclusive days → > 14 days; ~9 distinct weeks ≤ 14 → weekly
    let commits = vec![
        make_commit("2025-01-01", 10, 0),
        make_commit("2025-03-03", 5, 0),
    ];
    let timeline = buckets(&commits);
    assert!(timeline.iter().all(|t| t.label.contains("-W")));
}

#[test]
fn test_build_timeline_single_day() {
    let commits = vec![
        make_commit("2025-06-01", 10, 5),
        make_commit("2025-06-01", 20, 3),
    ];
    let built = build_timeline(&commits);
    let timeline = &built.buckets;
    assert_eq!(timeline.len(), 1);
    assert_eq!(timeline[0].label, "2025-06-01");
    assert_eq!(timeline[0].lines, 10 + 5 + 20 + 3);
    let height = timeline[0].lines as f64 / built.max_lines as f64 * 100.0;
    assert_eq!(height, 100.0);
}

#[test]
fn test_build_timeline_boundary_13_days() {
    // 13 days span → daily
    let commits = vec![
        make_commit("2025-03-01", 10, 0),
        make_commit("2025-03-14", 5, 0),
    ];
    let timeline = buckets(&commits);
    // Contiguous daily buckets: 03-01 through 03-14 = 14 days
    assert_eq!(timeline.len(), 14);
    assert_eq!(timeline[0].label, "2025-03-01");
    assert_eq!(timeline[0].lines, 10);
    assert_eq!(timeline[13].label, "2025-03-14");
    assert_eq!(timeline[13].lines, 5);
    // Gap days should have 0 lines
    assert_eq!(timeline[1].lines, 0);
}

#[test]
fn test_build_timeline_quarterly_granularity() {
    // Span ~16 months: > 14 distinct weeks, > 14 months, ≤ 14 quarters → quarterly
    let commits = vec![
        make_commit("2024-01-15", 10, 5),
        make_commit("2025-04-20", 20, 3),
    ];
    let timeline = buckets(&commits);
    assert!(timeline.iter().all(|t| t.label.contains("-Q")));
    // 2024-Q1 to 2025-Q2 = 6 quarters
    assert_eq!(timeline.len(), 6);
    assert_eq!(timeline[0].label, "2024-Q1");
    assert_eq!(timeline[0].lines, 15);
    assert_eq!(timeline[1].label, "2024-Q2");
    assert_eq!(timeline[1].lines, 0);
    assert_eq!(timeline[5].label, "2025-Q2");
    assert_eq!(timeline[5].lines, 23);
}

#[test]
fn test_build_timeline_quarterly_contiguous_with_gaps() {
    // Span > 14 months, ≤ 14 quarters → quarterly with gap filling
    let commits = vec![
        make_commit("2023-01-15", 10, 0),
        make_commit("2024-06-15", 5, 0),
    ];
    let timeline = buckets(&commits);
    // 2023-Q1 to 2024-Q2 = 6 quarters
    assert_eq!(timeline.len(), 6);
    assert!(timeline.iter().all(|t| t.label.contains("-Q")));
    assert_eq!(timeline[0].label, "2023-Q1");
    assert_eq!(timeline[0].lines, 10);
    assert_eq!(timeline[1].label, "2023-Q2");
    assert_eq!(timeline[1].lines, 0); // gap
    assert_eq!(timeline[5].label, "2024-Q2");
    assert_eq!(timeline[5].lines, 5);
}

#[test]
fn test_build_timeline_yearly_granularity() {
    // Span > 14 quarters → yearly
    let commits = vec![
        make_commit("2020-01-01", 100, 50),
        make_commit("2025-12-31", 20, 10),
    ];
    let timeline = buckets(&commits);
    assert_eq!(timeline.len(), 6); // 2020..2025
    assert!(timeline.iter().all(|t| t.label.len() == 4)); // YYYY
    assert_eq!(timeline[0].label, "2020");
    assert_eq!(timeline[0].lines, 150);
    assert_eq!(timeline[1].label, "2021");
    assert_eq!(timeline[1].lines, 0); // gap
    assert_eq!(timeline[5].label, "2025");
    assert_eq!(timeline[5].lines, 30);
}

#[test]
fn test_build_timeline_yearly_contiguous_with_gaps() {
    // Multi-decade span
    let commits = vec![
        make_commit("2015-06-01", 10, 0),
        make_commit("2025-06-01", 5, 0),
    ];
    let timeline = buckets(&commits);
    assert_eq!(timeline.len(), 11); // 2015..2025
    assert!(timeline.iter().all(|t| t.label.len() == 4));
    assert_eq!(timeline[0].label, "2015");
    assert_eq!(timeline[10].label, "2025");
    // All gap years should be 0
    for entry in timeline.iter().take(10).skip(1) {
        assert_eq!(entry.lines, 0);
    }
}

#[test]
fn test_build_timeline_boundary_14_days_inclusive_daily() {
    // Exactly 14 inclusive days → daily
    let commits = vec![
        make_commit("2025-03-01", 10, 0),
        make_commit("2025-03-14", 5, 0),
    ];
    let timeline = buckets(&commits);
    assert_eq!(timeline.len(), 14);
    assert!(timeline.iter().all(|t| t.label.len() == 10)); // YYYY-MM-DD
}

#[test]
fn test_build_timeline_boundary_15_days_to_weekly() {
    // 15 inclusive days → > 14, escalate to weekly
    let commits = vec![
        make_commit("2025-03-01", 10, 0),
        make_commit("2025-03-15", 5, 0),
    ];
    let timeline = buckets(&commits);
    assert!(timeline.iter().all(|t| t.label.contains("-W")));
}

#[test]
fn test_build_timeline_boundary_14_weeks_to_weekly() {
    // Span producing exactly 14 distinct ISO weeks → weekly
    // 2025-01-06 (W02) to 2025-04-13 (W15) = 14 distinct weeks
    let commits = vec![
        make_commit("2025-01-06", 10, 0), // W02
        make_commit("2025-04-13", 5, 0),  // W15
    ];
    let timeline = buckets(&commits);
    assert!(timeline.iter().all(|t| t.label.contains("-W")));
    assert_eq!(timeline.len(), 14);
}

#[test]
fn test_build_timeline_boundary_15_weeks_to_monthly() {
    // Span producing > 14 distinct ISO weeks → monthly (if ≤ 14 months)
    let commits = vec![
        make_commit("2025-01-01", 10, 0),
        make_commit("2025-04-30", 5, 0),
    ];
    let timeline = buckets(&commits);
    // Jan-Apr = 4 months, but > 14 weeks → monthly
    // Check label format: YYYY-MM (7 chars)
    assert!(timeline.iter().all(|t| t.label.len() == 7));
}

#[test]
fn test_build_timeline_boundary_15_months_to_quarterly() {
    // 15 distinct months → quarterly
    let commits = vec![
        make_commit("2024-01-01", 10, 0),
        make_commit("2025-03-31", 5, 0),
    ];
    let timeline = buckets(&commits);
    // 15 months > 14 → quarterly. Q1 2024 to Q1 2025 = 5 quarters
    assert!(timeline.iter().all(|t| t.label.contains("-Q")));
}

#[test]
fn test_build_timeline_boundary_14_months_stays_monthly() {
    // Exactly 14 distinct months → monthly
    let commits = vec![
        make_commit("2024-01-01", 10, 0),
        make_commit("2025-02-28", 5, 0),
    ];
    let timeline = buckets(&commits);
    // 14 months ≤ 14 → monthly
    assert_eq!(timeline.len(), 14);
    assert!(timeline.iter().all(|t| t.label.len() == 7));
}

#[test]
fn test_build_timeline_boundary_14_quarters_stays_quarterly() {
    // Exactly 14 distinct quarters → quarterly
    // Q1 2022 to Q2 2025 = 14 quarters
    let commits = vec![
        make_commit("2022-01-15", 10, 0),
        make_commit("2025-06-15", 5, 0),
    ];
    let timeline = buckets(&commits);
    assert_eq!(timeline.len(), 14);
    assert!(timeline.iter().all(|t| t.label.contains("-Q")));
}

#[test]
fn test_build_timeline_boundary_15_quarters_to_yearly() {
    // 15 distinct quarters → yearly
    let commits = vec![
        make_commit("2021-01-01", 10, 0),
        make_commit("2024-09-30", 5, 0),
    ];
    let timeline = buckets(&commits);
    // Q1 2021 to Q3 2024 = 15 quarters > 14 → yearly
    assert!(timeline.iter().all(|t| t.label.len() == 4)); // YYYY
    assert_eq!(timeline.len(), 4); // 2021, 2022, 2023, 2024
}

#[test]
fn test_build_timeline_iso_week_year_boundary() {
    // Dec 29, 2024 is ISO week 2025-W01 (Mon Dec 30 is in W01)
    // This tests that ISO week-year (%G) is used, not calendar year (%Y)
    let commits = vec![
        make_commit("2024-12-25", 10, 0),
        make_commit("2025-01-05", 5, 0),
    ];
    let timeline = buckets(&commits);
    // 12 inclusive days → daily
    assert_eq!(timeline.len(), 12);
    assert!(timeline.iter().all(|t| t.label.len() == 10));
}

#[test]
fn test_build_timeline_iso_week_year_boundary_weekly() {
    // Test ISO week-year boundary in weekly mode
    // Dec 20, 2024 to Jan 20, 2025 = 32 inclusive days → > 14 → weekly
    let commits = vec![
        make_commit("2024-12-20", 10, 0),
        make_commit("2025-01-20", 5, 0),
    ];
    let timeline = buckets(&commits);
    assert!(timeline.iter().all(|t| t.label.contains("-W")));
    // Should have labels crossing ISO year boundary:
    // 2024-W51, 2024-W52, 2025-W01, 2025-W02, 2025-W03, 2025-W04
    let has_2024 = timeline.iter().any(|t| t.label.starts_with("2024-W"));
    let has_2025 = timeline.iter().any(|t| t.label.starts_with("2025-W"));
    assert!(has_2024, "Should have 2024 ISO week labels");
    assert!(has_2025, "Should have 2025 ISO week labels");
}


#[test]
fn test_build_type_breakdown_no_duplicate_other() {
    let commits = vec![
        CommitEntry {
            hash: "a".to_string(),
            date: "2024-01-01".to_string(),
            commit_type: "initial".to_string(),
            scope: "".to_string(),
            subject: "Initial commit".to_string(),
            project: "test".to_string(),
            insertions: 10,
            deletions: 5,
        },
        CommitEntry {
            hash: "b".to_string(),
            date: "2024-01-02".to_string(),
            commit_type: "merge".to_string(),
            scope: "".to_string(),
            subject: "Merge branch".to_string(),
            project: "test".to_string(),
            insertions: 20,
            deletions: 3,
        },
        CommitEntry {
            hash: "c".to_string(),
            date: "2024-01-03".to_string(),
            commit_type: "unknown".to_string(),
            scope: "".to_string(),
            subject: "Unknown change".to_string(),
            project: "test".to_string(),
            insertions: 7,
            deletions: 2,
        },
    ];
    let breakdown = build_type_breakdown(&commits);
    let other_entries: Vec<_> = breakdown.iter().filter(|b| b.label == "其他").collect();
    assert_eq!(
        other_entries.len(),
        1,
        "Should have exactly one '其他' entry"
    );
    assert_eq!(other_entries[0].lines, 10 + 5 + 20 + 3 + 7 + 2);
}

#[test]
fn test_type_breakdown_ordering_descending_by_lines() {
    let commits = vec![
        CommitEntry {
            hash: "a".to_string(),
            date: "2024-01-01".to_string(),
            commit_type: "feat".to_string(),
            scope: String::new(),
            subject: "feat: big".to_string(),
            project: "test".to_string(),
            insertions: 100,
            deletions: 50,
        },
        CommitEntry {
            hash: "b".to_string(),
            date: "2024-01-02".to_string(),
            commit_type: "fix".to_string(),
            scope: String::new(),
            subject: "fix: small".to_string(),
            project: "test".to_string(),
            insertions: 5,
            deletions: 2,
        },
        CommitEntry {
            hash: "c".to_string(),
            date: "2024-01-03".to_string(),
            commit_type: "docs".to_string(),
            scope: String::new(),
            subject: "docs: medium".to_string(),
            project: "test".to_string(),
            insertions: 30,
            deletions: 10,
        },
    ];
    let breakdown = build_type_breakdown(&commits);
    assert_eq!(breakdown.len(), 3);
    assert_eq!(breakdown[0].lines, 150); // feat: 100+50
    assert_eq!(breakdown[1].lines, 40); // docs: 30+10
    assert_eq!(breakdown[2].lines, 7); // fix: 5+2
}

#[test]
fn test_project_top_types_lines_semantics() {
    let commits = vec![
        CommitEntry {
            hash: "a".to_string(),
            date: "2024-01-01".to_string(),
            commit_type: "fix".to_string(),
            scope: String::new(),
            subject: "fix: big fix".to_string(),
            project: "proj".to_string(),
            insertions: 200,
            deletions: 100,
        },
        CommitEntry {
            hash: "b".to_string(),
            date: "2024-01-02".to_string(),
            commit_type: "feat".to_string(),
            scope: String::new(),
            subject: "feat: small feature".to_string(),
            project: "proj".to_string(),
            insertions: 50,
            deletions: 10,
        },
        CommitEntry {
            hash: "c".to_string(),
            date: "2024-01-03".to_string(),
            commit_type: "docs".to_string(),
            scope: String::new(),
            subject: "docs: update".to_string(),
            project: "proj".to_string(),
            insertions: 20,
            deletions: 5,
        },
    ];
    let data = build_project_data("proj", "Test project", None, &commits, &[]);
    // top_types ordered by descending lines
    assert_eq!(data.top_types.len(), 3);
    assert_eq!(data.top_types[0].commit_type, "fix");
    assert_eq!(data.top_types[0].lines, 300); // 200+100
    assert_eq!(data.top_types[1].commit_type, "feat");
    assert_eq!(data.top_types[1].lines, 60); // 50+10
    assert_eq!(data.top_types[2].commit_type, "docs");
    assert_eq!(data.top_types[2].lines, 25); // 20+5
    // percentages based on total lines (385)
    let total = 385.0_f64;
    let percentage = data.top_types[0].lines as f64 / data.total_lines as f64 * 100.0;
    assert!((percentage - 300.0 / total * 100.0).abs() < 0.01);
}

#[test]
fn test_project_top_types_truncates_to_five() {
    let types = ["feat", "fix", "docs", "test", "chore", "ci", "style"];
    let commits: Vec<CommitEntry> = types
        .iter()
        .enumerate()
        .map(|(i, t)| CommitEntry {
            hash: format!("{}", i),
            date: "2024-01-01".to_string(),
            commit_type: t.to_string(),
            scope: String::new(),
            subject: format!("{}: x", t),
            project: "proj".to_string(),
            insertions: (i + 1) * 10,
            deletions: 0,
        })
        .collect();
    let data = build_project_data("proj", "Test project", None, &commits, &[]);
    assert_eq!(data.top_types.len(), 5);
    // First should be the largest lines (style: 70, ci: 60, chore: 50, test: 40, docs: 30)
    assert!(data.top_types[0].lines >= data.top_types[1].lines);
}

#[test]
fn test_build_type_breakdown_empty_commits() {
    let breakdown = build_type_breakdown(&[]);
    assert!(breakdown.is_empty());
}

#[test]
fn test_build_type_breakdown_single_type() {
    let commits = vec![CommitEntry {
        hash: "a".to_string(),
        date: "2024-01-01".to_string(),
        commit_type: "feat".to_string(),
        scope: String::new(),
        subject: "feat: thing".to_string(),
        project: "p".to_string(),
        insertions: 10,
        deletions: 5,
    }];
    let breakdown = build_type_breakdown(&commits);
    assert_eq!(breakdown.len(), 1);
    assert_eq!(breakdown[0].commit_type, "feat");
    let percentage = breakdown[0].lines as f64 / sum_lines(&commits) as f64 * 100.0;
    assert!((percentage - 100.0).abs() < f64::EPSILON);
}

#[test]
fn test_build_project_data_filters_by_project() {
    let commits = vec![
        CommitEntry {
            hash: "a".to_string(),
            date: "2024-01-01".to_string(),
            commit_type: "feat".to_string(),
            scope: String::new(),
            subject: "feat: a".to_string(),
            project: "proj-a".to_string(),
            insertions: 10,
            deletions: 5,
        },
        CommitEntry {
            hash: "b".to_string(),
            date: "2024-01-02".to_string(),
            commit_type: "fix".to_string(),
            scope: String::new(),
            subject: "fix: b".to_string(),
            project: "proj-b".to_string(),
            insertions: 20,
            deletions: 3,
        },
    ];
    let data = build_project_data("proj-a", "Project A", None, &commits, &[]);
    assert_eq!(data.commit_count, 1);
    assert_eq!(data.lines_added, 10);
    assert_eq!(data.lines_removed, 5);
}

#[test]
fn test_build_project_data_counts_proposals() {
    let proposals = vec![
        ProposalEntry {
            slug: "a".to_string(),
            date: "2024-01-01".to_string(),
            project: "proj".to_string(),
            description: "".to_string(),
            task_count: 1,
        },
        ProposalEntry {
            slug: "b".to_string(),
            date: "2024-02-01".to_string(),
            project: "other".to_string(),
            description: "".to_string(),
            task_count: 2,
        },
    ];
    let data = build_project_data("proj", "Proj", None, &[], &proposals);
    assert_eq!(data.proposal_count, 1);
}

#[test]
fn test_avg_daily_lines_multiple_dates() {
    let commits = [
        CommitEntry {
            hash: "a1".to_string(),
            date: "2025-01-01".to_string(),
            commit_type: "feat".to_string(),
            scope: String::new(),
            subject: "feat: a".to_string(),
            project: "p1".to_string(),
            insertions: 100,
            deletions: 50,
        },
        CommitEntry {
            hash: "a2".to_string(),
            date: "2025-01-02".to_string(),
            commit_type: "fix".to_string(),
            scope: String::new(),
            subject: "fix: b".to_string(),
            project: "p1".to_string(),
            insertions: 200,
            deletions: 100,
        },
        CommitEntry {
            hash: "a3".to_string(),
            date: "2025-01-03".to_string(),
            commit_type: "docs".to_string(),
            scope: String::new(),
            subject: "docs: c".to_string(),
            project: "p1".to_string(),
            insertions: 50,
            deletions: 0,
        },
    ];
    // 3 unique dates, total lines = 100+50+200+100+50+0 = 500
    let unique_dates: std::collections::HashSet<&str> =
        commits.iter().map(|c| &c.date[..10]).collect();
    let lines_added: usize = commits.iter().map(|c| c.insertions).sum();
    let lines_removed: usize = commits.iter().map(|c| c.deletions).sum();
    let avg = (lines_added + lines_removed) as f64 / unique_dates.len() as f64;
    assert!((avg - 166.666).abs() < 1.0);
    assert_eq!(unique_dates.len(), 3);
}

#[test]
fn test_avg_daily_lines_same_date() {
    let commits = [
        CommitEntry {
            hash: "b1".to_string(),
            date: "2025-03-15".to_string(),
            commit_type: "feat".to_string(),
            scope: String::new(),
            subject: "feat: x".to_string(),
            project: "p1".to_string(),
            insertions: 40,
            deletions: 10,
        },
        CommitEntry {
            hash: "b2".to_string(),
            date: "2025-03-15".to_string(),
            commit_type: "fix".to_string(),
            scope: String::new(),
            subject: "fix: y".to_string(),
            project: "p1".to_string(),
            insertions: 60,
            deletions: 20,
        },
    ];
    let unique_dates: std::collections::HashSet<&str> =
        commits.iter().map(|c| &c.date[..10]).collect();
    assert_eq!(unique_dates.len(), 1);
    let lines_added: usize = commits.iter().map(|c| c.insertions).sum();
    let lines_removed: usize = commits.iter().map(|c| c.deletions).sum();
    let avg = (lines_added + lines_removed) as f64 / unique_dates.len() as f64;
    assert!((avg - 130.0).abs() < f64::EPSILON);
}

#[test]
fn test_avg_daily_lines_no_commits() {
    let commits: Vec<CommitEntry> = Vec::new();
    let unique_dates: std::collections::HashSet<&str> =
        commits.iter().map(|c| &c.date[..10]).collect();
    let avg = if unique_dates.is_empty() {
        0.0
    } else {
        let lines_added: usize = commits.iter().map(|c| c.insertions).sum();
        let lines_removed: usize = commits.iter().map(|c| c.deletions).sum();
        (lines_added + lines_removed) as f64 / unique_dates.len() as f64
    };
    assert!((avg - 0.0).abs() < f64::EPSILON);
}


fn empty_commit(hash: &str, date: &str, commit_type: &str, subject: &str) -> CommitEntry {
    CommitEntry {
        hash: hash.to_string(),
        date: date.to_string(),
        commit_type: commit_type.to_string(),
        scope: String::new(),
        subject: subject.to_string(),
        project: "test".to_string(),
        insertions: 0,
        deletions: 0,
    }
}

#[test]
fn test_all_zero_timeline_no_division_by_zero() {
    let commits = vec![
        empty_commit("z1", "2024-03-01", "feat", "feat: empty"),
        empty_commit("z2", "2024-03-08", "fix", "fix: empty"),
    ];
    let timeline = build_timeline(&commits);
    // The chart's scale is zero, so every bar is drawn with height zero.
    assert_eq!(timeline.max_lines, 0, "Height should be 0.0 when all lines are zero");
    assert!(!timeline.buckets.is_empty());
    for entry in &timeline.buckets {
        assert_eq!(entry.lines, 0, "Height should be 0.0 when all lines are zero");
    }
}

#[test]
fn test_all_zero_type_breakdown_no_division_by_zero() {
    let commits = vec![
        empty_commit("z1", "2024-03-01", "feat", "feat: empty"),
        empty_commit("z2", "2024-03-02", "fix", "fix: empty"),
    ];
    let breakdown = build_type_breakdown(&commits);
    // Every share is taken of a zero total, so every percentage is zero.
    let total: usize = breakdown.iter().map(|e| e.lines).sum();
    assert_eq!(total, 0, "Percentage should be 0.0 when all lines are zero");
    for entry in &breakdown {
        assert_eq!(entry.lines, 0, "Percentage should be 0.0 when all lines are zero");
    }
}
