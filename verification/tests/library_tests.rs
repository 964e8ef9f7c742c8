use contribution_showcase::breakdown::{build_type_breakdown, TypeBreakdown};
use contribution_showcase::config::{
    check_branch, sanitize_title_for_filename, validate_date_range, Config, ConfigError, DateRangeError, FilterConfig, OutputConfig,
    Overrides, ProjectConfig,
};
use contribution_showcase::gitlog::{git_log_args, log_dates_ok, parse_git_log, parse_shortstat};
use contribution_showcase::model::{sum_insertions_deletions, sum_lines, CommitEntry, ProposalEntry};
use contribution_showcase::page::{
    escape_html, escape_json_for_html_script, parse_csv_list, parse_positive_usize, render_page,
    replace_text,
};
use contribution_showcase::proposals::{
    count_done_tasks, parse_archive_dir_name, proposal_description, proposal_from_dir,
};
use contribution_showcase::report::{
    build_report, count_active_days, count_repos_with_commits, date_range, days_cut_ok, lines_fit,
    sort_commits_by_date, sort_proposals_by_date,
};
use contribution_showcase::testmetrics::{
    count_test_cases_in, coverage_kind, coverage_kind_of_path, detect_framework, has_rust_tests,
    is_test_file,
    is_test_file_name, line_rate_text, CoverageKind,
};
use contribution_showcase::timeline::{build_timeline, build_timeline_with};

fn commit(hash: &str, date: &str, commit_type: &str, project: &str, ins: usize, del: usize) -> CommitEntry {
    CommitEntry {
        hash: hash.to_string(),
        date: date.to_string(),
        commit_type: commit_type.to_string(),
        scope: String::new(),
        subject: format!("{}: {}", commit_type, hash),
        project: project.to_string(),
        insertions: ins,
        deletions: del,
    }
}

fn proposal(slug: &str, date: &str, project: &str) -> ProposalEntry {
    ProposalEntry {
        slug: slug.to_string(),
        date: date.to_string(),
        project: project.to_string(),
        description: String::new(),
        task_count: 0,
    }
}

fn project(name: &str, path: &str) -> ProjectConfig {
    ProjectConfig {
        name: name.to_string(),
        path: path.to_string(),
        description: None,
        branch: None,
        coverage_command: None,
        coverage_result_path: None,
        url: None,
    }
}

fn empty_config() -> Config {
    Config { title: None, output: None, projects: vec![], filters: None }
}

const LOG: &str = "COMMIT_DELIMabc|||Alice|||2024-05-01T10:00:00+02:00|||feat(ui): add button\n\n 2 files changed, 10 insertions(+), 3 deletions(-)\nCOMMIT_DELIMdef|||Bob|||2024-05-02T11:00:00+00:00|||Initial commit\n\n 1 file changed, 5 insertions(+)\n";

#[test]
fn git_log_is_read_into_commits() {
    assert!(log_dates_ok(LOG));
    let commits = parse_git_log(LOG, "web");
    assert_eq!(commits.len(), 2);
    assert_eq!(commits[0].hash, "abc");
    assert_eq!(commits[0].date, "2024-05-01");
    assert_eq!(commits[0].commit_type, "feat");
    assert_eq!(commits[0].scope, "ui");
    assert_eq!(commits[0].subject, "feat(ui): add button");
    assert_eq!(commits[0].project, "web");
    assert_eq!((commits[0].insertions, commits[0].deletions), (10, 3));
    assert_eq!(commits[1].hash, "def");
    assert_eq!(commits[1].commit_type, "other");
    assert_eq!((commits[1].insertions, commits[1].deletions), (5, 0));
}

#[test]
fn git_log_of_wiki_project_is_all_docs() {
    let commits = parse_git_log(LOG, "web.wiki");
    assert_eq!(commits.len(), 2);
    assert!(commits.iter().all(|c| c.commit_type == "docs"));
    assert_eq!(commits[0].scope, "ui");
}

#[test]
fn git_log_header_without_four_fields_is_skipped() {
    let log = "COMMIT_DELIMonly|||two\n 1 file changed, 9 insertions(+)\nCOMMIT_DELIMx|||A|||2024-01-02T00:00:00Z|||fix: y\r\n 1 file changed, 1 deletion(-)\r\n";
    let commits = parse_git_log(log, "p");
    assert_eq!(commits.len(), 1);
    assert_eq!(commits[0].hash, "x");
    assert_eq!(commits[0].subject, "fix: y");
    assert_eq!((commits[0].insertions, commits[0].deletions), (0, 1));
}

#[test]
fn git_log_with_short_date_is_refused_by_the_check() {
    assert!(!log_dates_ok("COMMIT_DELIMa|||b|||2024|||feat: x\n"));
    assert!(log_dates_ok("no header here\n"));
}

#[test]
fn git_log_arguments() {
    let args = git_log_args("/repo", None, None);
    assert_eq!(
        args,
        vec!["-C", "/repo", "log", "--all", "--format=COMMIT_DELIM%H|||%aN|||%aI|||%s", "--shortstat"]
    );
    let args = git_log_args("/repo", Some("main"), Some("Jane Doe"));
    assert_eq!(args[3], "main");
    assert_eq!(args.len(), 7);
    assert_eq!(args[6], "--author=Jane Doe");
}

#[test]
fn shortstat_reads_singular_forms() {
    assert_eq!(parse_shortstat(" 1 file changed, 1 insertion(+), 1 deletion(-)"), (1, 1));
    assert_eq!(parse_shortstat("3 files changed, x insertions(+)"), (0, 0));
}

#[test]
fn date_range_errors_and_messages() {
    assert!(validate_date_range(Some("2024-01-01"), Some("2024-01-01")).is_ok());
    match validate_date_range(Some("2024/01/01"), None) {
        Err(e) => {
            assert!(matches!(e, DateRangeError::InvalidSince(_)));
            assert_eq!(e.message(), "invalid 'since' date '2024/01/01': expected YYYY-MM-DD format");
        }
        Ok(()) => panic!("expected an error"),
    }
    match validate_date_range(None, Some("2024-13-01")) {
        Err(e) => assert_eq!(e.message(), "invalid 'until' date '2024-13-01': expected YYYY-MM-DD format"),
        Ok(()) => panic!("expected an error"),
    }
    match validate_date_range(Some("2024-12-31"), Some("2024-01-01")) {
        Err(e) => assert_eq!(e.message(), "'since' (2024-12-31) must not be after 'until' (2024-01-01)"),
        Ok(()) => panic!("expected an error"),
    }
    assert!(validate_date_range(Some("２024-01-01"), None).is_err());
}

#[test]
fn branch_checks() {
    let mut p = project("web", "/tmp/web");
    assert!(check_branch(&p).is_ok());
    p.branch = Some("feature/login".to_string());
    assert!(check_branch(&p).is_ok());
    p.branch = Some("--all".to_string());
    match check_branch(&p) {
        Err(e) => {
            assert!(matches!(e, ConfigError::BranchStartsWithDash(_, _)));
            assert_eq!(e.message(), "branch name must not start with '-' for project 'web': --all");
        }
        Ok(()) => panic!("expected an error"),
    }
    for b in ["main..feature", "^main", "HEAD~10", "my branch"] {
        p.branch = Some(b.to_string());
        match check_branch(&p) {
            Err(e) => {
                assert!(matches!(e, ConfigError::BranchInvalidChars(_, _)));
                assert_eq!(
                    e.message(),
                    format!(
                        "branch name contains invalid characters for project 'web': '{}' (revspec operators like '..', '^', '~' are not allowed)",
                        b
                    )
                );
            }
            Ok(()) => panic!("expected an error"),
        }
    }
}

#[test]
fn config_resolve_keeps_absolute_paths_and_joins_relative_ones() {
    let mut config = empty_config();
    config.projects = vec![project("a", "/opt/repos/foo"), project("b", "repo")];
    config.output = Some(OutputConfig { path: Some("out/page.html".to_string()), timeline_max_buckets: Some(3) });
    assert!(config.resolve("/etc/showcase/showcase.toml").is_ok());
    assert_eq!(config.projects[0].path, "/opt/repos/foo");
    assert_eq!(config.projects[1].path, std::path::Path::new("/etc/showcase").join("repo").to_string_lossy());
    let out = config.output.as_ref().unwrap();
    assert_eq!(out.path.as_deref(), Some(std::path::Path::new("/etc/showcase").join("out/page.html").to_str().unwrap()));
    assert_eq!(out.timeline_max_buckets, Some(3));
}

#[test]
fn config_resolve_reports_the_first_refused_branch() {
    let mut config = empty_config();
    let mut a = project("a", "/a");
    a.branch = Some("main".to_string());
    let mut b = project("b", "/b");
    b.branch = Some("x..y".to_string());
    let mut c = project("c", "/c");
    c.branch = Some("-c".to_string());
    config.projects = vec![a, b, c];
    match config.resolve("showcase.toml") {
        Err(ConfigError::BranchInvalidChars(name, branch)) => {
            assert_eq!(name, "b");
            assert_eq!(branch, "x..y");
        }
        _ => panic!("expected the second project's error"),
    }
}

#[test]
fn output_path_rules() {
    let mut config = empty_config();
    assert_eq!(config.output_path(), "dist/index.html");
    config.title = Some("My Report".to_string());
    assert_eq!(config.output_path(), "dist/my-report.html");
    config.output = Some(OutputConfig { path: None, timeline_max_buckets: None });
    assert_eq!(config.output_path(), "dist/my-report.html");
    config.output = Some(OutputConfig { path: Some("custom/out.html".to_string()), timeline_max_buckets: None });
    assert_eq!(config.output_path(), "custom/out.html");
}

#[test]
fn timeline_bound_defaults_to_fourteen() {
    let mut config = empty_config();
    assert_eq!(config.timeline_max_buckets(), 14);
    config.output = Some(OutputConfig { path: None, timeline_max_buckets: Some(5) });
    assert_eq!(config.timeline_max_buckets(), 5);
}

#[test]
fn overrides_replace_configured_settings() {
    let mut config = empty_config();
    config.filters = Some(FilterConfig {
        author: Some("Jim".to_string()),
        since: None,
        until: None,
        types: Some(vec!["feat".to_string()]),
        exclude_hashes: None,
    });
    let o = Overrides {
        author: None,
        since: Some("2024-01-01".to_string()),
        until: None,
        timeline_max_buckets: Some(7),
        title: Some("CLI Title".to_string()),
        types: Some(" , , ".to_string()),
        exclude_hashes: Some("ABC, def".to_string()),
    };
    config.apply_overrides(&o);
    let f = config.filters.as_ref().unwrap();
    assert_eq!(f.author.as_deref(), Some("Jim"));
    assert_eq!(f.since.as_deref(), Some("2024-01-01"));
    assert_eq!(f.types, Some(vec!["feat".to_string()]));
    assert_eq!(f.exclude_hashes, Some(vec!["abc".to_string(), "def".to_string()]));
    assert_eq!(config.title.as_deref(), Some("CLI Title"));
    assert_eq!(config.timeline_max_buckets(), 7);
    assert_eq!(config.output_path(), "dist/cli-title.html");
}

#[test]
fn overrides_on_empty_config_create_filters() {
    let mut config = empty_config();
    let o = Overrides {
        author: None,
        since: None,
        until: None,
        timeline_max_buckets: None,
        title: None,
        types: Some("Docs".to_string()),
        exclude_hashes: None,
    };
    config.apply_overrides(&o);
    assert!(config.output.is_none());
    let f = config.filters.as_ref().unwrap();
    assert_eq!(f.types, Some(vec!["docs".to_string()]));
    assert!(f.author.is_none());
}

#[test]
fn positive_count_parsing() {
    assert_eq!(parse_positive_usize("7"), Ok(7));
    assert_eq!(parse_positive_usize("+3"), Ok(3));
    assert_eq!(parse_positive_usize("0"), Err("value must be ≥ 1".to_string()));
    assert_eq!(parse_positive_usize(""), Err("cannot parse integer from empty string".to_string()));
    assert_eq!(parse_positive_usize("x1"), Err("invalid digit found in string".to_string()));
    assert_eq!(parse_positive_usize("-1"), Err("invalid digit found in string".to_string()));
    assert_eq!(
        parse_positive_usize("99999999999999999999999"),
        Err("number too large to fit in target type".to_string())
    );
}

#[test]
fn escapes_leave_no_dangerous_character() {
    let s = "<a href=\"x\">&</a>\u{2028}\u{2029}";
    let h = escape_html(s);
    assert!(!h.contains('<') && !h.contains('>') && !h.contains('"'));
    assert_eq!(h, "&lt;a href=&quot;x&quot;&gt;&amp;&lt;/a&gt;\u{2028}\u{2029}");
    let j = escape_json_for_html_script(s);
    assert!(!j.contains('<') && !j.contains('>') && !j.contains('&'));
    assert!(!j.contains('\u{2028}') && !j.contains('\u{2029}'));
    assert_eq!(j, "\\u003ca href=\"x\"\\u003e\\u0026\\u003c/a\\u003e\\u2028\\u2029");
}

#[test]
fn csv_items_are_clean() {
    let items = parse_csv_list("  A b ,\t,C\u{a0},,d", true);
    assert_eq!(items, vec!["a b", "c", "d"]);
    for x in &items {
        assert!(!x.is_empty());
        assert_eq!(x.trim(), x);
        assert_eq!(&x.to_ascii_lowercase(), x);
    }
    assert_eq!(parse_csv_list("", false), Vec::<String>::new());
}

#[test]
fn page_is_filled_from_its_template() {
    let template = "<title>__PAGE_TITLE__</title><script>const data = \"__SHOWCASE_DATA__\";</script>";
    let page = render_page(template, "A & B <C>", "{\"x\":\"</script>\"}");
    assert_eq!(
        page,
        "<title>A &amp; B &lt;C&gt;</title><script>const data = {\"x\":\"\\u003c/script\\u003e\"};</script>"
    );
    assert_eq!(replace_text("aaa", "aa", "b"), "ba");
    assert_eq!(replace_text("x", "y", "z"), "x");
}

#[test]
fn archive_directory_names() {
    assert_eq!(
        parse_archive_dir_name("2024-06-15-add-auth"),
        Some(("2024-06-15".to_string(), "add-auth".to_string()))
    );
    assert_eq!(parse_archive_dir_name("2024-06-15-"), Some(("2024-06-15".to_string(), String::new())));
    assert_eq!(parse_archive_dir_name("not-a-date-slug"), None);
    assert_eq!(parse_archive_dir_name("2024-06-15"), None);
    assert_eq!(parse_archive_dir_name("2024_06_15-x"), None);
    assert_eq!(parse_archive_dir_name("日本-06-15-x"), None);
}

#[test]
fn proposal_files_are_read() {
    assert_eq!(count_done_tasks("- [x] task 1\n- [x] task 2\n- [ ] task 3\n"), 2);
    assert_eq!(count_done_tasks(""), 0);
    assert_eq!(proposal_description("description: \"Add authentication module\""), "Add authentication module");
    assert_eq!(proposal_description("name: x\n  description:   'Fix critical bug'  \n"), "Fix critical bug");
    assert_eq!(proposal_description("title: none"), "");
    let p = proposal_from_dir("2024-07-20-fix-bug", "my-proj", Some("- [x] fix it\n"), Some("description: 'Fix critical bug'")).unwrap();
    assert_eq!(p.date, "2024-07-20");
    assert_eq!(p.slug, "fix-bug");
    assert_eq!(p.project, "my-proj");
    assert_eq!(p.task_count, 1);
    assert_eq!(p.description, "Fix critical bug");
    let q = proposal_from_dir("2024-01-01-no-yaml", "proj", Some("- [x] done\n"), None).unwrap();
    assert_eq!(q.description, "");
    assert_eq!(q.task_count, 1);
    let r = proposal_from_dir("2024-05-10-no-tasks", "proj", None, Some("description: hello")).unwrap();
    assert_eq!(r.task_count, 0);
    assert_eq!(r.description, "hello");
    assert!(proposal_from_dir("not-a-date-slug", "proj", None, Some("description: nope")).is_none());
}

#[test]
fn proposals_sorted_most_recent_first() {
    let ps = vec![proposal("a", "2024-01-01", "p"), proposal("b", "2024-12-31", "p"), proposal("c", "2024-06-15", "p"), proposal("d", "2024-12-31", "p")];
    let sorted = sort_proposals_by_date(&ps);
    let slugs: Vec<&str> = sorted.iter().map(|p| p.slug.as_str()).collect();
    assert_eq!(slugs, vec!["b", "d", "c", "a"]);
}

#[test]
fn commits_sorted_most_recent_first_keep_their_totals() {
    let cs = vec![commit("a", "2024-01-01", "feat", "p", 1, 2), commit("b", "2024-03-01", "fix", "p", 3, 4), commit("c", "2024-02-01", "docs", "p", 5, 6)];
    let sorted = sort_commits_by_date(&cs);
    let hashes: Vec<&str> = sorted.iter().map(|c| c.hash.as_str()).collect();
    assert_eq!(hashes, vec!["b", "c", "a"]);
    assert_eq!(sum_lines(&sorted), sum_lines(&cs));
    assert_eq!(sum_insertions_deletions(&sorted), (9, 12));
}

#[test]
fn active_days_and_date_span() {
    let cs = vec![commit("a", "2025-01-02", "feat", "p", 1, 0), commit("b", "2025-01-02", "fix", "p", 1, 0), commit("c", "2024-12-31", "fix", "p", 1, 0)];
    assert_eq!(count_active_days(&cs), 2);
    assert_eq!(date_range(&cs), "2024-12-31 ~ 2025-01-02");
    assert_eq!(count_active_days(&[]), 0);
    assert_eq!(date_range(&[]), "N/A");
}

#[test]
fn repos_counted_once_per_configured_project() {
    let cs = vec![commit("a", "2025-01-02", "feat", "web", 1, 0)];
    let ps = vec![project("web", "/w"), project("api", "/a")];
    assert_eq!(count_repos_with_commits(&ps, &cs), 1);
}

#[test]
fn report_is_built_from_filtered_sorted_commits() {
    let mut config = empty_config();
    config.projects = vec![project("web", "/w"), project("api", "/a"), project("idle", "/i")];
    config.filters = Some(FilterConfig { author: None, since: Some("2024-02-01".to_string()), until: None, types: None, exclude_hashes: None });
    let cs = vec![
        commit("old", "2024-01-15", "feat", "web", 100, 100),
        commit("w1", "2024-03-01", "feat", "web", 10, 5),
        commit("a1", "2024-03-05", "fix", "api", 3, 2),
        commit("w2", "2024-03-05", "docs", "web", 1, 0),
    ];
    let ps = vec![proposal("p1", "2024-04-01", "api"), proposal("p0", "2023-01-01", "idle")];
    let r = build_report(&config, &cs, &ps);
    assert_eq!(r.title, "貢獻總覽");
    assert_eq!(r.author, "ALL");
    assert_eq!(r.summary.total_commits, 3);
    assert_eq!(r.summary.total_repos, 2);
    assert_eq!(r.summary.total_proposals, 1);
    assert_eq!(r.summary.lines_added, 14);
    assert_eq!(r.summary.lines_removed, 7);
    assert_eq!(r.summary.active_days, 2);
    assert_eq!(r.date_range, "2024-03-01 ~ 2024-03-05");
    let hashes: Vec<&str> = r.commits.iter().map(|c| c.hash.as_str()).collect();
    assert_eq!(hashes, vec!["a1", "w2", "w1"]);
    assert_eq!(r.projects.len(), 2);
    assert_eq!(r.projects[0].name, "web");
    assert_eq!(r.projects[0].commit_count, 2);
    assert_eq!(r.projects[1].name, "api");
    assert_eq!(r.projects[1].proposal_count, 1);
    assert_eq!(r.timeline.buckets.len(), 5);
    assert_eq!(r.timeline.buckets[0].label, "2024-03-01");
    assert_eq!(r.timeline.max_lines, 15);
    let total: usize = r.type_breakdown.iter().map(|t| t.lines).sum();
    assert_eq!(total, 21);
}

#[test]
fn report_of_nothing() {
    let mut config = empty_config();
    config.title = Some("T".to_string());
    config.filters = Some(FilterConfig { author: Some("Ann".to_string()), since: None, until: None, types: None, exclude_hashes: None });
    let r = build_report(&config, &[], &[]);
    assert_eq!(r.title, "T");
    assert_eq!(r.author, "Ann");
    assert_eq!(r.date_range, "N/A");
    assert_eq!(r.summary.active_days, 0);
    assert!(r.timeline.buckets.is_empty());
    assert!(r.projects.is_empty());
}

#[test]
fn timeline_with_a_smaller_bound_escalates_sooner() {
    let cs = vec![commit("a", "2025-03-01", "feat", "p", 1, 0), commit("b", "2025-03-06", "feat", "p", 2, 0)];
    let daily = build_timeline(&cs);
    assert_eq!(daily.buckets.len(), 6);
    let weekly = build_timeline_with(&cs, 5);
    assert!(weekly.buckets.iter().all(|b| b.label.contains("-W")));
    assert!(weekly.buckets.len() <= 5);
    let total: usize = weekly.buckets.iter().map(|b| b.lines).sum();
    assert_eq!(total, 3);
    let yearly = build_timeline_with(&cs, 0);
    assert_eq!(yearly.buckets.len(), 1);
    assert_eq!(yearly.buckets[0].label, "2025");
}

#[test]
fn timeline_leaves_out_unreadable_dates() {
    let cs = vec![commit("a", "not a date", "feat", "p", 1, 0), commit("b", "2025-03-06", "feat", "p", 2, 0)];
    let t = build_timeline(&cs);
    assert_eq!(t.buckets.len(), 1);
    assert_eq!(t.buckets[0].lines, 2);
}

#[test]
fn breakdown_shares_out_all_lines() {
    let cs = vec![
        commit("a", "2024-01-01", "feat", "p", 5, 5),
        commit("b", "2024-01-01", "weird", "p", 1, 1),
        commit("c", "2024-01-01", "odd", "p", 2, 2),
        commit("d", "2024-01-01", "feat", "p", 3, 0),
    ];
    let b: Vec<TypeBreakdown> = build_type_breakdown(&cs);
    assert_eq!(b.len(), 2);
    assert_eq!((b[0].commit_type.as_str(), b[0].label.as_str(), b[0].lines), ("feat", "新功能", 13));
    assert_eq!((b[1].commit_type.as_str(), b[1].label.as_str(), b[1].lines), ("other", "其他", 6));
    let total: usize = b.iter().map(|t| t.lines).sum();
    assert_eq!(total, sum_lines(&cs));
}

#[test]
fn framework_detection() {
    let py = "[tool.pytest]\n[project]\ndependencies = [\"pytest\"]";
    assert_eq!(detect_framework(Some(py), false, None, None, None), "pytest");
    assert_eq!(detect_framework(None, false, None, None, None), "none");
    assert_eq!(detect_framework(None, true, None, None, None), "cargo test");
    assert_eq!(detect_framework(None, false, Some(r#"{"devDependencies":{"vitest":"^1.0"}}"#), None, None), "vitest");
    assert_eq!(detect_framework(None, false, Some(r#"{"devDependencies":{"jest":"^29"}}"#), None, None), "jest");
    assert_eq!(detect_framework(Some("[project]\nname = \"x\""), false, None, None, None), "none");
    assert_eq!(detect_framework(Some(py), true, None, None, None), "pytest");
    assert_eq!(detect_framework(None, true, Some(r#"{"vitest":1}"#), None, None), "cargo test");
    assert_eq!(detect_framework(None, false, Some(r#"{"vitest":1,"jest":2}"#), None, None), "vitest");
    assert_eq!(detect_framework(None, false, None, Some(r#"{"imports":{"vitest":"npm:vitest@^4.0.0"}}"#), None), "vitest");
    assert_eq!(detect_framework(None, false, None, None, Some(r#"{"imports":{"vitest":"npm:vitest"}}"#)), "vitest");
    assert_eq!(detect_framework(None, false, None, Some(r#"{"tasks":{"test":"deno test tests/"}}"#), None), "deno test");
    assert_eq!(detect_framework(None, true, None, Some("{}"), None), "cargo test");
    assert_eq!(detect_framework(None, false, Some("{}"), None, None), "none");
}

#[test]
fn test_case_counting() {
    let py = "def test_a():\n    pass\n\nasync def test_b():\n    pass\n\ndef helper():\n    pass\n";
    assert_eq!(count_test_cases_in(py, "pytest"), 2);
    let js = "describe('app', () => {\n  it('should work', () => {});\n  test('another', () => {});\n});";
    assert_eq!(count_test_cases_in(js, "vitest"), 2);
    let rs = "#[test]\nfn a() {}\n#[test]\nfn b() {}\n#[tokio::test]\nasync fn c() {}\n#[rstest]\nfn d() {}\n";
    assert_eq!(count_test_cases_in(rs, "cargo test"), 4);
    assert_eq!(count_test_cases_in("it.each([1,2])('works %d', (n) => {});\ntest.each([3])('t', () => {});\n", "vitest"), 2);
    assert_eq!(count_test_cases_in("// it('commented out', () => {});\n* test('also excluded', () => {});\nit('real', () => {});\n", "vitest"), 1);
    assert_eq!(count_test_cases_in("def test_a():\n    pass\n", "unknown"), 0);
    let deno = "Deno.test(\"parses basic\", () => {});\nDeno.test.only(\"only this\", () => {});\nDeno.test.ignore(\"skip\", () => {});\n// Deno.test(\"commented\", () => {});\n";
    assert_eq!(count_test_cases_in(deno, "deno test"), 3);
}

#[test]
fn rust_test_markers_and_file_names() {
    assert!(has_rust_tests("fn foo() {}\n#[cfg(test)]\nmod tests {\n#[test]\nfn it_works() {}\n}\n"));
    assert!(!has_rust_tests("pub fn helper() -> i32 { 42 }\n"));
    assert!(is_test_file("tests/test_auth.py", "pytest"));
    assert!(!is_test_file("tests/utils.py", "pytest"));
    assert!(is_test_file_name("..rs", "cargo test"));
    assert!(!is_test_file_name(".rs", "cargo test"));
}

#[test]
fn coverage_sources() {
    assert_eq!(coverage_kind("coverage.xml"), Some(CoverageKind::Cobertura));
    assert_eq!(coverage_kind("coverage-summary.json"), Some(CoverageKind::Istanbul));
    assert_eq!(coverage_kind("report.txt"), None);
    let xml = r#"<?xml version="1.0" ?><coverage line-rate="0.85" branch-rate="0.70"></coverage>"#;
    assert_eq!(line_rate_text(xml), Some("0.85".to_string()));
    assert_eq!(line_rate_text("<coverage></coverage>"), None);
    assert_eq!(line_rate_text("<coverage line-rate=\"0.5"), None);
}

#[test]
fn report_preconditions_are_checked() {
    let ok = vec![commit("a", "2025-01-02", "feat", "p", 1, 2)];
    assert!(lines_fit(&ok));
    assert!(days_cut_ok(&ok));
    let big = vec![commit("a", "2025-01-02", "feat", "p", usize::MAX, 0), commit("b", "2025-01-03", "feat", "p", 1, 0)];
    assert!(!lines_fit(&big));
    let wide = vec![commit("a", "2025-01-02", "feat", "p", usize::MAX, 1)];
    assert!(!lines_fit(&wide));
    let short = vec![commit("a", "2025", "feat", "p", 1, 0)];
    assert!(!days_cut_ok(&short));
}

#[test]
fn config_directory_of_a_config_path() {
    assert_eq!(contribution_showcase::paths::config_dir("showcase.toml"), "");
    assert_eq!(contribution_showcase::paths::config_dir("conf/showcase.toml"), "conf");
    assert_eq!(contribution_showcase::paths::config_dir(""), ".");
}

#[test]
fn test_detect_framework_none() {
    // Empty dir, no manifest files
    assert_eq!(detect_framework(None, false, None, None, None), "none");
}

#[test]
fn test_detect_framework_pytest() {
    let pyproject = "[tool.pytest]\n[project]\ndependencies = [\"pytest\"]";
    assert_eq!(detect_framework(Some(pyproject), false, None, None, None), "pytest");
}

#[test]
fn test_detect_framework_cargo() {
    assert_eq!(detect_framework(None, true, None, None, None), "cargo test");
}

#[test]
fn test_file_check_reads_the_last_component() {
    assert!(is_test_file("src/tests/test_auth.py", "pytest"));
    assert!(!is_test_file("test_dir/utils.py", "pytest"));
    assert!(is_test_file("web/src/app.test.ts", "vitest"));
    assert!(!is_test_file("a.test.d/main.ts", "vitest"));
    assert!(is_test_file("crate/src/lib.rs", "cargo test"));
}

#[test]
fn relative_paths_join_onto_the_config_directory() {
    let mut config = empty_config();
    config.projects = vec![project("a", "./repo"), project("b", "../my-backend")];
    assert!(config.resolve("conf/showcase.toml").is_ok());
    assert_eq!(config.projects[0].path, std::path::Path::new("conf").join("./repo").to_string_lossy());
    assert_eq!(config.projects[1].path, std::path::Path::new("conf").join("../my-backend").to_string_lossy());
    let mut plain = empty_config();
    plain.projects = vec![project("a", "repo")];
    assert!(plain.resolve("showcase.toml").is_ok());
    assert_eq!(plain.projects[0].path, "repo");
}

#[test]
fn file_name_stem_is_a_fixed_point() {
    for title in [Some("My Report"), Some("---a!!!b---"), Some("專案報告"), None, Some("Report #1: Q2 (2025)")] {
        let r = sanitize_title_for_filename(title);
        assert_eq!(sanitize_title_for_filename(Some(&r[..r.len() - 5])), r);
    }
}

#[test]
fn shortstat_reads_back_what_git_writes() {
    for (f, i, d) in [(1usize, 0usize, 7usize), (12, 345, 6789), (3, usize::MAX, 0)] {
        assert_eq!(parse_shortstat(&format!("{f} files changed, {i} insertions(+), {d} deletions(-)")), (i, d));
        assert_eq!(parse_shortstat(&format!("{f} files changed, {i} insertions(+)")), (i, 0));
        assert_eq!(parse_shortstat(&format!("{f} file changed, {d} deletions(-)")), (0, d));
    }
    assert_eq!(parse_shortstat(" \t\n"), (0, 0));
}

#[test]
fn every_dated_commit_lands_in_one_bucket() {
    let cs = vec![
        commit("a", "2023-12-30", "feat", "p", 3, 1),
        commit("b", "2024-01-01", "fix", "p", 7, 0),
        commit("c", "2024-02-29", "feat", "p", 0, 11),
        commit("d", "2024-07-15", "docs", "p", 2, 2),
        commit("e", "2025-10-01", "feat", "p", 100, 9),
        commit("f", "someday", "feat", "p", 50, 50),
    ];
    let dated_total = 3 + 1 + 7 + 11 + 2 + 2 + 100 + 9;
    for bound in [0usize, 1, 3, 5, 8, 14, 30, 1000] {
        let t = build_timeline_with(&cs, bound);
        let total: usize = t.buckets.iter().map(|b| b.lines).sum();
        assert_eq!(total, dated_total, "bound {bound}");
        let mut labels: Vec<&String> = t.buckets.iter().map(|b| &b.label).collect();
        labels.sort();
        labels.dedup();
        assert_eq!(labels.len(), t.buckets.len(), "bound {bound}");
    }
}

#[test]
fn a_relative_path_with_a_backslash_is_joined_too() {
    let mut config = empty_config();
    config.projects = vec![project("a", "sub\\repo"), project("b", "/opt/repos/foo")];
    assert!(config.resolve("conf/showcase.toml").is_ok());
    let sep = std::path::MAIN_SEPARATOR;
    assert_eq!(config.projects[0].path, format!("conf{sep}sub\\repo"));
    assert_eq!(config.projects[1].path, "/opt/repos/foo");
}

#[test]
fn coverage_report_kind_is_told_from_the_file_name() {
    assert_eq!(coverage_kind_of_path("proj/reports/coverage.xml"), Some(CoverageKind::Cobertura));
    assert_eq!(coverage_kind_of_path("proj/coverage/coverage-summary.json"), Some(CoverageKind::Istanbul));
    assert_eq!(coverage_kind_of_path("coverage.xml"), Some(CoverageKind::Cobertura));
    assert_eq!(coverage_kind_of_path("proj.xml/report.txt"), None);
    assert_eq!(coverage_kind_of_path(""), None);
}
