//! `go mod`: plans and reports.

use go_filters::go_mod_cmd::{
    append_list, classify_download_line, classify_tidy_line, filter_mod_download, filter_mod_graph,
    filter_mod_tidy, filter_mod_tidy_checked, graph_tee_request, is_mod_error_line,
    is_mod_warning_line, parse_graph, run, strip_prefix, summarize_graph, DownloadLine, TidyLine,
    MAX_GRAPH_EDGES,
};
use go_filters::plan::{Filter, Plan, PlanError};

const RULE_LINE: &str = "═══════════════════════════════════════";

fn words(list: &[&str]) -> Vec<String> {
    list.iter().map(|s| s.to_string()).collect()
}

#[test]
fn test_filter_mod_tidy_clean() {
    let output = r#"go: finding module github.com/foo/bar
go: downloading github.com/foo/bar v1.0.0
go: extracting github.com/foo/bar v1.0.0
go: finding module github.com/baz/qux
go: downloading github.com/baz/qux v0.2.1"#;

    let result = filter_mod_tidy(output);
    assert_eq!(result, "go mod tidy: no changes");
}

#[test]
fn test_filter_mod_tidy_with_changes() {
    let output = r#"go: finding module github.com/foo/bar
go: downloading github.com/foo/bar v1.0.0
go: added github.com/foo/bar v1.0.0
go: removed github.com/old/dep v0.5.0
go: upgraded github.com/baz/qux v0.1.0 => v0.2.1"#;

    let result = filter_mod_tidy(output);
    assert!(
        result.starts_with("go mod tidy: 1 added, 1 removed, 1 upgraded"),
        "Expected counts in header, got: {}",
        result
    );
    assert!(result.contains("github.com/foo/bar"));
    assert!(result.contains("github.com/old/dep"));
    assert!(result.contains("github.com/baz/qux"));
}

#[test]
fn test_filter_mod_tidy_keeps_errors() {
    let output = r#"go: finding module github.com/foo/bar
go: downloading github.com/foo/bar v1.0.0
error: missing go.sum entry for github.com/foo/bar
go: warning: module flagged for deprecation"#;

    let result = filter_mod_tidy(output);
    assert!(
        result.contains("missing go.sum entry"),
        "Errors must be preserved, got: {}",
        result
    );
    assert!(
        result.contains("flagged for deprecation"),
        "Warnings must be preserved, got: {}",
        result
    );
}

#[test]
fn test_filter_mod_download_all_success() {
    let output = r#"go: downloading github.com/a/a v1.0.0
go: downloading github.com/b/b v1.1.0
go: downloading github.com/c/c v1.2.0
go: downloading github.com/d/d v1.3.0
go: downloading github.com/e/e v1.4.0"#;

    let result = filter_mod_download(output);
    assert_eq!(result, "go mod download: 5 modules downloaded, 0 failed");
}

#[test]
fn test_filter_mod_download_with_failures() {
    let output = r#"go: downloading github.com/a/a v1.0.0
go: downloading github.com/b/b v1.1.0
error: failed to download github.com/missing/mod v1.0.0: 404 not found
go: downloading github.com/c/c v1.2.0"#;

    let result = filter_mod_download(output);
    assert!(
        result.starts_with("go mod download: 3 modules downloaded, 1 failed"),
        "Wrong header, got: {}",
        result
    );
    assert!(
        result.contains("github.com/missing/mod"),
        "Failure detail must be preserved, got: {}",
        result
    );
}

#[test]
fn test_filter_mod_graph_dedupe() {
    // Same edge listed twice — dedupe should keep it only once.
    let output = r#"root.example/m a@v1.0.0
root.example/m a@v1.0.0
a@v1.0.0 b@v0.5.0"#;

    let result = filter_mod_graph(output, None);
    // Only one direct edge from root → a.
    assert_eq!(
        result.matches("root.example/m → a@v1.0.0").count(),
        1,
        "Duplicate edges should be deduped, got: {}",
        result
    );
    // Header should report 2 unique edges (root→a, a→b), 3 modules.
    assert!(
        result.contains("3 modules, 2 edges"),
        "Wrong counts in header, got: {}",
        result
    );
}

#[test]
fn test_filter_mod_graph_root_only_default() {
    let output = r#"root.example/m a@v1.0.0
root.example/m b@v1.0.0
a@v1.0.0 c@v0.1.0
b@v1.0.0 d@v0.1.0"#;

    let result = filter_mod_graph(output, None);
    // Direct deps of root only.
    assert!(result.contains("root.example/m → a@v1.0.0"));
    assert!(result.contains("root.example/m → b@v1.0.0"));
    // Transitive edges should NOT appear in default view.
    assert!(
        !result.contains("a@v1.0.0 → c@v0.1.0"),
        "Transitive edge should be hidden by default, got: {}",
        result
    );
    assert!(
        !result.contains("b@v1.0.0 → d@v0.1.0"),
        "Transitive edge should be hidden by default, got: {}",
        result
    );
}

#[test]
fn test_filter_mod_graph_truncate() {
    // Build > 50 direct edges from a single root.
    let mut lines = Vec::new();
    for i in 0..MAX_GRAPH_EDGES + 5 {
        lines.push(format!("root.example/m dep{}@v1.0.0", i));
    }
    let output = lines.join("\n");

    let result = filter_mod_graph(&output, None);
    assert!(
        result.contains(&format!(
            "… +{} more edges",
            (MAX_GRAPH_EDGES + 5) - MAX_GRAPH_EDGES
        )),
        "Truncation marker missing, got: {}",
        result
    );
    // Should NOT include the 51st (zero-indexed dep50) in the visible list.
    let visible_count = result.matches("root.example/m → dep").count();
    assert_eq!(
        visible_count, MAX_GRAPH_EDGES,
        "Should display exactly {} edges, got {} in: {}",
        MAX_GRAPH_EDGES, visible_count, result
    );
}

#[test]
fn test_filter_mod_download_empty() {
    let result = filter_mod_download("");
    assert_eq!(result, "go mod download: 0 modules downloaded, 0 failed");
}

#[test]
fn test_filter_mod_graph_empty() {
    let result = filter_mod_graph("", None);
    assert_eq!(result, "go mod graph: 0 modules, 0 edges");
}

#[test]
fn tidy_report_is_exact() {
    let output = "go: finding x\n  go: added a v1  \ngo: removed b v2\n\
                  Go: Upgraded C v1 => v2\nWARNING: w\nsome Error occurred\nall done\n";
    assert_eq!(
        filter_mod_tidy(output),
        format!(
            "go mod tidy: 1 added, 1 removed, 1 upgraded\n{RULE_LINE}\n\
             added (1):\n  a v1\nremoved (1):\n  b v2\nupgraded (1):\n  C v1 => v2\n\n\
             errors (1):\n  some Error occurred\n\nwarnings (1):\n  WARNING: w"
        )
    );
}

#[test]
fn tidy_errors_outrank_progress() {
    let output = "go: downloading x: error: 404\ngo: finding y warning: old";
    assert_eq!(
        filter_mod_tidy(output),
        "go mod tidy: no changes\n\nerrors (1):\n  go: downloading x: error: 404\n\n\
         warnings (1):\n  go: finding y warning: old"
    );
}

#[test]
fn tidy_lists_are_capped() {
    let lines: Vec<String> = (1..=32).map(|i| format!("error: e{i}")).collect();
    let report = filter_mod_tidy(&lines.join("\n"));
    assert!(report.contains("errors (32):\n"), "got: {}", report);
    assert!(report.contains("  error: e30\n  … +2 more errors"), "got: {}", report);
    assert!(!report.contains("e31"), "got: {}", report);
}

#[test]
fn tidy_items_are_cut_to_the_width_of_a_report() {
    let mut out = String::from("> ");
    append_list(&mut out, "added", &[]);
    assert_eq!(out, "> ");
    append_list(&mut out, "added", &["m".repeat(121), "n".repeat(120)]);
    assert_eq!(
        out,
        format!("> added (2):\n  {}...\n  {}\n", "m".repeat(117), "n".repeat(120))
    );
}

#[test]
fn checked_tidy_gives_the_same_report() {
    let output = "go: added ä v1\nGO: REMOVED b";
    assert_eq!(filter_mod_tidy_checked(output), Some(filter_mod_tidy(output)));
    assert_eq!(
        filter_mod_tidy_checked(" \n"),
        Some("go mod tidy: no changes".to_string())
    );
}

#[test]
fn prefixes_are_cut_by_bytes() {
    let cut = |s: &str| Some(s.to_string());
    assert_eq!(strip_prefix("Go: Added  X ", "go: added  x ", "go: added "), cut("X"));
    assert_eq!(strip_prefix("go: kept", "go: kept", "go: added "), cut("go: kept"));
    assert_eq!(strip_prefix("éééééx", "go: added x", "go: added "), cut("x"));
    assert_eq!(strip_prefix("€€€€", "go: added x", "go: added "), None);
    assert_eq!(strip_prefix("short", "go: added x", "go: added "), None);
    assert!(classify_tidy_line("€€€€", "go: added x").is_none());
}

#[test]
fn tidy_lines_are_classified() {
    let kind = |line: &str| classify_tidy_line(line, line);
    assert!(matches!(kind("error: x"), Some(TidyLine::Error(l)) if l == "error: x"));
    assert!(matches!(kind("warning x"), Some(TidyLine::Warning(l)) if l == "warning x"));
    assert!(matches!(kind("go: added a v1"), Some(TidyLine::Added(m)) if m == "a v1"));
    assert!(matches!(kind("go: removed a v1"), Some(TidyLine::Removed(m)) if m == "a v1"));
    assert!(matches!(kind("go: upgraded a"), Some(TidyLine::Upgraded(m)) if m == "a"));
    assert!(matches!(kind("go: extracting a"), Some(TidyLine::Noise)));
    assert!(matches!(kind("anything"), Some(TidyLine::Noise)));
}

#[test]
fn errors_and_warnings_are_told_by_their_words() {
    assert!(is_mod_error_line("an error: x"));
    assert!(is_mod_error_line("error x"));
    assert!(is_mod_error_line("an error here"));
    assert!(!is_mod_error_line("an error"));
    assert!(!is_mod_error_line("errors"));
    assert!(is_mod_warning_line("warning:x"));
    assert!(is_mod_warning_line("warning x"));
    assert!(is_mod_warning_line("go: warning: x"));
    assert!(!is_mod_warning_line("a warning x"));
}

#[test]
fn download_report_is_exact() {
    let lines: Vec<String> = (1..=21).map(|i| format!("x{i} Failed")).collect();
    let output = format!("GO: downloading a\ngo: finding b\n{}\n", lines.join("\n"));
    let rows: String = (1..=20).map(|i| format!("  x{i} Failed\n")).collect();
    assert_eq!(
        filter_mod_download(&output),
        format!(
            "go mod download: 1 modules downloaded, 21 failed\n{RULE_LINE}\n{rows}  … +1 more failures"
        )
    );
}

#[test]
fn download_lines_are_classified() {
    assert!(matches!(
        classify_download_line("go: downloading x failed", "go: downloading x failed"),
        DownloadLine::Failure(l) if l == "go: downloading x failed"
    ));
    assert!(matches!(classify_download_line("X", "go: downloading x"), DownloadLine::Download));
    assert!(matches!(classify_download_line("go: downloading x", "x"), DownloadLine::Noise));
}

#[test]
fn graph_report_is_exact() {
    let output = "root a@v1\n  a@v1 \t b@v1\nroot a@v1\none\nx y z\nroot b@v1\n";
    assert_eq!(
        filter_mod_graph(output, Some("unused")),
        format!(
            "go mod graph: 3 modules, 3 edges (showing direct deps)\n{RULE_LINE}\n  root → a@v1\n  root → b@v1"
        )
    );
}

#[test]
fn a_graph_without_a_root_is_shown_whole() {
    assert_eq!(
        filter_mod_graph("a b\nb a", None),
        format!(
            "go mod graph: 2 modules, 2 edges (showing direct deps)\n{RULE_LINE}\n  a → b\n  b → a"
        )
    );
}

#[test]
fn a_large_graph_is_cut_and_kept_on_disk() {
    let mut lines = words(&["d0 e"]);
    lines.extend((0..52).map(|i| format!("root d{i}")));
    let edges = parse_graph(&lines.join("\n"));
    assert_eq!(edges.len(), 53);
    let request = graph_tee_request(&edges).expect("not all edges are shown");
    assert_eq!(request.content, lines.join("\n"));
    assert_eq!(request.slug, "go-mod-graph");
    assert_eq!(request.from_line, 51);
    let report = summarize_graph(&edges, Some("see x"));
    assert!(report.starts_with("go mod graph: 54 modules, 53 edges"), "got: {}", report);
    assert!(report.ends_with("  root → d49\n\n… +2 more edges\n  see x"), "got: {}", report);
    assert!(!report.contains("d0 → e"), "got: {}", report);
    assert!(summarize_graph(&edges, None).ends_with("… +2 more edges"));
}

#[test]
fn a_small_graph_needs_no_pointer() {
    let edges = parse_graph("root a\nroot b");
    assert!(graph_tee_request(&edges).is_none());
    assert_eq!(summarize_graph(&edges, Some("see x")), summarize_graph(&edges, None));
}

#[test]
fn blank_mod_output_says_so() {
    let blank = "\n \t \r\n";
    assert_eq!(filter_mod_tidy(blank), "go mod tidy: no changes");
    assert_eq!(filter_mod_download(blank), "go mod download: 0 modules downloaded, 0 failed");
    assert_eq!(filter_mod_graph(blank, None), "go mod graph: 0 modules, 0 edges");
}

#[test]
fn go_mod_without_a_subcommand_is_refused() {
    let refused = run(&[], 0);
    assert!(matches!(&refused, Err(PlanError::GoModSubcommandMissing)));
    if let Err(e) = refused {
        assert_eq!(e.message(), "go mod: no subcommand specified");
    }
}

#[test]
fn tidy_and_download_are_planned() {
    let Ok(Plan::Filtered(t)) = run(&words(&["tidy", "-v", "-x"]), 1) else {
        panic!("a filtered run is planned");
    };
    assert_eq!(t.program, "go");
    assert_eq!(t.args, words(&["mod", "tidy", "-v", "-x"]));
    assert_eq!(t.announcement, Some("Running: go mod tidy -v -x".to_string()));
    assert_eq!(t.tool, "go mod tidy");
    assert_eq!(t.shown_args, "-v -x");
    assert!(matches!(t.filter, Filter::ModTidy));
    assert!(!t.stdout_only);
    assert_eq!(t.tee, "go_mod_tidy");
    let Ok(Plan::Filtered(d)) = run(&words(&["download"]), 0) else {
        panic!("a filtered run is planned");
    };
    assert_eq!(d.args, words(&["mod", "download"]));
    assert_eq!(d.announcement, None);
    assert!(matches!(d.filter, Filter::ModDownload));
    assert_eq!(d.tee, "go_mod_download");
}

#[test]
fn deep_graph_is_handed_on_without_the_flag() {
    let Ok(Plan::Filtered(g)) = run(&words(&["graph", "--deep", "-go=1.22"]), 1) else {
        panic!("a filtered run is planned");
    };
    assert_eq!(g.args, words(&["mod", "graph", "-go=1.22"]));
    assert_eq!(g.announcement, Some("Running: go mod graph -go=1.22 (deep=true)".to_string()));
    assert_eq!(g.shown_args, "-go=1.22");
    assert!(matches!(g.filter, Filter::Verbatim));
    assert_eq!(g.tee, "go_mod_graph");
    let Ok(Plan::Filtered(g)) = run(&words(&["graph"]), 1) else {
        panic!("a filtered run is planned");
    };
    assert_eq!(g.announcement, Some("Running: go mod graph  (deep=false)".to_string()));
    assert!(matches!(g.filter, Filter::ModGraph));
}

#[test]
fn other_mod_subcommands_are_handed_on() {
    let Ok(Plan::Passthrough(p)) = run(&words(&["why", "-m", "x"]), 1) else {
        panic!("a run that is handed on is planned");
    };
    assert_eq!(p.program, "go");
    assert_eq!(p.args, words(&["mod", "why", "-m", "x"]));
    assert_eq!(p.announcement, Some("Running: go mod why ...".to_string()));
    assert_eq!(p.failure, "Failed to run go mod why");
    assert_eq!(p.original, "go mod why");
    assert_eq!(p.given, "rtk go mod why");
    assert_eq!(p.label, "go mod");
}

#[test]
fn progress_makes_no_difference_to_mod_reports() {
    let telling = "go: added a v1\nerror: e\ngo: downloading m\nx failed";
    let noisy = "go: finding z\ngo: added a v1\nhello\nerror: e\ngo: extracting y\n\
                 go: downloading m\nx failed\ndone";
    assert_eq!(filter_mod_tidy(noisy), filter_mod_tidy(telling));
    assert_eq!(filter_mod_download(noisy), filter_mod_download(telling));
}

#[test]
fn lines_without_an_edge_make_no_difference() {
    assert_eq!(
        filter_mod_graph("one\nroot a\n\nx y z\na b\n  ", None),
        filter_mod_graph("root a\na b", None)
    );
}
