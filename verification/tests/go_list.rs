//! `go list`: plans and reports.

use go_filters::go_list_cmd::{
    collect_modules, collect_packages, detect_modules_mode, filter_go_list_modules,
    filter_go_list_packages, list_modules, list_packages, list_tee_request, run, strip_deep_flag,
    summarize_packages,
};
use go_filters::json::Member;
use go_filters::plan::{Filter, Plan};
use go_filters::report::TeeRequest;

const RULE_LINE: &str = "═══════════════════════════════════════";

fn words(list: &[&str]) -> Vec<String> {
    list.iter().map(|s| s.to_string()).collect()
}

fn see_remaining(request: Option<TeeRequest>) -> String {
    let request = request.expect("not all entries are shown");
    format!("[see remaining: tail -n +{} {}.log]", request.from_line, request.slug)
}

#[test]
fn test_filter_packages_simple() {
    // Object stream (no separators between objects)
    let input = r#"{"ImportPath":"example.com/foo","Name":"foo","Dir":"/tmp/foo"}{"ImportPath":"example.com/bar","Name":"bar","Dir":"/tmp/bar"}{"ImportPath":"example.com/baz","Name":"baz","Dir":"/tmp/baz"}"#;

    let result = filter_go_list_packages(input, None);
    assert!(result.contains("3 packages"), "got: {}", result);
    assert!(result.contains("example.com/foo"));
    assert!(result.contains("example.com/bar"));
    assert!(result.contains("example.com/baz"));
}

#[test]
fn test_filter_modules_simple() {
    let input = r#"{"Path":"example.com/myapp","Main":true,"GoVersion":"1.22"}{"Path":"github.com/pkg/errors","Version":"v0.9.1"}{"Path":"golang.org/x/sync","Version":"v0.5.0"}"#;

    let result = filter_go_list_modules(input, None);
    assert!(result.contains("3 modules"), "got: {}", result);
    // Main module marked with ★
    assert!(result.contains("★ example.com/myapp"), "got: {}", result);
    assert!(result.contains("github.com/pkg/errors@v0.9.1"));
    assert!(result.contains("golang.org/x/sync@v0.5.0"));
}

#[test]
fn test_filter_packages_truncate() {
    let mut input = String::new();
    for i in 0..15 {
        input.push_str(&format!(
            r#"{{"ImportPath":"example.com/pkg{}","Name":"pkg{}"}}"#,
            i, i
        ));
    }

    let packages = list_packages(&input);
    let hint = see_remaining(list_tee_request(&packages));
    let result = filter_go_list_packages(&input, Some(&hint));
    assert!(result.contains("15 packages"), "got: {}", result);
    assert!(result.contains("example.com/pkg0"));
    assert!(result.contains("example.com/pkg9"));
    // Should NOT contain entry #11 (index 10) directly listed
    assert!(!result.contains("11. example.com/pkg10"));
    assert!(result.contains("+5 more"), "got: {}", result);
    // The pointer to the whole list should be present.
    assert!(result.contains("[see remaining"), "got: {}", result);
}

#[test]
fn test_filter_packages_empty() {
    let result = filter_go_list_packages("", None);
    assert_eq!(result, "go list: no packages");
}

#[test]
fn test_filter_packages_corrupted_skipped() {
    // First object is valid, then corrupted JSON, then another valid object.
    // serde_json's streaming Deserializer stops at the first error, so any
    // tail after a corruption is dropped — but the leading valid object is
    // still counted.
    let input = r#"{"ImportPath":"example.com/foo","Name":"foo"}{"ImportPath":"exam"#;

    let result = filter_go_list_packages(input, None);
    assert!(result.contains("1 packages"), "got: {}", result);
    assert!(result.contains("example.com/foo"));
}

#[test]
fn test_filter_modules_empty() {
    let result = filter_go_list_modules("", None);
    assert_eq!(result, "go list: no modules");
}

#[test]
fn test_filter_modules_truncate() {
    let mut input = String::new();
    for i in 0..12 {
        input.push_str(&format!(
            r#"{{"Path":"example.com/mod{}","Version":"v0.0.{}"}}"#,
            i, i
        ));
    }

    let modules = list_modules(&input);
    let hint = see_remaining(list_tee_request(&modules));
    let result = filter_go_list_modules(&input, Some(&hint));
    assert!(result.contains("12 modules"), "got: {}", result);
    assert!(result.contains("example.com/mod0@v0.0.0"));
    assert!(result.contains("example.com/mod9@v0.0.9"));
    assert!(result.contains("+2 more"), "got: {}", result);
    assert!(result.contains("[see remaining"), "got: {}", result);
}

#[test]
fn test_detect_modules_mode() {
    assert!(detect_modules_mode(&[
        "-m".to_string(),
        "all".to_string()
    ]));
    assert!(detect_modules_mode(&["-m".to_string()]));
    assert!(!detect_modules_mode(&["./...".to_string()]));
    assert!(!detect_modules_mode(&[]));
    assert!(!detect_modules_mode(&["-mod=vendor".to_string()]));
}

#[test]
fn test_strip_deep_flag() {
    let (out, deep) = strip_deep_flag(&["--deep".to_string(), "./...".to_string()]);
    assert_eq!(out, vec!["./...".to_string()]);
    assert!(deep);

    let (out, deep) = strip_deep_flag(&["./...".to_string(), "-m".to_string()]);
    assert_eq!(out, vec!["./...".to_string(), "-m".to_string()]);
    assert!(!deep);

    let (out, deep) = strip_deep_flag(&[]);
    assert!(out.is_empty());
    assert!(!deep);

    // --deep can appear in any position
    let (out, deep) = strip_deep_flag(&[
        "-m".to_string(),
        "--deep".to_string(),
        "all".to_string(),
    ]);
    assert_eq!(out, vec!["-m".to_string(), "all".to_string()]);
    assert!(deep);
}

#[test]
fn package_report_is_exact() {
    let input = r#" {"Name":"n","Dir":"/d"} {"Dir":"/only/dir"}
        {"ImportPath":17,"Name":"named"} [1, 2] 3 "text" {"Other":true} {"ImportPath":"p"} "#;
    assert_eq!(
        filter_go_list_packages(input, None),
        format!("go list: 4 packages\n{RULE_LINE}\n1. n\n2. /only/dir\n3. named\n4. p")
    );
}

#[test]
fn module_report_is_exact() {
    let input = r#"{"Path":"m","Main":true,"Version":"v1"}{"Path":"a","Main":"yes"}
        {"Version":"v2"}{"Path":"b","Main":false,"Version":null}"#;
    assert_eq!(
        filter_go_list_modules(input, Some("unused")),
        format!("go list: 3 modules\n{RULE_LINE}\n1. ★ m@v1\n2. a\n3. b")
    );
}

#[test]
fn stream_ends_at_the_first_error() {
    let input = r#"{"ImportPath":"a"} oops {"ImportPath":"b"}"#;
    assert_eq!(list_packages(input), words(&["a"]));
    assert_eq!(list_modules(r#"{"Path":"a"}{"#), words(&["a"]));
}

#[test]
fn nothing_counts_after_a_broken_object() {
    let whole = r#"{"ImportPath":"a"} {"Name":"b"}
"#;
    let broken = format!(r#"{whole}{{"ImportPath": oops}} {{"ImportPath":"c"}}"#);
    assert_eq!(list_packages(&broken), words(&["a", "b"]));
    assert_eq!(
        filter_go_list_packages(&broken, None),
        filter_go_list_packages(whole, None)
    );
    assert_eq!(
        filter_go_list_modules(r#"{"Path":"a"}{"Path""b"}{"Path":"c"}"#, None),
        filter_go_list_modules(r#"{"Path":"a"}"#, None)
    );
}

#[test]
fn blank_list_output_lists_nothing() {
    assert_eq!(filter_go_list_packages(" \t\r\n", None), "go list: no packages");
    assert_eq!(filter_go_list_modules("\n\n", None), "go list: no modules");
}

#[test]
fn a_long_list_is_cut_and_kept_on_disk() {
    let entries: Vec<String> = (1..=12).map(|i| format!("p{i}")).collect();
    let request = list_tee_request(&entries).expect("not all entries are shown");
    assert_eq!(request.content, entries.join("\n"));
    assert_eq!(request.slug, "go-list");
    assert_eq!(request.from_line, 11);
    let rows: String = (1..=10).map(|i| format!("{i}. p{i}\n")).collect();
    assert_eq!(
        summarize_packages(&entries, Some("see x")),
        format!("go list: 12 packages\n{RULE_LINE}\n{rows}\n… +2 more\n  see x")
    );
    assert_eq!(
        summarize_packages(&entries, None),
        format!("go list: 12 packages\n{RULE_LINE}\n{rows}\n… +2 more")
    );
}

#[test]
fn a_short_list_needs_no_pointer() {
    let entries: Vec<String> = (1..=10).map(|i| format!("p{i}")).collect();
    assert!(list_tee_request(&entries).is_none());
    assert_eq!(
        summarize_packages(&entries, Some("see x")),
        summarize_packages(&entries, None)
    );
}

#[test]
fn members_of_an_item_are_read_by_key() {
    let item = |members: Vec<(&str, Member)>| {
        Some(members.into_iter().map(|(k, v)| (k.to_string(), v)).collect())
    };
    let text = |s: &str| Member::Text(s.to_string());
    let items = vec![
        None,
        item(vec![("Path", text("m")), ("Main", Member::Bool(true))]),
        item(vec![("Path", Member::Null), ("ImportPath", text("i"))]),
        item(vec![("ImportPath", Member::Object), ("Name", Member::Array), ("Dir", text("d"))]),
        item(vec![("Dir", Member::Number)]),
    ];
    assert_eq!(collect_packages(&items), words(&["i", "d"]));
    assert_eq!(collect_modules(&items), words(&["★ m"]));
}

#[test]
fn go_list_is_planned_with_json() {
    let Plan::Filtered(f) = run(&words(&["./..."]), 1) else {
        panic!("a filtered run is planned");
    };
    assert_eq!(f.program, "go");
    assert_eq!(f.args, words(&["list", "-json", "./..."]));
    assert_eq!(f.announcement, Some("Running: go list -json ./...".to_string()));
    assert_eq!(f.tool, "go list");
    assert_eq!(f.shown_args, "./...");
    assert!(matches!(f.filter, Filter::ListPackages));
    assert!(f.stdout_only);
    assert_eq!(f.tee, "go_list");
}

#[test]
fn go_list_keeps_the_format_that_was_asked_for() {
    let Plan::Filtered(f) = run(&words(&["-m", "-json=Path", "all"]), 1) else {
        panic!("a filtered run is planned");
    };
    assert_eq!(f.args, words(&["list", "-m", "-json=Path", "all"]));
    assert_eq!(f.announcement, Some("Running: go list -m -json=Path all".to_string()));
    assert!(matches!(f.filter, Filter::ListModules));
}

#[test]
fn deep_list_is_handed_on_without_the_flag() {
    let Plan::Filtered(f) = run(&words(&["--deep", "-m", "--deep", "all"]), 0) else {
        panic!("a filtered run is planned");
    };
    assert_eq!(f.args, words(&["list", "-m", "all"]));
    assert_eq!(f.announcement, None);
    assert_eq!(f.shown_args, "-m all");
    assert!(matches!(f.filter, Filter::Verbatim));
}
