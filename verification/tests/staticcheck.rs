//! `staticcheck`: plans and reports.

use go_filters::plan::{Filter, Plan};
use go_filters::staticcheck_cmd::{
    collect_issues, decode_issues, filter_staticcheck_json, inject_format_flag, run,
    settle_exit_code, summarize_issues, tee_request, Issue, Location,
};
use serde_json::Value;

const RULE_LINE: &str = "═══════════════════════════════════════";

fn words(list: &[&str]) -> Vec<String> {
    list.iter().map(|s| s.to_string()).collect()
}

fn decode(text: &str) -> Option<Issue> {
    let value: Value = serde_json::from_str(text).ok()?;
    let location = value.get("location")?;
    let member = |v: &Value, key: &str| Some(v.get(key)?.as_str()?.to_string());
    Some(Issue {
        code: member(&value, "code")?,
        location: Location {
            file: member(location, "file")?,
            line: location.get("line")?.as_u64()?,
        },
        message: member(&value, "message")?,
    })
}

fn issue(code: &str, file: &str, line: u64, message: &str) -> Option<Issue> {
    Some(Issue {
        code: code.to_string(),
        location: Location { file: file.to_string(), line },
        message: message.to_string(),
    })
}

#[test]
fn staticcheck_cmd_test_filter_clean() {
    let result = filter_staticcheck_json("", decode, None);
    assert_eq!(result, "staticcheck: clean (0 issues)");
}

#[test]
fn test_filter_clean_with_blank_and_noise_lines() {
    // Blank lines and non-JSON noise should be skipped without affecting "clean".
    let input = "\n\nnot json garbage\n  \n";
    let result = filter_staticcheck_json(input, decode, None);
    assert_eq!(result, "staticcheck: clean (0 issues)");
}

#[test]
fn test_filter_single_issue() {
    let input = r#"{"code":"SA1000","severity":"error","location":{"file":"a.go","line":10,"column":2},"end":{"file":"a.go","line":10,"column":20},"message":"invalid regular expression: missing closing )"}"#;
    let result = filter_staticcheck_json(input, decode, None);
    assert!(result.contains("1 issue across 1 rule"), "got: {}", result);
    assert!(result.contains("SA1000 (1):"));
    assert!(result.contains("a.go:10"));
    assert!(result.contains("invalid regular expression"));
}

#[test]
fn test_filter_clustering() {
    // 5 SA1000 + 2 SA4006 → 7 issues, 2 rules, SA1000 listed first (higher count).
    let mut lines: Vec<String> = Vec::new();
    for i in 1..=5 {
        lines.push(format!(
            r#"{{"code":"SA1000","severity":"error","location":{{"file":"a{i}.go","line":{i},"column":1}},"message":"invalid regular expression"}}"#
        ));
    }
    for i in 1..=2 {
        lines.push(format!(
            r#"{{"code":"SA4006","severity":"warning","location":{{"file":"b{i}.go","line":{i},"column":1}},"message":"this value is never used"}}"#
        ));
    }
    let input = lines.join("\n");
    let result = filter_staticcheck_json(&input, decode, None);

    assert!(result.contains("7 issues across 2 rules"), "got: {}", result);
    let sa1000_pos = result.find("SA1000").expect("SA1000 missing");
    let sa4006_pos = result.find("SA4006").expect("SA4006 missing");
    assert!(
        sa1000_pos < sa4006_pos,
        "SA1000 (higher count) should be listed first"
    );
    assert!(result.contains("SA1000 (5):"));
    assert!(result.contains("SA4006 (2):"));
}

#[test]
fn test_filter_truncate_per_rule() {
    // 10 issues for one rule → 3 samples + "+7 more"
    let mut lines: Vec<String> = Vec::new();
    for i in 1..=10 {
        lines.push(format!(
            r#"{{"code":"SA1000","severity":"error","location":{{"file":"a{i}.go","line":{i},"column":1}},"message":"invalid regular expression"}}"#
        ));
    }
    let input = lines.join("\n");
    let result = filter_staticcheck_json(&input, decode, None);

    assert!(result.contains("SA1000 (10):"));
    assert!(result.contains("... +7 more"), "got: {}", result);
    // Should show exactly 3 sample lines (count occurrences of file pattern).
    let sample_count = result.matches(".go:").count();
    assert_eq!(sample_count, 3, "expected 3 samples, got: {}", result);
}

#[test]
fn test_filter_truncate_total() {
    // >50 issues: the report must include the issue summary.
    let mut lines: Vec<String> = Vec::new();
    for i in 1..=60 {
        lines.push(format!(
            r#"{{"code":"SA1000","severity":"error","location":{{"file":"a{i}.go","line":{i},"column":1}},"message":"invalid regular expression"}}"#
        ));
    }
    let input = lines.join("\n");
    let result = filter_staticcheck_json(&input, decode, None);

    assert!(
        result.contains("60 issues across 1 rule"),
        "got: {}",
        result
    );
    assert!(result.contains("SA1000 (60):"));
}

#[test]
fn test_filter_corrupted_skipped() {
    // Mix of bad JSON and good objects — bad lines are ignored.
    let input = r#"not a json line
{"code":"SA1000","severity":"error","location":{"file":"a.go","line":10,"column":2},"message":"invalid regular expression"}
{this is also broken
{"code":"SA4006","severity":"warning","location":{"file":"b.go","line":5,"column":10},"message":"this value is never used"}
"#;
    let result = filter_staticcheck_json(input, decode, None);
    assert!(result.contains("2 issues across 2 rules"), "got: {}", result);
    assert!(result.contains("a.go:10"));
    assert!(result.contains("b.go:5"));
}

#[test]
fn test_filter_top_5_rules_truncates_extras() {
    // 6 distinct rule codes — only top 5 shown, extras roll up to "+1 more rules".
    let lines: Vec<String> = (1..=6)
        .map(|i| {
            format!(
                r#"{{"code":"SA{:04}","severity":"error","location":{{"file":"f{i}.go","line":{i},"column":1}},"message":"msg{i}"}}"#,
                1000 + i
            )
        })
        .collect();
    let input = lines.join("\n");
    let result = filter_staticcheck_json(&input, decode, None);
    assert!(result.contains("6 issues across 6 rules"), "got: {}", result);
    assert!(result.contains("... +1 more rules"), "got: {}", result);
}

#[test]
fn test_inject_format_flag_when_missing() {
    let args = vec!["./...".to_string()];
    let result = inject_format_flag(&args);
    assert_eq!(result, vec!["-f", "json", "./..."]);
}

#[test]
fn test_inject_format_flag_idempotent_with_separate_value() {
    let args = vec!["-f".to_string(), "json".to_string(), "./...".to_string()];
    let result = inject_format_flag(&args);
    assert_eq!(result, args);
}

#[test]
fn test_inject_format_flag_respects_user_choice() {
    // The chosen `-f stylish` must not be overwritten.
    let args = vec!["-f".to_string(), "stylish".to_string()];
    let result = inject_format_flag(&args);
    assert_eq!(result, args);
}

#[test]
fn test_inject_format_flag_idempotent_with_inline_value() {
    let args = vec!["-f=json".to_string(), "./...".to_string()];
    let result = inject_format_flag(&args);
    assert_eq!(result, args);
}

#[test]
fn test_inject_format_flag_recognizes_long_form() {
    let args = vec!["-format".to_string(), "json".to_string()];
    let result = inject_format_flag(&args);
    assert_eq!(result, args);

    let args2 = vec!["-format=stylish".to_string()];
    let result2 = inject_format_flag(&args2);
    assert_eq!(result2, args2);
}

#[test]
fn finding_report_is_exact() {
    let records = vec![
        issue("S2", "a.go", 1, "two"),
        issue("S1", "b.go", 2, "one"),
        None,
        issue("S1", "c.go", 3, "uno"),
    ];
    let issues = collect_issues(&records);
    assert_eq!(
        summarize_issues(&issues, Some("unused")),
        format!(
            "staticcheck: 3 issues across 2 rules\n{RULE_LINE}\n\
             S1 (2): one\n  b.go:2  one\n  c.go:3  uno\nS2 (1): two\n  a.go:1  two"
        )
    );
}

#[test]
fn codes_of_one_frequency_come_by_name() {
    let records: Vec<Option<Issue>> =
        ["S30", "S4", "S3", "s1"].iter().map(|c| issue(c, "f.go", 1, "m")).collect();
    let report = summarize_issues(&collect_issues(&records), None);
    let heads: Vec<&str> = report.lines().skip(2).step_by(2).collect();
    assert_eq!(heads, vec!["S3 (1): m", "S30 (1): m", "S4 (1): m", "s1 (1): m"]);
}

#[test]
fn messages_are_cut() {
    let records = vec![issue("S", "f.go", 7, &"w".repeat(130))];
    let cut = format!("{}...", "w".repeat(117));
    assert_eq!(
        summarize_issues(&collect_issues(&records), None),
        format!("staticcheck: 1 issue across 1 rule\n{RULE_LINE}\nS (1): {cut}\n  f.go:7  {cut}")
    );
}

#[test]
fn malformed_findings_make_no_difference() {
    let good = r#"{"code":"S","location":{"file":"f.go","line":1},"message":"m"}"#;
    let mixed = format!("noise\n{{\"code\":1}}\n{good}\n{{broken");
    assert_eq!(decode_issues(&mixed, decode).len(), 1);
    assert_eq!(
        filter_staticcheck_json(&mixed, decode, None),
        filter_staticcheck_json(good, decode, None)
    );
}

#[test]
fn many_findings_are_kept_on_disk() {
    let records: Vec<Option<Issue>> = (0..51).map(|i| issue("S", "f.go", i, "m")).collect();
    let issues = collect_issues(&records);
    let request = tee_request("raw", issues.len()).expect("there are many findings");
    assert_eq!(request.content, "raw");
    assert_eq!(request.slug, "staticcheck");
    assert_eq!(request.from_line, 1);
    let report = summarize_issues(&issues, Some("see x"));
    assert!(report.ends_with("  ... +48 more\n\nsee x"), "got: {}", report);
    assert!(tee_request("raw", 50).is_none());
}

#[test]
fn findings_are_no_failure() {
    assert_eq!(settle_exit_code(0), 0);
    assert_eq!(settle_exit_code(1), 0);
    assert_eq!(settle_exit_code(2), 2);
    assert_eq!(settle_exit_code(-1), -1);
}

#[test]
fn staticcheck_is_planned_with_json() {
    let Plan::Filtered(f) = run(&words(&["./..."]), 1) else {
        panic!("a filtered run is planned");
    };
    assert_eq!(f.program, "staticcheck");
    assert_eq!(f.args, words(&["-f", "json", "./..."]));
    assert_eq!(f.announcement, Some("Running: staticcheck -f json ./...".to_string()));
    assert_eq!(f.tool, "staticcheck");
    assert_eq!(f.shown_args, "./...");
    assert!(matches!(f.filter, Filter::Staticcheck));
    assert!(f.stdout_only);
    assert_eq!(f.tee, "staticcheck");
}

#[test]
fn the_format_is_set_once() {
    let once = inject_format_flag(&words(&["x"]));
    assert_eq!(inject_format_flag(&once), once);
    let foreign = words(&["--format=json"]);
    assert_eq!(inject_format_flag(&foreign), words(&["-f", "json", "--format=json"]));
}

#[test]
fn order_of_codes_makes_no_difference() {
    let line = |code: &str, n: u32| {
        format!(r#"{{"code":"{code}","location":{{"file":"f{n}.go","line":{n}}},"message":"m{n}"}}"#)
    };
    let (a1, a2, b1, b2) = (line("A", 1), line("A", 2), line("B", 3), line("B", 4));
    let p = format!("{a1}\n{a2}\n{b1}\n{b2}");
    let q = format!("\n{b1}\n{a1}\nnoise\n{b2}\n{{broken\n{a2}\n");
    assert_eq!(
        filter_staticcheck_json(&q, decode, None),
        filter_staticcheck_json(&p, decode, None)
    );
}
