//! `buf`: plans and reports.

use go_filters::buf_cmd::{
    classify_generate_line, collect_issues, filter_buf_build, filter_buf_generate,
    filter_buf_lint_json, inject_lint_format, is_buf_error_line, is_buf_progress_line,
    parse_plugin_failure_marker, parse_plugin_failure_text, parse_plugin_invocation, run,
    run_other, summarize_lint, tells_of_error, BufLintAnnotation, GenerateLine,
};
use go_filters::plan::{Filter, Plan, PlanError};
use serde_json::Value;

const RULE_LINE: &str = "═══════════════════════════════════════";

fn text_or_none(v: Option<&Value>) -> Option<Option<String>> {
    match v {
        None | Some(Value::Null) => Some(None),
        Some(Value::String(s)) => Some(Some(s.clone())),
        Some(_) => None,
    }
}

fn number_or_none(v: Option<&Value>) -> Option<Option<u32>> {
    match v {
        None | Some(Value::Null) => Some(None),
        Some(n) => u32::try_from(n.as_u64()?).ok().map(Some),
    }
}

fn decode(text: &str) -> Option<BufLintAnnotation> {
    let value: Value = serde_json::from_str(text).ok()?;
    let members = value.as_object()?;
    Some(BufLintAnnotation {
        path: text_or_none(members.get("path"))?,
        start_line: number_or_none(members.get("start_line"))?,
        start_column: number_or_none(members.get("start_column"))?,
        rule_type: text_or_none(members.get("type"))?,
        message: text_or_none(members.get("message"))?,
    })
}

fn words(list: &[&str]) -> Vec<String> {
    list.iter().map(|s| s.to_string()).collect()
}

#[test]
fn test_filter_lint_clean() {
    let result = filter_buf_lint_json("", decode);
    assert_eq!(result, "buf lint: clean (0 issues)");

    let result_ws = filter_buf_lint_json("\n   \n", decode);
    assert_eq!(result_ws, "buf lint: clean (0 issues)");
}

#[test]
fn test_filter_lint_clustering() {
    let input = r#"{"path":"foo.proto","start_line":12,"start_column":3,"end_line":12,"end_column":20,"type":"FIELD_LOWER_SNAKE_CASE","message":"Field name should be lower_snake_case"}
{"path":"baz.proto","start_line":8,"start_column":5,"end_line":8,"end_column":12,"type":"FIELD_LOWER_SNAKE_CASE","message":"Field name should be lower_snake_case"}
{"path":"bar.proto","start_line":5,"start_column":1,"end_line":5,"end_column":10,"type":"PACKAGE_DEFINED","message":"Files must have a package defined"}
{"path":"qux.proto","start_line":1,"start_column":1,"end_line":1,"end_column":1,"type":"PACKAGE_DEFINED","message":"Files must have a package defined"}
{"path":"abc.proto","start_line":3,"start_column":1,"end_line":3,"end_column":5,"type":"ENUM_VALUE_PREFIX","message":"Enum value should be prefixed"}"#;

    let result = filter_buf_lint_json(input, decode);
    assert!(
        result.starts_with("buf lint: 5 issues across 3 rules"),
        "got: {}",
        result
    );
    // Highest-occurrence rule appears first.
    let snake_pos = result.find("FIELD_LOWER_SNAKE_CASE").expect("rule present");
    let pkg_pos = result.find("PACKAGE_DEFINED").expect("rule present");
    let enum_pos = result.find("ENUM_VALUE_PREFIX").expect("rule present");
    assert!(snake_pos < pkg_pos && snake_pos < enum_pos);
    assert!(result.contains("FIELD_LOWER_SNAKE_CASE (2)"));
    assert!(result.contains("PACKAGE_DEFINED (2)"));
    assert!(result.contains("ENUM_VALUE_PREFIX (1)"));
    assert!(result.contains("foo.proto:12:3"));
    assert!(result.contains("bar.proto:5:1"));
}

#[test]
fn test_filter_lint_top5_and_more() {
    // 7 distinct rules, 1 issue each → expect top 5 + "+2 more rules"
    let lines: Vec<String> = (0..7)
        .map(|i| {
            format!(
                r#"{{"path":"f{0}.proto","start_line":1,"start_column":1,"end_line":1,"end_column":2,"type":"RULE_{0}","message":"msg {0}"}}"#,
                i
            )
        })
        .collect();
    let input = lines.join("\n");
    let result = filter_buf_lint_json(&input, decode);
    assert!(result.contains("7 issues across 7 rules"));
    assert!(result.contains("+2 more rules"));
}

#[test]
fn test_filter_lint_corrupted_skipped() {
    let input = r#"{"path":"foo.proto","start_line":12,"start_column":3,"type":"RULE_A","message":"ok"}
{"path":"bar.proto","start_line":5,"start_column":
not-json-line
{"path":"baz.proto","start_line":1,"start_column":1,"type":"RULE_A","message":"ok"}"#;

    let result = filter_buf_lint_json(input, decode);
    // Only 2 lines parse successfully.
    assert!(
        result.starts_with("buf lint: 2 issues across 1 rules"),
        "got: {}",
        result
    );
}

#[test]
fn test_filter_lint_more_samples_per_rule() {
    // Single rule with 5 samples → top 3 + "+2 more"
    let lines: Vec<String> = (0..5)
        .map(|i| {
            format!(
                r#"{{"path":"f{0}.proto","start_line":{0},"start_column":1,"end_line":{0},"end_column":2,"type":"FIELD_LOWER_SNAKE_CASE","message":"Field name should be lower_snake_case"}}"#,
                i + 1
            )
        })
        .collect();
    let input = lines.join("\n");
    let result = filter_buf_lint_json(&input, decode);
    assert!(result.contains("FIELD_LOWER_SNAKE_CASE (5)"));
    assert!(result.contains("+2 more"));
}

#[test]
fn test_filter_build_ok() {
    assert_eq!(filter_buf_build(""), "buf build: ok");
    assert_eq!(filter_buf_build("\n  \n"), "buf build: ok");
}

#[test]
fn test_filter_build_errors() {
    let input = r#"foo.proto:12:3: syntax error: unexpected token "}"
bar.proto:5:1: package "foo" already defined"#;
    let result = filter_buf_build(input);
    assert!(result.starts_with("buf build: 2 errors"), "got: {}", result);
    assert!(result.contains("foo.proto:12:3"));
    assert!(result.contains("bar.proto:5:1"));
}

#[test]
fn test_filter_generate_all_success() {
    // Typical buf generate stdout on success.
    let input = "Generating go\nGenerating go-grpc\nGenerating connect-go\n";
    let result = filter_buf_generate(input);
    assert_eq!(result, "buf generate: ok (3 plugins)");
}

#[test]
fn test_filter_generate_silent_success() {
    // Empty stdout also counts as ok.
    assert_eq!(filter_buf_generate(""), "buf generate: ok");
}

#[test]
fn test_filter_generate_with_failure() {
    let input = r#"Generating go
Generating go-grpc
✗ go-grpc: protoc-gen-go-grpc plugin returned exit status 1
error: failed to invoke plugin"#;
    let result = filter_buf_generate(input);
    assert!(
        result.starts_with("buf generate: ") && result.contains("failed"),
        "got: {}",
        result
    );
    assert!(result.contains("✗ go-grpc"));
    assert!(result.contains("exit status 1") || result.contains("failed to invoke plugin"));
}

#[test]
fn test_inject_lint_format_when_missing() {
    let args = vec!["./...".to_string()];
    let out = inject_lint_format(&args);
    assert_eq!(out[0], "--error-format=json");
    assert_eq!(out[1], "./...");
}

#[test]
fn test_inject_lint_format_idempotent_eq() {
    let args = vec!["--error-format=text".to_string(), "./...".to_string()];
    let out = inject_lint_format(&args);
    assert_eq!(out, args);
}

#[test]
fn test_inject_lint_format_idempotent_separated() {
    let args = vec![
        "--error-format".to_string(),
        "json".to_string(),
        "./...".to_string(),
    ];
    let out = inject_lint_format(&args);
    assert_eq!(out, args);
}

#[test]
fn lint_report_is_exact() {
    let input = r#"{"path":"b.proto","start_line":7,"start_column":2,"type":"B","message":"second"}
{"path":"a.proto","type":"A"}
{"path":"c.proto","start_line":1,"start_column":1,"type":"B","message":"third"}
{"path":"","type":"A","message":"no path"}
{"type":"A","message":"no path"}
{"path":"d.proto","message":"no rule"}"#;
    assert_eq!(
        filter_buf_lint_json(input, decode),
        format!(
            "buf lint: 4 issues across 3 rules\n{RULE_LINE}\n\
             B (2): second\n  b.proto:7:2  second\n  c.proto:1:1  third\n\
             A (1): \n  a.proto:0:0  \n\
             UNKNOWN (1): no rule\n  d.proto:0:0  no rule"
        )
    );
}

#[test]
fn lint_rules_of_one_frequency_come_by_name() {
    let record = |rule: &str| {
        Some(BufLintAnnotation {
            path: Some("f.proto".to_string()),
            start_line: Some(1),
            start_column: None,
            rule_type: Some(rule.to_string()),
            message: Some("m".to_string()),
        })
    };
    let issues = collect_issues(&vec![record("ZZ"), record("Z"), None, record("A")]);
    let report = summarize_lint(&issues);
    let a = report.find("A (1)").unwrap();
    let z = report.find("Z (1)").unwrap();
    let zz = report.find("ZZ (1)").unwrap();
    assert!(a < z && z < zz, "got: {}", report);
}

#[test]
fn lint_rows_are_cut_to_the_width_of_a_report() {
    let long = "x".repeat(200);
    let issues = collect_issues(&vec![Some(BufLintAnnotation {
        path: Some("f.proto".to_string()),
        start_line: Some(3),
        start_column: Some(4),
        rule_type: Some("R".to_string()),
        message: Some(long.clone()),
    })]);
    let report = summarize_lint(&issues);
    let rows: Vec<&str> = report.lines().collect();
    assert_eq!(rows[2], format!("R (1): {long}"));
    assert_eq!(rows[3], format!("  f.proto:3:4  {}...", "x".repeat(102)));
    assert_eq!(rows[3].chars().count(), 120);
}

#[test]
fn malformed_lint_records_make_no_difference() {
    let good = r#"{"path":"a.proto","type":"A","message":"m"}"#;
    let broken = format!("{{\"path\":\n{good}\n{{\"path\":17}}\nnoise");
    assert_eq!(
        filter_buf_lint_json(&broken, decode),
        filter_buf_lint_json(good, decode)
    );
}

#[test]
fn build_report_is_exact() {
    let long = "y".repeat(121);
    let input = format!("INFO\tstarting\n  a.proto:1:1: bad \r\nok\nbuf: downloading x\n{long}\n");
    assert_eq!(
        filter_buf_build(&input),
        format!(
            "buf build: 2 errors\n{RULE_LINE}\na.proto:1:1: bad\n{}...",
            "y".repeat(117)
        )
    );
}

#[test]
fn generate_report_is_exact() {
    let input = "Generating go\nGenerating go-grpc\n\
                 ✗ go-grpc: protoc-gen-go-grpc plugin returned exit status 1\n\
                 error: failed to invoke plugin";
    assert_eq!(
        filter_buf_generate(input),
        "buf generate: 2 plugins, 1 failed\n  \
         ✗ go-grpc: protoc-gen-go-grpc plugin returned exit status 1\n    \
         error: failed to invoke plugin"
    );
}

#[test]
fn generate_keeps_three_lines_after_the_marker() {
    let input = "✗ a: x\none\ntwo\nthree\nfour\nplugin b failed: y\nGenerating c\nstray context";
    assert_eq!(
        filter_buf_generate(input),
        "buf generate: 3 plugins, 2 failed\n  ✗ a: x\n    one\n    two\n    three\n  \
         ✗ b: y"
    );
    assert_eq!(
        filter_buf_generate("✗ a\none\ntwo\nthree\nfour"),
        "buf generate: 2 plugins, 1 failed\n  ✗ a: one\n    two\n    three"
    );
}

#[test]
fn what_a_failed_plugin_says_is_kept() {
    assert_eq!(
        filter_buf_generate("✗ go: boom"),
        "buf generate: 2 plugins, 1 failed\n  ✗ go: boom"
    );
    assert_eq!(
        filter_buf_generate("Failure: plugin a: one: two\nplugin b failed to start\nplugin c failed : x"),
        "buf generate: 4 plugins, 3 failed\n  ✗ a: one: two\n  ✗ b: to start\n  ✗ c: x"
    );
}

#[test]
fn a_marker_without_a_text_has_no_detail() {
    assert_eq!(
        filter_buf_generate("✗ a\nFailure: plugin b:\nplugin c failed\nsaid later"),
        "buf generate: 4 plugins, 3 failed\n  ✗ a: (no detail)\n  ✗ b: (no detail)\n  ✗ c: said later"
    );
}

#[test]
fn texts_of_failure_markers_are_read() {
    assert_eq!(parse_plugin_failure_text("✗ go : x: y "), "x: y");
    assert_eq!(parse_plugin_failure_text("✗ go"), "");
    assert_eq!(parse_plugin_failure_text("Failure: plugin go:  x"), "x");
    assert_eq!(parse_plugin_failure_text("plugin go failed: x"), "x");
    assert_eq!(parse_plugin_failure_text("plugin go failed with code 1"), "with code 1");
    assert_eq!(parse_plugin_failure_text("plugin go ran: x"), "");
    assert_eq!(parse_plugin_failure_text("go: x"), "");
}

#[test]
fn generate_reports_errors_of_no_plugin() {
    let input = "INFO\tx\nError: one\nerror: two\nstray\nit FAILED\nexit status 7";
    assert_eq!(
        filter_buf_generate(input),
        "buf generate: 1 plugins, 1 failed\n  ✗ Error: one\n  ✗ error: two\n  ✗ it FAILED"
    );
}

#[test]
fn invocations_are_recognized() {
    assert_eq!(parse_plugin_invocation("Generating go..."), Some("go".to_string()));
    assert_eq!(parse_plugin_invocation("Running plugin es ."), Some("es".to_string()));
    assert_eq!(parse_plugin_invocation("Generating ..."), None);
    assert_eq!(parse_plugin_invocation("generating go"), None);
}

#[test]
fn failure_markers_are_recognized() {
    let name = |s: &str| Some(s.to_string());
    assert_eq!(parse_plugin_failure_marker("✗ go : x: y"), name("go"));
    assert_eq!(parse_plugin_failure_marker("✗ go"), name("go"));
    assert_eq!(parse_plugin_failure_marker("Failure: plugin go: x"), name("go"));
    assert_eq!(parse_plugin_failure_marker("Failure: plugin go"), None);
    assert_eq!(parse_plugin_failure_marker("plugin go failed to start"), name("go"));
    assert_eq!(parse_plugin_failure_marker("plugin go ran"), None);
    assert_eq!(parse_plugin_failure_marker("go"), None);
}

#[test]
fn error_lines_are_recognized_in_any_case() {
    assert!(is_buf_error_line("ERROR: x"));
    assert!(is_buf_error_line("fatal Error: x"));
    assert!(is_buf_error_line("FAILURE: x"));
    assert!(is_buf_error_line("Could Not open"));
    assert!(is_buf_error_line("Cannot open"));
    assert!(is_buf_error_line("a.proto:3"));
    assert!(!is_buf_error_line("a.PROTO:3"));
    assert!(!is_buf_error_line("all is well"));
    assert!(tells_of_error("X", "exit status"));
    assert!(!tells_of_error("exit status", "x"));
}

#[test]
fn lines_of_a_generate_run_are_classified() {
    assert!(matches!(classify_generate_line("Generating a", "x"), GenerateLine::Invocation));
    assert!(matches!(
        classify_generate_line("✗ a: failed", "✗ a: failed"),
        GenerateLine::Failure { name, said } if name == "a" && said == "failed"
    ));
    assert!(matches!(
        classify_generate_line("It Failed", "it failed"),
        GenerateLine::Error(line) if line == "It Failed"
    ));
    assert!(matches!(
        classify_generate_line("It Failed", "it passed"),
        GenerateLine::Context(line) if line == "It Failed"
    ));
}

#[test]
fn progress_lines_of_buf_are_recognized() {
    assert!(is_buf_progress_line("INFO\tx"));
    assert!(is_buf_progress_line("ok"));
    assert!(is_buf_progress_line("buf: downloading x"));
    assert!(!is_buf_progress_line("INFO x"));
    assert!(!is_buf_progress_line("okay"));
}

#[test]
fn blank_buf_output_is_clean() {
    let blank = " \t\r\n\n\u{3000}\n";
    assert_eq!(filter_buf_build(blank), "buf build: ok");
    assert_eq!(filter_buf_generate(blank), "buf generate: ok");
    assert_eq!(filter_buf_lint_json(blank, decode), "buf lint: clean (0 issues)");
}

#[test]
fn buf_without_a_subcommand_is_refused() {
    let refused = run(&[], 0);
    assert!(matches!(&refused, Err(PlanError::BufSubcommandMissing)));
    if let Err(e) = refused {
        assert_eq!(e.message(), "buf: no subcommand specified");
    }
}

#[test]
fn buf_lint_is_planned_with_json() {
    let Ok(Plan::Filtered(f)) = run(&words(&["lint", "proto"]), 1) else {
        panic!("a filtered run is planned");
    };
    assert_eq!(f.program, "buf");
    assert_eq!(f.args, words(&["lint", "--error-format=json", "proto"]));
    assert_eq!(f.announcement, Some("Running: buf lint --error-format=json proto".to_string()));
    assert_eq!(f.tool, "buf lint");
    assert_eq!(f.shown_args, "--error-format=json proto");
    assert!(matches!(f.filter, Filter::BufLint));
    assert!(!f.stdout_only);
    assert_eq!(f.tee, "buf_lint");
}

#[test]
fn buf_build_and_generate_are_planned() {
    let Ok(Plan::Filtered(b)) = run(&words(&["build", "-v"]), 0) else {
        panic!("a filtered run is planned");
    };
    assert_eq!(b.args, words(&["build", "-v"]));
    assert_eq!(b.announcement, None);
    assert!(matches!(b.filter, Filter::BufBuild));
    assert_eq!(b.tee, "buf_build");
    let Ok(Plan::Filtered(g)) = run(&words(&["generate"]), 2) else {
        panic!("a filtered run is planned");
    };
    assert_eq!(g.args, words(&["generate"]));
    assert_eq!(g.announcement, Some("Running: buf generate ".to_string()));
    assert!(matches!(g.filter, Filter::BufGenerate));
    assert_eq!(g.tool, "buf generate");
    assert_eq!(g.tee, "buf_generate");
}

#[test]
fn other_buf_subcommands_are_handed_on() {
    let Ok(Plan::Passthrough(p)) = run(&words(&["format", "-w"]), 1) else {
        panic!("a run that is handed on is planned");
    };
    assert_eq!(p.program, "buf");
    assert_eq!(p.args, words(&["format", "-w"]));
    assert_eq!(p.announcement, Some("Running: buf format ...".to_string()));
    assert_eq!(p.failure, "Failed to run buf format");
    assert_eq!(p.original, "buf format");
    assert_eq!(p.given, "rtk buf format");
    assert_eq!(p.label, "buf");
    assert!(matches!(run_other(&words(&["lint"]), 0), Plan::Passthrough(_)));
}

#[test]
fn lint_format_is_injected_once() {
    let once = inject_lint_format(&words(&["a", "b"]));
    assert_eq!(once, words(&["--error-format=json", "a", "b"]));
    assert_eq!(inject_lint_format(&once), once);
}

#[test]
fn order_of_rules_makes_no_difference_to_a_lint_report() {
    let a1 = r#"{"path":"1.proto","type":"A","message":"m1"}"#;
    let a2 = r#"{"path":"2.proto","type":"A","message":"m2"}"#;
    let b = r#"{"path":"3.proto","type":"B","message":"m3"}"#;
    assert_eq!(
        filter_buf_lint_json(&format!("{a1}\n{b}\n{a2}"), decode),
        filter_buf_lint_json(&format!("{b}\n\nnoise\n{a1}\n{a2}\n{{broken"), decode)
    );
}

#[test]
fn progress_makes_no_difference_to_buf_reports() {
    let plain = "Generating go\n✗ go: x\nerror: y";
    let noisy = "ok\nGenerating go\n\nINFO\tz\n✗ go: x\nbuf: downloading w\nerror: y\n \n";
    assert_eq!(filter_buf_build(noisy), filter_buf_build(plain));
    assert_eq!(filter_buf_generate(noisy), filter_buf_generate(plain));
}
