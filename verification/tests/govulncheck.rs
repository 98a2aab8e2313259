//! `govulncheck`: plans and reports.

use go_filters::govulncheck_cmd::{
    collect_vulns, decode_messages, filter_govulncheck_json, find_payload, inject_json_flag,
    read_payloads, run, strip_full_flag, summarize_vulns, tee_request, Finding, Message, OsvEntry,
    Payload, Position, TraceFrame, Vuln,
};
use go_filters::plan::{Filter, Plan};
use serde_json::Value;

const RULE_LINE: &str = "═══════════════════════════════════════";

fn words(list: &[&str]) -> Vec<String> {
    list.iter().map(|s| s.to_string()).collect()
}

fn text_or_none(v: Option<&Value>) -> Option<Option<String>> {
    match v {
        None | Some(Value::Null) => Some(None),
        Some(Value::String(s)) => Some(Some(s.clone())),
        Some(_) => None,
    }
}

fn members(text: &str) -> Option<serde_json::Map<String, Value>> {
    match serde_json::from_str(text) {
        Ok(Value::Object(members)) => Some(members),
        _ => None,
    }
}

fn decode_osv(text: &str) -> Option<OsvEntry> {
    Some(OsvEntry { id: members(text)?.get("id")?.as_str()?.to_string() })
}

fn decode_position(v: Option<&Value>) -> Option<Option<Position>> {
    match v {
        None | Some(Value::Null) => Some(None),
        Some(v) => {
            let position = v.as_object()?;
            let line = match position.get("line") {
                None | Some(Value::Null) => None,
                Some(n) => Some(n.as_u64()?),
            };
            Some(Some(Position { filename: text_or_none(position.get("filename"))?, line }))
        }
    }
}

fn decode_frame(v: &Value) -> Option<TraceFrame> {
    let frame = v.as_object()?;
    Some(TraceFrame {
        module: text_or_none(frame.get("module"))?,
        version: text_or_none(frame.get("version"))?,
        function: text_or_none(frame.get("function"))?,
        position: decode_position(frame.get("position"))?,
    })
}

fn decode_finding(text: &str) -> Option<Finding> {
    let finding = members(text)?;
    let trace = match finding.get("trace") {
        None => Vec::new(),
        Some(v) => v.as_array()?.iter().map(decode_frame).collect::<Option<Vec<_>>>()?,
    };
    Some(Finding {
        osv: finding.get("osv")?.as_str()?.to_string(),
        fixed_version: text_or_none(finding.get("fixed_version"))?,
        trace,
    })
}

fn finding(osv: &str, fix: Option<&str>, trace: Vec<TraceFrame>) -> Message {
    Message::Finding(Finding {
        osv: osv.to_string(),
        fixed_version: fix.map(|f| f.to_string()),
        trace,
    })
}

fn frame(module: &str, version: &str, function: &str, file: Option<&str>, line: u64) -> TraceFrame {
    TraceFrame {
        module: Some(module.to_string()),
        version: Some(version.to_string()),
        function: Some(function.to_string()),
        position: Some(Position { filename: file.map(|f| f.to_string()), line: Some(line) }),
    }
}

#[test]
fn govulncheck_cmd_test_filter_clean() {
    // Only config + progress events, no osv/finding.
    let input = r#"{"config":{"protocol_version":"v1.0.0","scanner_name":"govulncheck","scanner_version":"v1.0.0","db":"https://vuln.go.dev"}}
{"progress":{"message":"Scanning your code and 42 packages..."}}"#;
    let result = filter_govulncheck_json(input, decode_osv, decode_finding, None);
    assert_eq!(result, "govulncheck: clean (no vulnerabilities found)");
}

#[test]
fn test_filter_clean_empty() {
    assert_eq!(
        filter_govulncheck_json("", decode_osv, decode_finding, None),
        "govulncheck: clean (no vulnerabilities found)"
    );
}

#[test]
fn test_filter_single_finding() {
    let input = r#"{"config":{"protocol_version":"v1.0.0"}}
{"progress":{"message":"Scanning..."}}
{"osv":{"id":"GO-2023-1234","summary":"buffer overflow in foo"}}
{"finding":{"osv":"GO-2023-1234","fixed_version":"v1.2.4","trace":[{"module":"foo","version":"v1.2.3","package":"foo","function":"Bar","position":{"filename":"main.go","line":42,"column":5}}]}}"#;
    let result = filter_govulncheck_json(input, decode_osv, decode_finding, None);
    assert!(result.contains("govulncheck: 1 finding"), "got: {}", result);
    assert!(result.contains("GO-2023-1234"), "got: {}", result);
    assert!(result.contains("foo@v1.2.3"), "got: {}", result);
    assert!(result.contains("v1.2.4"), "got: {}", result);
    assert!(result.contains("main.go:42"), "got: {}", result);
    assert!(result.contains("Bar"), "got: {}", result);
}

#[test]
fn test_filter_multiple_findings_dedupe() {
    // Two findings reference the same OSV — should be merged into one entry.
    let input = r#"{"osv":{"id":"GO-2023-1234","summary":"vuln"}}
{"finding":{"osv":"GO-2023-1234","fixed_version":"v1.2.4","trace":[{"module":"foo","version":"v1.2.3","function":"Bar","position":{"filename":"a.go","line":10}}]}}
{"finding":{"osv":"GO-2023-1234","fixed_version":"v1.2.4","trace":[{"module":"foo","version":"v1.2.3","function":"Baz","position":{"filename":"b.go","line":20}}]}}"#;
    let result = filter_govulncheck_json(input, decode_osv, decode_finding, None);
    assert!(result.contains("govulncheck: 1 finding"), "got: {}", result);
    // Only one occurrence of the OSV id in the body.
    assert_eq!(
        result.matches("GO-2023-1234").count(),
        1,
        "got: {}",
        result
    );
}

#[test]
fn test_filter_corrupted_json_skipped() {
    let input = r#"{"osv":{"id":"GO-2023-1234"}}
not valid json
{this is broken
{"finding":{"osv":"GO-2023-1234","fixed_version":"v1.2.4","trace":[{"module":"foo","version":"v1.2.3","function":"Bar","position":{"filename":"main.go","line":42}}]}}"#;
    let result = filter_govulncheck_json(input, decode_osv, decode_finding, None);
    assert!(result.contains("1 finding"), "got: {}", result);
    assert!(result.contains("GO-2023-1234"), "got: {}", result);
}

#[test]
fn test_filter_truncate() {
    // 25 distinct OSV findings → truncated to 20.
    let mut lines: Vec<String> = Vec::new();
    for i in 1..=25 {
        lines.push(format!(
            r#"{{"osv":{{"id":"GO-2023-{i:04}","summary":"vuln{i}"}}}}"#
        ));
        lines.push(format!(
            r#"{{"finding":{{"osv":"GO-2023-{i:04}","fixed_version":"v1.0.{i}","trace":[{{"module":"m{i}","version":"v0.1.0","function":"F{i}","position":{{"filename":"f{i}.go","line":{i}}}}}]}}}}"#
        ));
    }
    let input = lines.join("\n");
    let result = filter_govulncheck_json(&input, decode_osv, decode_finding, None);
    assert!(
        result.contains("govulncheck: 25 findings"),
        "got: {}",
        result
    );
    assert!(result.contains("+5 more findings"), "got: {}", result);
    // First 20 must be present, 21st must NOT be in the body listing.
    assert!(result.contains("GO-2023-0001"), "got: {}", result);
    assert!(result.contains("GO-2023-0020"), "got: {}", result);
    assert!(!result.contains("GO-2023-0021"), "got: {}", result);
}

#[test]
fn test_inject_json_flag_when_missing() {
    let args = vec!["./...".to_string()];
    let result = inject_json_flag(&args);
    assert_eq!(result, vec!["-json", "./..."]);
}

#[test]
fn test_inject_json_flag_idempotent() {
    let args = vec!["-json".to_string(), "./...".to_string()];
    let result = inject_json_flag(&args);
    assert_eq!(result, args);
}

#[test]
fn test_strip_full_flag_present() {
    let args = vec!["--full".to_string(), "./...".to_string()];
    let (rest, full) = strip_full_flag(&args);
    assert_eq!(rest, vec!["./...".to_string()]);
    assert!(full);
}

#[test]
fn test_strip_full_flag_absent() {
    let args = vec!["./...".to_string()];
    let (rest, full) = strip_full_flag(&args);
    assert_eq!(rest, vec!["./...".to_string()]);
    assert!(!full);
}

#[test]
fn vulnerability_report_is_exact() {
    let input = r#"{"osv":{"id":"A"}}
{"finding":{"osv":"B","trace":[{"module":"m","version":"v1"},{"function":"F","position":{"filename":"f.go","line":3}}]}}
{"finding":{"osv":"A","fixed_version":"v2","trace":[{"module":"x"}]}}
{"finding":{"osv":"B","fixed_version":"","trace":[{"module":"n","version":"v9"}]}}
{"osv":{"id":"described only"}}"#;
    assert_eq!(
        filter_govulncheck_json(input, decode_osv, decode_finding, Some("unused")),
        format!(
            "govulncheck: 2 findings\n{RULE_LINE}\n  A  x → v2\n  B  m@v1, n@v9\n    f.go:3  F"
        )
    );
}

#[test]
fn findings_of_one_vulnerability_are_merged() {
    let messages = vec![
        finding("A", None, vec![]),
        finding("A", Some("v2"), vec![frame("m", "v1", "F", None, 1)]),
        finding("A", Some("v3"), vec![frame("m", "v1", "", Some("a.go"), 2)]),
        finding("A", None, vec![frame("m", "v0", "G", Some("b.go"), 3)]),
    ];
    let vulns = collect_vulns(&messages);
    assert_eq!(vulns.len(), 1);
    let v = &vulns[0];
    assert_eq!(v.id, "A");
    let affected: Vec<String> =
        v.affected.iter().map(|a| format!("{}@{}", a.module, a.version)).collect();
    assert_eq!(affected, words(&["m@v1", "m@v0"]));
    assert_eq!(v.fix, Some("v2".to_string()));
    let site = v.site.as_ref().expect("a call site is known");
    assert_eq!((site.file.as_str(), site.line, site.function.as_str()), ("a.go", 2, ""));
    assert_eq!(
        summarize_vulns(&vulns, None),
        format!("govulncheck: 1 finding\n{RULE_LINE}\n  A  m@v1, m@v0 → v2\n    a.go:2")
    );
}

#[test]
fn mere_descriptions_are_no_findings() {
    let described = Message::Osv(OsvEntry { id: "A".to_string() });
    let bare = finding("B", None, vec![]);
    assert!(collect_vulns(&vec![described, bare]).is_empty());
}

#[test]
fn the_description_outranks_the_finding() {
    let input = r#"{"finding":{"osv":"A","fixed_version":"v"},"osv":{"id":"B"}}"#;
    let payloads = read_payloads(input);
    assert_eq!(payloads.len(), 1);
    assert!(matches!(&payloads[0], Payload::Osv(t) if t == r#"{"id":"B"}"#));
    let messages = decode_messages(input, decode_osv, decode_finding);
    assert!(matches!(&messages[..], [Message::Osv(o)] if o.id == "B"));
}

#[test]
fn payloads_are_found_by_key() {
    let fields = |list: &[(&str, &str)]| {
        Some(list.iter().map(|(k, v)| (k.to_string(), v.to_string())).collect::<Vec<_>>())
    };
    assert!(find_payload(&None).is_none());
    assert!(find_payload(&fields(&[("progress", "{}")])).is_none());
    assert!(matches!(
        find_payload(&fields(&[("a", "1"), ("finding", "{}")])),
        Some(Payload::Finding(t)) if t == "{}"
    ));
    assert!(matches!(
        find_payload(&fields(&[("finding", "1"), ("osv", "2")])),
        Some(Payload::Osv(t)) if t == "2"
    ));
}

#[test]
fn undecodable_records_are_passed_over() {
    let input = r#"{"osv":{"id":7}}
{"finding":{"osv":"A","trace":"none"}}
[{"osv":{"id":"B"}}]
{"finding":{"osv":"C","fixed_version":"v1"}} trailing
{"finding":{"osv":"D","fixed_version":"v1"}}"#;
    assert_eq!(
        filter_govulncheck_json(input, decode_osv, decode_finding, None),
        format!("govulncheck: 1 finding\n{RULE_LINE}\n  D → v1")
    );
}

#[test]
fn long_rows_are_cut() {
    let messages = vec![finding(
        &"i".repeat(200),
        None,
        vec![frame("m", "", &"f".repeat(120), Some("a.go"), 1)],
    )];
    let report = summarize_vulns(&collect_vulns(&messages), None);
    let rows: Vec<&str> = report.lines().collect();
    assert_eq!(rows[2], format!("  {}...", "i".repeat(155)));
    assert_eq!(rows[3], format!("    a.go:1  {}...", "f".repeat(95)));
}

#[test]
fn many_vulnerabilities_are_cut_and_kept_on_disk() {
    let vulns: Vec<Vuln> = (0..22)
        .map(|i| Vuln {
            id: format!("V{i}"),
            affected: Vec::new(),
            fix: Some(String::new()),
            site: None,
        })
        .collect();
    let request = tee_request("raw", vulns.len()).expect("not all are shown");
    assert_eq!(request.content, "raw");
    assert_eq!(request.slug, "govulncheck");
    assert_eq!(request.from_line, 1);
    let report = summarize_vulns(&vulns, Some("see x"));
    assert!(
        report.ends_with("  V19\n\n… +2 more findings\n  see x"),
        "got: {}",
        report
    );
    assert!(tee_request("raw", 20).is_none());
    assert_eq!(
        summarize_vulns(&vulns.into_iter().take(20).collect(), Some("see x")).matches("see").count(),
        0
    );
}

#[test]
fn govulncheck_is_planned_with_json() {
    let Plan::Filtered(f) = run(&words(&["-test", "./..."]), 1) else {
        panic!("a filtered run is planned");
    };
    assert_eq!(f.program, "govulncheck");
    assert_eq!(f.args, words(&["-json", "-test", "./..."]));
    assert_eq!(f.announcement, Some("Running: govulncheck -json -test ./...".to_string()));
    assert_eq!(f.tool, "govulncheck");
    assert_eq!(f.shown_args, "-test ./...");
    assert!(matches!(f.filter, Filter::Govulncheck));
    assert!(f.stdout_only);
    assert_eq!(f.tee, "govulncheck");
}

#[test]
fn full_output_is_handed_on_without_the_flag() {
    let Plan::Filtered(f) = run(&words(&["--json", "--full"]), 0) else {
        panic!("a filtered run is planned");
    };
    assert_eq!(f.args, words(&["--json"]));
    assert_eq!(f.shown_args, "--json --full");
    assert!(matches!(f.filter, Filter::Verbatim));
}

#[test]
fn json_is_asked_for_once() {
    let once = inject_json_flag(&words(&["x"]));
    assert_eq!(once, words(&["-json", "x"]));
    assert_eq!(inject_json_flag(&once), once);
}

#[test]
fn noise_lines_make_no_difference_to_the_report() {
    let first = r#"{"osv":{"id":"A"}}"#;
    let second = r#"{"finding":{"osv":"A","fixed_version":"v1"}}"#;
    let plain = format!("{first}\n{second}");
    let report = |input: &str| filter_govulncheck_json(input, decode_osv, decode_finding, None);
    for noise in ["", " \t", "noise", "[1]", "{broken", r#"{"progress":{}}"#, r#"{"osv":7}"#] {
        assert_eq!(report(&format!("{noise}\n{plain}")), report(&plain), "{:?}", noise);
        assert_eq!(report(&format!("{first}\n{noise}\n{second}")), report(&plain), "{:?}", noise);
        assert_eq!(report(&format!("{plain}\n{noise}")), report(&plain), "{:?}", noise);
    }
}
