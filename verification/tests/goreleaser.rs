//! `goreleaser`: plans and reports.

use go_filters::ansi::strip_ansi;
use go_filters::goreleaser_cmd::{
    filter_goreleaser, is_completion_text, is_failure_line, is_failure_text, is_progress_line,
    is_progress_text, is_section_header, is_success_summary, run, subcommand, summarize_release,
    ReleaseLine,
};
use go_filters::plan::{Filter, Plan};

fn words(list: &[&str]) -> Vec<String> {
    list.iter().map(|s| s.to_string()).collect()
}

#[test]
fn test_filter_release_success() {
    let input = "\
  • loading                                       
▶ loading
  • building binaries                             
▶ building binaries (5 platforms)
  • packaging
▶ packaging
  • publishing
▶ publishing
  • release succeeded after 45s
";
    let result = filter_goreleaser(input, "release");
    assert!(
        result.starts_with("goreleaser: release succeeded"),
        "got: {}",
        result
    );
    assert!(result.contains("▶ loading"), "got: {}", result);
    assert!(result.contains("▶ packaging"), "got: {}", result);
    assert!(result.contains("▶ publishing"), "got: {}", result);
    assert!(result.contains("release succeeded after 45s"));
    // Progress lines must be stripped.
    assert!(!result.contains("• loading"));
    assert!(!result.contains("• building binaries"));
    assert!(!result.contains("• packaging\n"));
}

#[test]
fn test_filter_release_failure() {
    let input = "\
▶ building
  • building
⨯ failed to sign artifact: gpg: no secret key
";
    let result = filter_goreleaser(input, "release");
    assert!(
        result.starts_with("goreleaser: release FAILED"),
        "got: {}",
        result
    );
    assert!(result.contains("⨯ failed to sign artifact"));
    assert!(result.contains("▶ building"));
    // Progress noise stripped.
    assert!(!result.contains("• building\n"));
}

#[test]
fn test_filter_build_subcommand() {
    let input = "\
▶ building binaries
  • building
  • built 3 artifacts
";
    let result = filter_goreleaser(input, "build");
    assert!(
        result.starts_with("goreleaser: build succeeded"),
        "got: {}",
        result
    );
    assert!(result.contains("▶ building binaries"));
    assert!(result.contains("built 3 artifacts"));
}

#[test]
fn test_filter_check_subcommand() {
    // `check` has very short output — usually just one success line.
    let input = "  • config is valid\n  • ran successfully\n";
    let result = filter_goreleaser(input, "check");
    assert!(
        result.starts_with("goreleaser: check succeeded"),
        "got: {}",
        result
    );
    assert!(result.contains("ran successfully"));
}

#[test]
fn test_is_progress_line() {
    assert!(is_progress_line("  • building"));
    assert!(is_progress_line("  • packaging"));
    assert!(is_progress_line("  • signing"));
    assert!(is_progress_line("  • publishing"));
    assert!(is_progress_line("  • loading"));
    assert!(is_progress_line("  • cleaning"));
    assert!(is_progress_line("  • running before hooks"));
    assert!(is_progress_line("  • snapshotting"));
    assert!(is_progress_line("  • caching"));
    assert!(!is_progress_line("▶ release"));
    assert!(!is_progress_line("⨯ error"));
    assert!(!is_progress_line("  • release succeeded after 1s"));
}

#[test]
fn test_is_failure_line() {
    assert!(is_failure_line("⨯ failed to sign"));
    assert!(is_failure_line("error: foo"));
    assert!(is_failure_line("Error: bar"));
    assert!(is_failure_line("something FAILED here"));
    assert!(!is_failure_line("▶ release"));
    assert!(!is_failure_line("  • building"));
}

#[test]
fn test_is_section_header() {
    assert!(is_section_header("▶ release"));
    assert!(is_section_header("  ▶ building"));
    assert!(!is_section_header("• building"));
    assert!(!is_section_header("⨯ failed"));
}

#[test]
fn test_filter_strip_ansi() {
    // Input with raw ANSI color escape codes.
    let input = "\x1b[32m▶ loading\x1b[0m\n\x1b[31m⨯ failed: gpg error\x1b[0m\n";
    let result = filter_goreleaser(input, "release");
    // No ANSI codes in output.
    assert!(
        !result.contains('\x1b'),
        "filtered output should not contain ANSI codes, got: {:?}",
        result
    );
    assert!(result.contains("▶ loading"));
    assert!(result.contains("⨯ failed: gpg error"));
    assert!(result.starts_with("goreleaser: release FAILED"));
}

#[test]
fn test_is_success_summary() {
    assert!(is_success_summary("  • release succeeded after 45s"));
    assert!(is_success_summary("  • ran successfully"));
    assert!(is_success_summary("  • built 5 artifacts"));
    assert!(!is_success_summary("  • building"));
    assert!(!is_success_summary("▶ release"));
}

#[test]
fn release_report_is_exact() {
    let input = "\x1b[1;31m  ▶ one \x1b[0m\n\n  • built 2 artifacts\n  • loading\nnoise\n\
                 \tERROR: broken\n ▶ two\n • release succeeded after 3s\nit FAILED\n";
    assert_eq!(
        filter_goreleaser(input, "build"),
        "goreleaser: build FAILED\n  ▶ one\n  ▶ two\n  ERROR: broken\n  it FAILED\n  \
         • release succeeded after 3s"
    );
}

#[test]
fn an_empty_run_has_succeeded() {
    assert_eq!(filter_goreleaser("", "check"), "goreleaser: check succeeded");
    assert_eq!(summarize_release(&vec![ReleaseLine::Noise], "x"), "goreleaser: x succeeded");
}

#[test]
fn a_failure_is_one_whatever_else_it_is() {
    assert_eq!(
        filter_goreleaser("▶ FAILED\n• ran successfully FAILED", "r"),
        "goreleaser: r FAILED\n  ▶ FAILED\n  • ran successfully FAILED"
    );
}

#[test]
fn lines_are_told_in_any_case() {
    assert!(is_progress_line("•• BUILDING x"));
    assert!(!is_progress_line("building"));
    assert!(is_success_summary("• Built 12 Artifacts"));
    assert!(is_success_summary("• it SUCCEEDED AFTER 1s"));
    assert!(!is_success_summary("• built artifacts"));
    assert!(!is_success_summary("• built 5 things"));
    assert!(!is_success_summary("ran successfully"));
    assert!(is_failure_line("  ErRoR: x"));
    assert!(!is_failure_line("an error: x"));
    assert!(!is_failure_line("it failed"));
}

#[test]
fn lines_are_told_by_their_lowercase() {
    assert!(is_progress_text("caching"));
    assert!(!is_progress_text("Caching"));
    assert!(is_completion_text("built 1 artifact"));
    assert!(!is_completion_text("Ran successfully"));
    assert!(is_failure_text("x", "error: x"));
    assert!(is_failure_text("FAILED", "failed"));
    assert!(!is_failure_text("error: x", "x"));
}

#[test]
fn escapes_are_removed() {
    assert_eq!(strip_ansi("a\x1b[0mb\x1b[1;32mc\x1b[Kd"), "abcd");
    assert_eq!(strip_ansi("plain [0m"), "plain [0m");
    assert_eq!(strip_ansi("\x1b]x \x1b[12"), "\x1b]x \x1b[12");
    assert_eq!(strip_ansi("\x1b\x1b[0m[0m"), "\x1b[0m");
}

#[test]
fn the_subcommand_is_the_first_word() {
    assert_eq!(subcommand(&words(&["--clean", "build", "x"])), "build");
    assert_eq!(subcommand(&words(&["--clean"])), "release");
    assert_eq!(subcommand(&[]), "release");
    assert_eq!(subcommand(&words(&["-x", "", "y"])), "");
}

#[test]
fn goreleaser_is_planned() {
    let Plan::Filtered(f) = run(&words(&["--clean", "check"]), 1) else {
        panic!("a filtered run is planned");
    };
    assert_eq!(f.program, "goreleaser");
    assert_eq!(f.args, words(&["--clean", "check"]));
    assert_eq!(f.announcement, Some("Running: goreleaser --clean check".to_string()));
    assert_eq!(f.tool, "goreleaser");
    assert_eq!(f.shown_args, "--clean check");
    assert!(matches!(f.filter, Filter::Goreleaser(sub) if sub == "check"));
    assert!(!f.stdout_only);
    assert_eq!(f.tee, "goreleaser");
}

#[test]
fn progress_makes_no_difference_to_a_release_report() {
    let telling = "▶ a\nerror: b\n• ran successfully";
    let noisy = "• loading\n▶ a\n• config is valid\nerror: b\nnoise\n• ran successfully\n• caching";
    assert_eq!(filter_goreleaser(noisy, "x"), filter_goreleaser(telling, "x"));
}

#[test]
fn lines_are_stripped_each_for_itself() {
    for (a, b) in [("x\x1b[3", "1mz"), ("\x1b", "[0m"), ("\x1b[1mx", "y\x1b[0m"), ("", "\x1b[")] {
        assert_eq!(
            strip_ansi(&format!("{a}\n{b}")),
            format!("{}\n{}", strip_ansi(a), strip_ansi(b))
        );
    }
}
