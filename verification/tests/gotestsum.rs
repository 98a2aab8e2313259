//! `gotestsum`: plans.

use go_filters::gotestsum_cmd::{
    extract_jsonfile_path, has_watch_flag, pick_events, pick_events_file, run, with_jsonfile,
    TestPlan,
};

fn words(list: &[&str]) -> Vec<String> {
    list.iter().map(|s| s.to_string()).collect()
}

#[test]
fn test_extract_jsonfile_path_equals_form() {
    let args = vec!["--jsonfile=/tmp/out.json".to_string(), "--".to_string()];
    assert_eq!(
        extract_jsonfile_path(&args),
        Some("/tmp/out.json".to_string())
    );
}

#[test]
fn test_extract_jsonfile_path_space_form() {
    let args = vec![
        "--jsonfile".to_string(),
        "/tmp/out.json".to_string(),
        "--".to_string(),
    ];
    assert_eq!(
        extract_jsonfile_path(&args),
        Some("/tmp/out.json".to_string())
    );
}

#[test]
fn test_extract_jsonfile_path_absent() {
    let args = vec!["--".to_string(), "-v".to_string(), "./...".to_string()];
    assert_eq!(extract_jsonfile_path(&args), None);
}

#[test]
fn test_extract_jsonfile_path_empty() {
    let args: Vec<String> = Vec::new();
    assert_eq!(extract_jsonfile_path(&args), None);
}

#[test]
fn test_extract_jsonfile_path_dangling_flag() {
    // --jsonfile at end with no value
    let args = vec!["--".to_string(), "--jsonfile".to_string()];
    assert_eq!(extract_jsonfile_path(&args), None);
}

#[test]
fn test_has_watch_flag_long() {
    let args = vec!["--watch".to_string(), "--".to_string()];
    assert!(has_watch_flag(&args));
}

#[test]
fn test_has_watch_flag_short() {
    let args = vec!["-w".to_string(), "--".to_string()];
    assert!(has_watch_flag(&args));
}

#[test]
fn test_has_watch_flag_absent() {
    let args = vec!["--".to_string(), "-v".to_string()];
    assert!(!has_watch_flag(&args));
}

#[test]
fn test_has_watch_flag_empty() {
    let args: Vec<String> = Vec::new();
    assert!(!has_watch_flag(&args));
}

#[test]
fn the_first_jsonfile_counts() {
    assert_eq!(
        extract_jsonfile_path(&words(&["-v", "--jsonfile", "a", "--jsonfile=b"])),
        Some("a".to_string())
    );
    assert_eq!(extract_jsonfile_path(&words(&["--jsonfile="])), Some(String::new()));
    assert_eq!(extract_jsonfile_path(&words(&["--jsonfiles=x"])), None);
}

#[test]
fn watch_mode_is_handed_on() {
    let TestPlan::Watch { args, announcement } = run(&words(&["--watch", "--jsonfile=x"]), 1) else {
        panic!("watch mode is planned");
    };
    assert_eq!(args, words(&["--watch", "--jsonfile=x"]));
    assert_eq!(
        announcement,
        Some("gotestsum --watch: passthrough mode (no filtering)".to_string())
    );
    assert!(matches!(
        run(&words(&["-w"]), 0),
        TestPlan::Watch { announcement: None, .. }
    ));
}

#[test]
fn a_test_run_is_planned() {
    let TestPlan::Test(run) = run(&words(&["--", "./..."]), 1) else {
        panic!("a test run is planned");
    };
    assert_eq!(run.args, words(&["--", "./..."]));
    assert_eq!(run.jsonfile, None);
    assert_eq!(run.announcement, Some("Running: gotestsum -- ./...".to_string()));
    assert_eq!(run.original, "gotestsum -- ./...");
    assert_eq!(run.given, "rtk gotestsum -- ./...");
}

#[test]
fn the_given_jsonfile_is_used() {
    let TestPlan::Test(run) = run(&words(&["--jsonfile", "x.json"]), 0) else {
        panic!("a test run is planned");
    };
    assert_eq!(run.jsonfile, Some("x.json".to_string()));
    assert_eq!(run.announcement, None);
    assert_eq!(with_jsonfile(&run.args, None), words(&["--jsonfile", "x.json"]));
    assert_eq!(
        pick_events_file(run.jsonfile.as_deref(), Some("/tmp/t")),
        Some("x.json".to_string())
    );
}

#[test]
fn a_temporary_file_is_read_back() {
    let args = with_jsonfile(&words(&["--", "--jsonfile"]), Some("/tmp/t"));
    assert_eq!(args, words(&["--jsonfile=/tmp/t", "--", "--jsonfile"]));
    assert_eq!(extract_jsonfile_path(&args), Some("/tmp/t".to_string()));
    assert_eq!(pick_events_file(None, Some("/tmp/t")), Some("/tmp/t".to_string()));
    assert_eq!(pick_events_file(None, None), None);
}

#[test]
fn blank_events_are_none() {
    assert_eq!(pick_events(None), None);
    assert_eq!(pick_events(Some(" \n\t".to_string())), None);
    assert_eq!(pick_events(Some(" {}\n".to_string())), Some(" {}\n".to_string()));
}
