//! Compact summaries of the output of Go tooling.

pub mod ansi;
pub mod buf_cmd;
pub mod decode;
pub mod go_list_cmd;
pub mod go_mod_cmd;
pub mod goreleaser_cmd;
pub mod gotestsum_cmd;
pub mod govulncheck_cmd;
pub mod json;
pub mod lines;
pub mod plan;
pub mod ranking;
pub mod report;
pub mod seqs;
pub mod staticcheck_cmd;
pub mod text;
