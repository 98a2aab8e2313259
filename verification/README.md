# go_filters

Reports on the output of the tools around Go: `buf`, `go mod`, `go list`, `staticcheck`,
`govulncheck`, `goreleaser` and `gotestsum`. Each report says in a few lines what a reader needs of an
output that may run to thousands.

## Layout

- `src/` is the library, verified with Verus. Each tool has a module with two parts: `run` plans what is
  to be run, and the `filter_*` functions turn captured output into a report.
  - `plan` holds the plans, `report` what the reports share.
  - `text`, `lines`, `ansi`, `seqs` and `ranking` are the groundwork: texts as sequences of characters,
    and what the reports do with them.
  - `json` reads JSON texts through `serde_json`; `decode` runs a decoder that the caller brings.
- `app/` performs the plans: it runs commands, prints, keeps raw output on disk and decodes records with
  serde. What it needs of the program around it is the trait `Host`.
- `tests/` runs the library.

## What is stated

Every function says in its contract exactly what it returns, over the characters of its texts. The public
proof functions state what holds of the reports as a whole, for instance that each error of a `go mod
tidy` run with at most 30 of them is shown, up to 120 characters of it, that a vulnerability is reported
once however many findings name it, or that a pointer to the raw output is shown only where something is
kept for it.
