//! `go mod`: what tidy changed, what download fetched, and the direct
//! dependencies in a module graph.

use crate::lines;
use crate::plan;
use crate::plan::{Filter, Filtered, Passthrough, Plan, PlanError};
use crate::report;
use crate::report::TeeRequest;
use crate::seqs;
use crate::text;
use vstd::prelude::*;

verus! {

/// How many edges a graph report shows.
pub const MAX_GRAPH_EDGES: usize = 50;

/// How many failures a download report shows.
pub const MAX_DOWNLOAD_FAILURES: usize = 20;

/// How many items a list of a tidy report shows.
pub const MAX_LIST_ITEMS: usize = 30;

/// How wide an item of a report may be.
pub const MAX_ITEM_WIDTH: usize = 120;

// ---------------------------------------------------------------------------
// What to run
// ---------------------------------------------------------------------------

/// The run of a subcommand whose output goes through a filter.
pub open spec fn filtered_run(
    sub: Seq<char>,
    args: Seq<Seq<char>>,
    announcement: Option<Seq<char>>,
    filter: plan::FilterView,
    tee: Seq<char>,
) -> plan::PlanView {
    plan::PlanView::Filtered(
        plan::FilteredView {
            program: "go"@,
            args: seq!["mod"@, sub] + args,
            announcement,
            tool: "go mod "@ + sub,
            shown_args: text::joined(args, " "@),
            filter,
            stdout_only: false,
            tee,
        },
    )
}

/// What a verbose run of a subcommand announces.
pub open spec fn running(sub: Seq<char>, args: Seq<Seq<char>>) -> Seq<char> {
    "Running: go mod "@ + sub + " "@ + text::joined(args, " "@)
}

/// The run of `go mod graph`: `--deep` is kept back and asks for the output as it
/// is.
pub open spec fn graph_run(args: Seq<Seq<char>>, verbose: u8) -> plan::PlanView {
    let deep = args.contains("--deep"@);
    let forwarded = plan::without_flag(args, "--deep"@);
    let flag = if deep {
        "true"@
    } else {
        "false"@
    };
    filtered_run(
        "graph"@,
        forwarded,
        plan::announced(verbose, running("graph"@, forwarded) + " (deep="@ + flag + ")"@),
        if deep {
            plan::FilterView::Verbatim
        } else {
            plan::FilterView::ModGraph
        },
        "go_mod_graph"@,
    )
}

/// The run of a subcommand whose output is handed on.
pub open spec fn untouched_run(args: Seq<Seq<char>>, verbose: u8) -> plan::PlanView {
    plan::PlanView::Passthrough(
        plan::PassthroughView {
            program: "go"@,
            args: seq!["mod"@] + args,
            announcement: plan::announced(verbose, "Running: go mod "@ + args[0] + " ..."@),
            failure: "Failed to run go mod "@ + args[0],
            original: "go mod "@ + args[0],
            given: "rtk go mod "@ + args[0],
            label: "go mod"@,
        },
    )
}

/// What `go mod` with the given arguments runs.
pub open spec fn planned(args: Seq<Seq<char>>, verbose: u8) -> plan::PlanView {
    let rest = args.skip(1);
    if args[0] == "tidy"@ {
        filtered_run(
            "tidy"@,
            rest,
            plan::announced(verbose, running("tidy"@, rest)),
            plan::FilterView::ModTidy,
            "go_mod_tidy"@,
        )
    } else if args[0] == "download"@ {
        filtered_run(
            "download"@,
            rest,
            plan::announced(verbose, running("download"@, rest)),
            plan::FilterView::ModDownload,
            "go_mod_download"@,
        )
    } else if args[0] == "graph"@ {
        graph_run(rest, verbose)
    } else {
        untouched_run(args, verbose)
    }
}

fn filtered(
    sub: &str,
    args: &[String],
    announcement: Option<String>,
    filter: Filter,
    tee: &str,
) -> (r: Plan)
    ensures
        r@ == filtered_run(
            sub@,
            text::texts(args@),
            text::opt_text(announcement),
            filter@,
            tee@,
        ),
{
    Plan::Filtered(
        Filtered {
            program: "go".to_owned(),
            args: plan::after_words("mod", sub, args),
            announcement,
            tool: plan::concat2("go mod ", sub),
            shown_args: text::join(args, " "),
            filter,
            stdout_only: false,
            tee: tee.to_owned(),
        },
    )
}

fn running_text(sub: &str, args: &[String]) -> (r: String)
    ensures
        r@ == running(sub@, text::texts(args@)),
{
    let mut out = plan::concat2("Running: go mod ", sub);
    out.append(" ");
    let shown = text::join(args, " ");
    out.append(shown.as_str());
    out
}

fn announce_running(sub: &str, args: &[String], verbose: u8) -> (r: Option<String>)
    ensures
        text::opt_text(r) == plan::announced(verbose, running(sub@, text::texts(args@))),
{
    if verbose > 0 {
        Some(running_text(sub, args))
    } else {
        None
    }
}

/// Plans `go mod tidy`.
pub fn run_tidy(args: &[String], verbose: u8) -> (r: Plan)
    ensures
        r@ == filtered_run(
            "tidy"@,
            text::texts(args@),
            plan::announced(verbose, running("tidy"@, text::texts(args@))),
            plan::FilterView::ModTidy,
            "go_mod_tidy"@,
        ),
{
    let said = announce_running("tidy", args, verbose);
    filtered("tidy", args, said, Filter::ModTidy, "go_mod_tidy")
}

/// Plans `go mod download`.
pub fn run_download(args: &[String], verbose: u8) -> (r: Plan)
    ensures
        r@ == filtered_run(
            "download"@,
            text::texts(args@),
            plan::announced(verbose, running("download"@, text::texts(args@))),
            plan::FilterView::ModDownload,
            "go_mod_download"@,
        ),
{
    let said = announce_running("download", args, verbose);
    filtered("download", args, said, Filter::ModDownload, "go_mod_download")
}

/// Plans `go mod graph`.
pub fn run_graph(args: &[String], verbose: u8) -> (r: Plan)
    ensures
        r@ == graph_run(text::texts(args@), verbose),
{
    let (forwarded, deep) = plan::take_flag(args, "--deep");
    let mut said = running_text("graph", forwarded.as_slice());
    said.append(" (deep=");
    said.append(
        if deep {
            "true"
        } else {
            "false"
        },
    );
    said.append(")");
    let announcement = if verbose > 0 {
        Some(said)
    } else {
        None
    };
    let filter = if deep {
        Filter::Verbatim
    } else {
        Filter::ModGraph
    };
    filtered("graph", forwarded.as_slice(), announcement, filter, "go_mod_graph")
}

/// Plans a subcommand that is not filtered (init, edit, why, verify, vendor and
/// the like).
pub fn run_passthrough(args: &[String], verbose: u8) -> (r: Plan)
    requires
        args@.len() > 0,
    ensures
        r@ == untouched_run(text::texts(args@), verbose),
{
    let sub = args[0].as_str();
    let said = plan::concat2("Running: go mod ", sub);
    assert(text::texts(args@)[0] == sub@);
    Plan::Passthrough(
        Passthrough {
            program: "go".to_owned(),
            args: plan::after_word("mod", args),
            announcement: plan::announce(verbose, said.as_str(), " ..."),
            failure: plan::concat2("Failed to run go mod ", sub),
            original: plan::concat2("go mod ", sub),
            given: plan::concat2("rtk go mod ", sub),
            label: "go mod".to_owned(),
        },
    )
}

/// Plans what `go mod` with the given arguments runs. Without a subcommand there
/// is nothing to run.
pub fn run(args: &[String], verbose: u8) -> (r: Result<Plan, PlanError>)
    ensures
        match r {
            Ok(p) => args@.len() > 0 && p@ == planned(text::texts(args@), verbose),
            Err(e) => args@.len() == 0 && e == PlanError::GoModSubcommandMissing,
        },
{
    if args.len() == 0 {
        return Err(PlanError::GoModSubcommandMissing);
    }
    let sub = args[0].as_str();
    let rest = vstd::slice::slice_subrange(args, 1, args.len());
    proof {
        assert(text::texts(args@)[0] == sub@);
        assert(text::texts(rest@) =~= text::texts(args@).skip(1));
    }
    if text::same_text(sub, "tidy") {
        Ok(run_tidy(rest, verbose))
    } else if text::same_text(sub, "download") {
        Ok(run_download(rest, verbose))
    } else if text::same_text(sub, "graph") {
        Ok(run_graph(rest, verbose))
    } else {
        Ok(run_passthrough(args, verbose))
    }
}

/// `go mod graph` never sees the private flag `--deep`, which alone decides
/// whether its output is filtered.
pub proof fn deep_flag_stays_private(args: Seq<Seq<char>>, verbose: u8)
    ensures
        match graph_run(args, verbose) {
            plan::PlanView::Filtered(f) => {
                &&& !f.args.contains("--deep"@)
                &&& f.filter == if args.contains("--deep"@) {
                    plan::FilterView::Verbatim
                } else {
                    plan::FilterView::ModGraph
                }
            },
            plan::PlanView::Passthrough(_) => false,
        },
{
    let rest = plan::without_flag(args, "--deep"@);
    let all = seq!["mod"@, "graph"@] + rest;
    plan::flag_is_taken_out(args, "--deep"@);
    reveal_strlit("--deep");
    reveal_strlit("mod");
    reveal_strlit("graph");
    if all.contains("--deep"@) {
        let k = all.index_of("--deep"@);
        assert(all[k] == "--deep"@);
        assert("mod"@.len() != "--deep"@.len());
        assert("graph"@.len() != "--deep"@.len());
        assert(k >= 2);
        assert(rest[k - 2] == "--deep"@);
    }
}

// ---------------------------------------------------------------------------
// Lists in reports
// ---------------------------------------------------------------------------

/// The row of an item.
pub open spec fn item_row(item: Seq<char>) -> Seq<char> {
    "  "@ + text::truncated(item, MAX_ITEM_WIDTH as nat) + "\n"@
}

/// How many of so many items are left out of a list of at most `max`.
pub open spec fn rows_left_out(items: nat, max: nat, label: Seq<char>) -> Seq<char> {
    if items > max {
        "  … +"@ + text::decimal((items - max) as nat) + " more "@ + label + "\n"@
    } else {
        Seq::empty()
    }
}

/// The rows of the first `max` items, and how many more there are.
pub open spec fn capped_rows(items: Seq<Seq<char>>, max: nat, label: Seq<char>) -> Seq<char> {
    let more = rows_left_out(items.len(), max, label);
    seqs::first(items, max).flat_map(|i: Seq<char>| item_row(i)) + more
}

fn push_capped_rows(out: &mut String, items: &[String], max: usize, label: &str)
    ensures
        final(out)@ == old(out)@ + capped_rows(text::texts(items@), max as nat, label@),
{
    let ghost start = out@;
    let ghost all = text::texts(items@);
    let ghost kept = seqs::first(all, max as nat);
    let ghost f = |i: Seq<char>| item_row(i);
    let n: usize = items.len();
    let stop: usize = if n > max {
        max
    } else {
        n
    };
    proof {
        seqs::lemma_rows_none(kept, f);
        assert(out@ =~= start + kept.take(0).flat_map(f));
    }
    for i in 0..stop
        invariant
            n == items@.len(),
            all == text::texts(items@),
            kept == seqs::first(all, max as nat),
            stop <= n,
            stop == kept.len(),
            f == (|i: Seq<char>| item_row(i)),
            out@ == start + kept.take(i as int).flat_map(f),
    {
        let ghost before = out@;
        let t = text::truncate(items[i].as_str(), MAX_ITEM_WIDTH);
        out.append("  ");
        out.append(t.as_str());
        out.append("\n");
        proof {
            assert(kept[i as int] == items@[i as int]@);
            seqs::lemma_rows_step(kept, f, i as int);
            assert(out@ =~= before + item_row(kept[i as int]));
            assert(out@ =~= start + kept.take(i + 1).flat_map(f));
        }
    }
    proof {
        seqs::lemma_take_all(kept);
    }
    if n > max {
        out.append("  … +");
        text::push_count(out, n - max);
        out.append(" more ");
        out.append(label);
        out.append("\n");
    }
    assert(out@ =~= start + capped_rows(all, max as nat, label@));
}

/// A list with its label and count; nothing for no items.
pub open spec fn listing(label: Seq<char>, items: Seq<Seq<char>>) -> Seq<char> {
    if items.len() == 0 {
        Seq::empty()
    } else {
        label + " ("@ + text::decimal(items.len()) + "):\n"@ + capped_rows(
            items,
            MAX_LIST_ITEMS as nat,
            label,
        )
    }
}

/// Appends a list with its label and count; nothing for no items.
pub fn append_list(out: &mut String, label: &str, items: &[String])
    ensures
        final(out)@ == old(out)@ + listing(label@, text::texts(items@)),
{
    let ghost start = out@;
    if items.len() == 0 {
        assert(out@ =~= start + Seq::<char>::empty());
        return;
    }
    out.append(label);
    out.append(" (");
    text::push_count(out, items.len());
    out.append("):\n");
    push_capped_rows(out, items, MAX_LIST_ITEMS, label);
    assert(out@ =~= start + listing(label@, text::texts(items@)));
}

// ---------------------------------------------------------------------------
// go mod tidy
// ---------------------------------------------------------------------------

/// Whether a line with this lowercase reports an error.
pub open spec fn is_error(lower: Seq<char>) -> bool {
    ||| text::has_text(lower, "error:"@)
    ||| "error "@.is_prefix_of(lower)
    ||| text::has_text(lower, " error "@)
}

/// Whether a line reports an error, given its lowercase.
pub fn is_mod_error_line(lower: &str) -> (r: bool)
    ensures
        r == is_error(lower@),
{
    text::contains(lower, "error:") || text::starts_with(lower, "error ") || text::contains(
        lower,
        " error ",
    )
}

/// Whether a line with this lowercase reports a warning.
pub open spec fn is_warning(lower: Seq<char>) -> bool {
    ||| "warning:"@.is_prefix_of(lower)
    ||| "warning "@.is_prefix_of(lower)
    ||| text::has_text(lower, " warning:"@)
}

/// Whether a line reports a warning, given its lowercase.
pub fn is_mod_warning_line(lower: &str) -> (r: bool)
    ensures
        r == is_warning(lower@),
{
    text::starts_with(lower, "warning:") || text::starts_with(lower, "warning ") || text::contains(
        lower,
        " warning:",
    )
}

/// What a line says after a prefix that its lowercase begins with: what follows
/// as many bytes as the prefix has. `None` where no character begins there.
pub open spec fn stripped(l: Seq<char>, lower: Seq<char>, prefix: Seq<char>) -> Option<Seq<char>> {
    if prefix.is_prefix_of(lower) {
        match text::after_bytes(l, text::utf8_len(prefix)) {
            Some(rest) => Some(text::trimmed(rest)),
            None => None,
        }
    } else {
        Some(l)
    }
}

/// Removes a prefix that the lowercase of a line begins with; other lines stay.
/// `None` where no character of the line begins after as many bytes as the prefix
/// has.
pub fn strip_prefix(line: &str, lower: &str, prefix: &str) -> (r: Option<String>)
    ensures
        text::opt_text(r) == stripped(line@, lower@, prefix@),
{
    if text::starts_with(lower, prefix) {
        match text::skip_bytes_of(line, prefix) {
            Some(rest) => Some(text::trim(rest.as_str())),
            None => None,
        }
    } else {
        Some(line.to_owned())
    }
}

/// What a line of a tidy run says.
pub enum TidyLine {
    Error(String),
    Warning(String),
    Added(String),
    Removed(String),
    Upgraded(String),
    /// Progress, or anything else that is not reported.
    Noise,
}

/// What a line of a tidy run says, as texts.
pub enum TidyView {
    Error(Seq<char>),
    Warning(Seq<char>),
    Added(Seq<char>),
    Removed(Seq<char>),
    Upgraded(Seq<char>),
    Noise,
}

impl View for TidyLine {
    type V = TidyView;

    open spec fn view(&self) -> TidyView {
        match self {
            TidyLine::Error(l) => TidyView::Error(l@),
            TidyLine::Warning(l) => TidyView::Warning(l@),
            TidyLine::Added(m) => TidyView::Added(m@),
            TidyLine::Removed(m) => TidyView::Removed(m@),
            TidyLine::Upgraded(m) => TidyView::Upgraded(m@),
            TidyLine::Noise => TidyView::Noise,
        }
    }
}

/// Whether a line with this lowercase tells of progress.
pub open spec fn is_progress(lower: Seq<char>) -> bool {
    ||| "go: finding "@.is_prefix_of(lower)
    ||| "go: downloading "@.is_prefix_of(lower)
    ||| "go: extracting "@.is_prefix_of(lower)
}

/// What a line, of which `lower` is the lowercase, says. Errors and warnings come
/// first, so that one that mentions a download is kept. `None` for a change whose
/// prefix cannot be cut off the line.
pub open spec fn tidied(l: Seq<char>, lower: Seq<char>) -> Option<TidyView> {
    if is_error(lower) {
        Some(TidyView::Error(l))
    } else if is_warning(lower) {
        Some(TidyView::Warning(l))
    } else if is_progress(lower) {
        Some(TidyView::Noise)
    } else if "go: added "@.is_prefix_of(lower) {
        match stripped(l, lower, "go: added "@) {
            Some(m) => Some(TidyView::Added(m)),
            None => None,
        }
    } else if "go: removed "@.is_prefix_of(lower) {
        match stripped(l, lower, "go: removed "@) {
            Some(m) => Some(TidyView::Removed(m)),
            None => None,
        }
    } else if "go: upgraded "@.is_prefix_of(lower) {
        match stripped(l, lower, "go: upgraded "@) {
            Some(m) => Some(TidyView::Upgraded(m)),
            None => None,
        }
    } else {
        Some(TidyView::Noise)
    }
}

/// Classifies a line of a tidy run, given its lowercase.
pub fn classify_tidy_line(line: &str, lower: &str) -> (r: Option<TidyLine>)
    ensures
        match r {
            Some(k) => tidied(line@, lower@) == Some(k@),
            None => tidied(line@, lower@) is None,
        },
{
    if is_mod_error_line(lower) {
        return Some(TidyLine::Error(line.to_owned()));
    }
    if is_mod_warning_line(lower) {
        return Some(TidyLine::Warning(line.to_owned()));
    }
    if text::starts_with(lower, "go: finding ") || text::starts_with(lower, "go: downloading ")
        || text::starts_with(lower, "go: extracting ") {
        return Some(TidyLine::Noise);
    }
    if text::starts_with(lower, "go: added ") {
        match strip_prefix(line, lower, "go: added ") {
            Some(m) => Some(TidyLine::Added(m)),
            None => None,
        }
    } else if text::starts_with(lower, "go: removed ") {
        match strip_prefix(line, lower, "go: removed ") {
            Some(m) => Some(TidyLine::Removed(m)),
            None => None,
        }
    } else if text::starts_with(lower, "go: upgraded ") {
        match strip_prefix(line, lower, "go: upgraded ") {
            Some(m) => Some(TidyLine::Upgraded(m)),
            None => None,
        }
    } else {
        Some(TidyLine::Noise)
    }
}

/// The error that a line reports, if it does, as a mapping.
pub open spec fn reported_error() -> spec_fn(TidyView) -> Option<Seq<char>> {
    |l: TidyView|
        match l {
            TidyView::Error(t) => Some(t),
            _ => None,
        }
}

/// The warning that a line reports, if it does, as a mapping.
pub open spec fn reported_warning() -> spec_fn(TidyView) -> Option<Seq<char>> {
    |l: TidyView|
        match l {
            TidyView::Warning(t) => Some(t),
            _ => None,
        }
}

/// The module that a line tells was added, if it does, as a mapping.
pub open spec fn added_module() -> spec_fn(TidyView) -> Option<Seq<char>> {
    |l: TidyView|
        match l {
            TidyView::Added(t) => Some(t),
            _ => None,
        }
}

/// The module that a line tells was removed, if it does, as a mapping.
pub open spec fn removed_module() -> spec_fn(TidyView) -> Option<Seq<char>> {
    |l: TidyView|
        match l {
            TidyView::Removed(t) => Some(t),
            _ => None,
        }
}

/// The module that a line tells was upgraded, if it does, as a mapping.
pub open spec fn upgraded_module() -> spec_fn(TidyView) -> Option<Seq<char>> {
    |l: TidyView|
        match l {
            TidyView::Upgraded(t) => Some(t),
            _ => None,
        }
}

/// The reported errors.
pub open spec fn errors_in(ls: Seq<TidyView>) -> Seq<Seq<char>> {
    ls.filter_map(reported_error())
}

/// The reported warnings.
pub open spec fn warnings_in(ls: Seq<TidyView>) -> Seq<Seq<char>> {
    ls.filter_map(reported_warning())
}

/// The added modules.
pub open spec fn added_in(ls: Seq<TidyView>) -> Seq<Seq<char>> {
    ls.filter_map(added_module())
}

/// The removed modules.
pub open spec fn removed_in(ls: Seq<TidyView>) -> Seq<Seq<char>> {
    ls.filter_map(removed_module())
}

/// The upgraded modules.
pub open spec fn upgraded_in(ls: Seq<TidyView>) -> Seq<Seq<char>> {
    ls.filter_map(upgraded_module())
}

/// A list of diagnostics, set off by an empty line; nothing for no items.
pub open spec fn diagnostics(label: Seq<char>, items: Seq<Seq<char>>) -> Seq<char> {
    if items.len() == 0 {
        Seq::empty()
    } else {
        "\n"@ + listing(label, items)
    }
}

/// The heading of the report of a run that added, removed and upgraded so many
/// modules.
pub open spec fn tidy_counts(added: nat, removed: nat, upgraded: nat) -> Seq<char> {
    "go mod tidy: "@ + text::decimal(added) + " added, "@ + text::decimal(removed) + " removed, "@
        + text::decimal(upgraded) + " upgraded\n"@ + report::rule_line()
}

/// The report of a tidy run.
pub open spec fn tidy_report(ls: Seq<TidyView>) -> Seq<char> {
    let added = added_in(ls);
    let removed = removed_in(ls);
    let upgraded = upgraded_in(ls);
    let errors = errors_in(ls);
    let warnings = warnings_in(ls);
    let changed = added.len() > 0 || removed.len() > 0 || upgraded.len() > 0;
    let head = if changed {
        tidy_counts(added.len(), removed.len(), upgraded.len()) + listing("added"@, added)
            + listing("removed"@, removed) + listing("upgraded"@, upgraded)
    } else {
        "go mod tidy: no changes\n"@
    };
    if !changed && errors.len() == 0 && warnings.len() == 0 {
        "go mod tidy: no changes"@
    } else {
        text::trimmed_end(head + diagnostics("errors"@, errors) + diagnostics("warnings"@, warnings))
    }
}

/// What the lines of a tidy run say.
pub open spec fn tidy_lines(output: Seq<char>) -> Seq<Option<TidyView>> {
    lines::content_lines_of(output).map_values(|l: Seq<char>| tidied(l, text::lowered(l)))
}

/// Every change can be cut out of its line.
pub open spec fn cuttable(ls: Seq<Option<TidyView>>) -> bool {
    forall|i: int| 0 <= i < ls.len() ==> (#[trigger] ls[i]) is Some
}

/// What the lines say, where every change can be cut out of its line.
pub open spec fn cut(ls: Seq<Option<TidyView>>) -> Seq<TidyView> {
    ls.map_values(|l: Option<TidyView>| l->0)
}

/// The lists of a tidy run, one line further.
proof fn lemma_tidy_step(ls: Seq<TidyView>, i: int)
    requires
        0 <= i < ls.len(),
    ensures
        errors_in(ls.take(i + 1)) == match ls[i] {
            TidyView::Error(t) => errors_in(ls.take(i)).push(t),
            _ => errors_in(ls.take(i)),
        },
        warnings_in(ls.take(i + 1)) == match ls[i] {
            TidyView::Warning(t) => warnings_in(ls.take(i)).push(t),
            _ => warnings_in(ls.take(i)),
        },
        added_in(ls.take(i + 1)) == match ls[i] {
            TidyView::Added(t) => added_in(ls.take(i)).push(t),
            _ => added_in(ls.take(i)),
        },
        removed_in(ls.take(i + 1)) == match ls[i] {
            TidyView::Removed(t) => removed_in(ls.take(i)).push(t),
            _ => removed_in(ls.take(i)),
        },
        upgraded_in(ls.take(i + 1)) == match ls[i] {
            TidyView::Upgraded(t) => upgraded_in(ls.take(i)).push(t),
            _ => upgraded_in(ls.take(i)),
        },
{
    ls.lemma_filter_map_take_succ(reported_error(), i);
    ls.lemma_filter_map_take_succ(reported_warning(), i);
    ls.lemma_filter_map_take_succ(added_module(), i);
    ls.lemma_filter_map_take_succ(removed_module(), i);
    ls.lemma_filter_map_take_succ(upgraded_module(), i);
    assert(errors_in(ls.take(i)) + Seq::<Seq<char>>::empty() =~= errors_in(ls.take(i)));
    assert(warnings_in(ls.take(i)) + Seq::<Seq<char>>::empty() =~= warnings_in(ls.take(i)));
    assert(added_in(ls.take(i)) + Seq::<Seq<char>>::empty() =~= added_in(ls.take(i)));
    assert(removed_in(ls.take(i)) + Seq::<Seq<char>>::empty() =~= removed_in(ls.take(i)));
    assert(upgraded_in(ls.take(i)) + Seq::<Seq<char>>::empty() =~= upgraded_in(ls.take(i)));
}

/// The lists that a tidy report shows.
struct TidyLists {
    errors: Vec<String>,
    warnings: Vec<String>,
    added: Vec<String>,
    removed: Vec<String>,
    upgraded: Vec<String>,
}

fn sort_out(kinds: &Vec<TidyLine>) -> (r: TidyLists)
    ensures
        text::texts(r.errors@) == errors_in(kinds@.map_values(|k: TidyLine| k@)),
        text::texts(r.warnings@) == warnings_in(kinds@.map_values(|k: TidyLine| k@)),
        text::texts(r.added@) == added_in(kinds@.map_values(|k: TidyLine| k@)),
        text::texts(r.removed@) == removed_in(kinds@.map_values(|k: TidyLine| k@)),
        text::texts(r.upgraded@) == upgraded_in(kinds@.map_values(|k: TidyLine| k@)),
{
    let mut errors: Vec<String> = Vec::new();
    let mut warnings: Vec<String> = Vec::new();
    let mut added: Vec<String> = Vec::new();
    let mut removed: Vec<String> = Vec::new();
    let mut upgraded: Vec<String> = Vec::new();
    let ghost ls = kinds@.map_values(|k: TidyLine| k@);
    proof {
        assert(text::texts(errors@) =~= errors_in(ls.take(0)));
        assert(text::texts(warnings@) =~= warnings_in(ls.take(0)));
        assert(text::texts(added@) =~= added_in(ls.take(0)));
        assert(text::texts(removed@) =~= removed_in(ls.take(0)));
        assert(text::texts(upgraded@) =~= upgraded_in(ls.take(0)));
    }
    for i in 0..kinds.len()
        invariant
            ls == kinds@.map_values(|k: TidyLine| k@),
            text::texts(errors@) == errors_in(ls.take(i as int)),
            text::texts(warnings@) == warnings_in(ls.take(i as int)),
            text::texts(added@) == added_in(ls.take(i as int)),
            text::texts(removed@) == removed_in(ls.take(i as int)),
            text::texts(upgraded@) == upgraded_in(ls.take(i as int)),
    {
        proof {
            lemma_tidy_step(ls, i as int);
            assert(ls[i as int] == kinds@[i as int]@);
        }
        match &kinds[i] {
            TidyLine::Error(t) => {
                let ghost done = text::texts(errors@);
                errors.push(t.clone());
                assert(text::texts(errors@) =~= done.push(t@));
            },
            TidyLine::Warning(t) => {
                let ghost done = text::texts(warnings@);
                warnings.push(t.clone());
                assert(text::texts(warnings@) =~= done.push(t@));
            },
            TidyLine::Added(t) => {
                let ghost done = text::texts(added@);
                added.push(t.clone());
                assert(text::texts(added@) =~= done.push(t@));
            },
            TidyLine::Removed(t) => {
                let ghost done = text::texts(removed@);
                removed.push(t.clone());
                assert(text::texts(removed@) =~= done.push(t@));
            },
            TidyLine::Upgraded(t) => {
                let ghost done = text::texts(upgraded@);
                upgraded.push(t.clone());
                assert(text::texts(upgraded@) =~= done.push(t@));
            },
            TidyLine::Noise => {},
        }
    }
    proof {
        seqs::lemma_take_all(ls);
    }
    TidyLists { errors, warnings, added, removed, upgraded }
}

fn push_diagnostics(out: &mut String, label: &str, items: &[String])
    ensures
        final(out)@ == old(out)@ + diagnostics(label@, text::texts(items@)),
{
    let ghost start = out@;
    if items.len() > 0 {
        out.append("\n");
        append_list(out, label, items);
    }
    assert(out@ =~= start + diagnostics(label@, text::texts(items@)));
}

/// Reports a tidy run, given what its lines say.
pub fn summarize_tidy(kinds: &Vec<TidyLine>) -> (r: String)
    ensures
        r@ == tidy_report(kinds@.map_values(|k: TidyLine| k@)),
{
    let found = sort_out(kinds);
    let changed = found.added.len() > 0 || found.removed.len() > 0 || found.upgraded.len() > 0;
    let ghost ls = kinds@.map_values(|k: TidyLine| k@);
    proof {
        assert(added_in(ls).len() == found.added@.len());
        assert(removed_in(ls).len() == found.removed@.len());
        assert(upgraded_in(ls).len() == found.upgraded@.len());
        assert(errors_in(ls).len() == found.errors@.len());
        assert(warnings_in(ls).len() == found.warnings@.len());
    }
    if !changed && found.errors.len() == 0 && found.warnings.len() == 0 {
        return "go mod tidy: no changes".to_owned();
    }
    let mut out = String::new();
    if changed {
        out = "go mod tidy: ".to_owned();
        text::push_count(&mut out, found.added.len());
        out.append(" added, ");
        text::push_count(&mut out, found.removed.len());
        out.append(" removed, ");
        text::push_count(&mut out, found.upgraded.len());
        out.append(" upgraded\n");
        report::push_rule_line(&mut out);
        append_list(&mut out, "added", found.added.as_slice());
        append_list(&mut out, "removed", found.removed.as_slice());
        append_list(&mut out, "upgraded", found.upgraded.as_slice());
    } else {
        out = "go mod tidy: no changes\n".to_owned();
    }
    push_diagnostics(&mut out, "errors", found.errors.as_slice());
    push_diagnostics(&mut out, "warnings", found.warnings.as_slice());
    text::trim_end(out.as_str())
}

/// Classifies the lines of a tidy run; `None` where a change cannot be cut out of
/// its line.
fn classify_tidy(output: &str) -> (r: Option<Vec<TidyLine>>)
    ensures
        match r {
            Some(v) => cuttable(tidy_lines(output@)) && v@.map_values(|k: TidyLine| k@) == cut(
                tidy_lines(output@),
            ),
            None => !cuttable(tidy_lines(output@)),
        },
{
    let content = lines::content_lines(output);
    let mut kinds: Vec<TidyLine> = Vec::new();
    let ghost all = tidy_lines(output@);
    let ghost ls = text::texts(content@);
    for i in 0..content.len()
        invariant
            ls == text::texts(content@),
            ls == lines::content_lines_of(output@),
            all == tidy_lines(output@),
            forall|j: int| 0 <= j < i ==> (#[trigger] all[j]) is Some,
            kinds@.map_values(|k: TidyLine| k@) == cut(all).take(i as int),
    {
        let ghost done = kinds@.map_values(|k: TidyLine| k@);
        let line = content[i].as_str();
        let lower = line.to_lowercase();
        assert(ls[i as int] == line@);
        assert(all[i as int] == tidied(line@, lower@));
        match classify_tidy_line(line, lower.as_str()) {
            Some(k) => {
                kinds.push(k);
                proof {
                    assert(kinds@.map_values(|k: TidyLine| k@) =~= done.push(k@));
                    assert(cut(all).take(i + 1) =~= cut(all).take(i as int).push(k@));
                }
            },
            None => {
                return None;
            },
        }
    }
    proof {
        seqs::lemma_take_all(cut(all));
    }
    Some(kinds)
}

/// Filters the output of `go mod tidy`: the changes, the errors and the warnings;
/// progress is left out.
pub fn filter_mod_tidy(output: &str) -> (r: String)
    requires
        cuttable(tidy_lines(output@)),
    ensures
        r@ == tidy_report(cut(tidy_lines(output@))),
{
    let kinds = classify_tidy(output).unwrap();
    summarize_tidy(&kinds)
}

/// Filters the output of `go mod tidy`, after a test that every change can be cut
/// out of its line; `None` where one cannot.
pub fn filter_mod_tidy_checked(output: &str) -> (r: Option<String>)
    ensures
        match r {
            Some(s) => cuttable(tidy_lines(output@)) && s@ == tidy_report(
                cut(tidy_lines(output@)),
            ),
            None => !cuttable(tidy_lines(output@)),
        },
{
    match classify_tidy(output) {
        Some(_) => Some(filter_mod_tidy(output)),
        None => None,
    }
}

/// A line that reports an error is among the errors of the run, whatever progress
/// it mentions; a line that reports a warning and no error is among the warnings.
pub proof fn diagnostics_are_kept(output: Seq<char>, i: int)
    requires
        cuttable(tidy_lines(output)),
        0 <= i < lines::content_lines_of(output).len(),
    ensures
        ({
            let l = lines::content_lines_of(output)[i];
            let ls = cut(tidy_lines(output));
            &&& is_error(text::lowered(l)) ==> errors_in(ls).contains(l)
            &&& is_warning(text::lowered(l)) && !is_error(text::lowered(l))
                ==> warnings_in(ls).contains(l)
        }),
{
    let l = lines::content_lines_of(output)[i];
    let ls = cut(tidy_lines(output));
    assert(tidy_lines(output)[i] == tidied(l, text::lowered(l)));
    if is_error(text::lowered(l)) {
        seqs::lemma_filter_map_keeps(ls, i, reported_error());
    } else if is_warning(text::lowered(l)) {
        seqs::lemma_filter_map_keeps(ls, i, reported_warning());
    }
}

/// A line that tells of an added module, and reports neither an error nor a
/// warning, gives an added module; so do removed and upgraded ones.
pub proof fn changes_are_kept(output: Seq<char>, i: int)
    requires
        cuttable(tidy_lines(output)),
        0 <= i < lines::content_lines_of(output).len(),
        !is_error(text::lowered(lines::content_lines_of(output)[i])),
        !is_warning(text::lowered(lines::content_lines_of(output)[i])),
    ensures
        ({
            let l = lines::content_lines_of(output)[i];
            let lower = text::lowered(l);
            let ls = cut(tidy_lines(output));
            &&& "go: added "@.is_prefix_of(lower) ==> added_in(ls).contains(
                stripped(l, lower, "go: added "@)->0,
            )
            &&& "go: removed "@.is_prefix_of(lower) ==> removed_in(ls).contains(
                stripped(l, lower, "go: removed "@)->0,
            )
            &&& "go: upgraded "@.is_prefix_of(lower) ==> upgraded_in(ls).contains(
                stripped(l, lower, "go: upgraded "@)->0,
            )
        }),
{
    let l = lines::content_lines_of(output)[i];
    let lower = text::lowered(l);
    let ls = cut(tidy_lines(output));
    assert(tidy_lines(output)[i] == tidied(l, lower));
    assert(tidy_lines(output)[i] is Some);
    lemma_change_prefixes(lower);
    if "go: added "@.is_prefix_of(lower) {
        seqs::lemma_filter_map_keeps(ls, i, added_module());
    } else if "go: removed "@.is_prefix_of(lower) {
        seqs::lemma_filter_map_keeps(ls, i, removed_module());
    } else if "go: upgraded "@.is_prefix_of(lower) {
        seqs::lemma_filter_map_keeps(ls, i, upgraded_module());
    }
}

/// The prefixes of changes and of progress differ in their fifth character, so a
/// line begins with at most one of them.
proof fn lemma_change_prefixes(lower: Seq<char>)
    ensures
        "go: added "@.is_prefix_of(lower) ==> !is_progress(lower) && !"go: removed "@.is_prefix_of(
            lower,
        ) && !"go: upgraded "@.is_prefix_of(lower),
        "go: removed "@.is_prefix_of(lower) ==> !is_progress(lower)
            && !"go: upgraded "@.is_prefix_of(lower),
        "go: upgraded "@.is_prefix_of(lower) ==> !is_progress(lower),
{
    reveal_strlit("go: added ");
    reveal_strlit("go: removed ");
    reveal_strlit("go: upgraded ");
    reveal_strlit("go: finding ");
    reveal_strlit("go: downloading ");
    reveal_strlit("go: extracting ");
    lemma_prefix_char("go: added "@, lower);
    lemma_prefix_char("go: removed "@, lower);
    lemma_prefix_char("go: upgraded "@, lower);
    lemma_prefix_char("go: finding "@, lower);
    lemma_prefix_char("go: downloading "@, lower);
    lemma_prefix_char("go: extracting "@, lower);
}

/// A text that begins with a prefix has the prefix's fifth character.
proof fn lemma_prefix_char(prefix: Seq<char>, s: Seq<char>)
    requires
        prefix.len() > 4,
    ensures
        prefix.is_prefix_of(s) ==> s[4] == prefix[4],
{
    if prefix.is_prefix_of(s) {
        assert(s.subrange(0, prefix.len() as int)[4] == s[4]);
    }
}

/// Progress, and anything else that is not reported, makes no difference to the
/// report of a tidy run.
pub proof fn tidy_noise_is_dropped(
    before: Seq<TidyView>,
    noise: Seq<TidyView>,
    after: Seq<TidyView>,
)
    requires
        forall|i: int| 0 <= i < noise.len() ==> (#[trigger] noise[i]) is Noise,
    ensures
        tidy_report(before + noise + after) == tidy_report(before + after),
{
    seqs::lemma_filter_map_drops(before, noise, after, reported_error());
    seqs::lemma_filter_map_drops(before, noise, after, reported_warning());
    seqs::lemma_filter_map_drops(before, noise, after, added_module());
    seqs::lemma_filter_map_drops(before, noise, after, removed_module());
    seqs::lemma_filter_map_drops(before, noise, after, upgraded_module());
}

/// A line that is not reported: it tells of no change, no error and no warning.
pub open spec fn is_tidy_noise(l: Seq<char>) -> bool {
    tidied(l, text::lowered(l)) == Some(TidyView::Noise)
}

/// A line of progress that reports neither an error nor a warning is not reported.
pub proof fn progress_is_tidy_noise(l: Seq<char>)
    requires
        is_progress(text::lowered(l)),
        !is_error(text::lowered(l)),
        !is_warning(text::lowered(l)),
    ensures
        is_tidy_noise(l),
{
}

/// Lines that are blank or not reported, put in anywhere among the lines of an
/// output, make no difference to the report of a tidy run.
pub proof fn noise_makes_no_difference_to_tidy(
    plain: Seq<char>,
    noise: Seq<char>,
    noisy: Seq<char>,
)
    requires
        lines::lines_inserted(plain, noise, noisy),
        forall|i: int|
            0 <= i < lines::content_lines_of(noise).len() ==> is_tidy_noise(
                #[trigger] lines::content_lines_of(noise)[i],
            ),
    ensures
        cuttable(tidy_lines(noisy)) == cuttable(tidy_lines(plain)),
        tidy_report(cut(tidy_lines(noisy))) == tidy_report(cut(tidy_lines(plain))),
{
    let (before, after) = lines::lemma_content_inserted(plain, noise, noisy);
    let between = lines::content_lines_of(noise);
    let c = |l: Seq<char>| tidied(l, text::lowered(l));
    let a = before.map_values(c);
    let n = between.map_values(c);
    let b = after.map_values(c);
    assert(tidy_lines(plain) =~= a + b);
    assert(tidy_lines(noisy) =~= a + n + b);
    assert forall|i: int| 0 <= i < n.len() implies (#[trigger] n[i]) == Some(TidyView::Noise) by {
        assert(is_tidy_noise(between[i]));
    }
    assert(cut(a + b) =~= cut(a) + cut(b));
    assert(cut(a + n + b) =~= cut(a) + cut(n) + cut(b));
    assert forall|i: int| 0 <= i < cut(n).len() implies (#[trigger] cut(n)[i]) is Noise by {
        assert(n[i] == Some(TidyView::Noise));
    }
    tidy_noise_is_dropped(cut(a), cut(n), cut(b));
    let (na, nn) = (a.len() as int, n.len() as int);
    if cuttable(a + b) {
        assert forall|i: int| 0 <= i < (a + n + b).len() implies (#[trigger] (a + n
            + b)[i]) is Some by {
            if i < na {
                assert((a + b)[i] == a[i]);
            } else if i < na + nn {
                assert(n[i - na] is Some);
            } else {
                assert((a + b)[i - nn] == b[i - na - nn]);
            }
        }
    }
    if cuttable(a + n + b) {
        assert forall|i: int| 0 <= i < (a + b).len() implies (#[trigger] (a + b)[i]) is Some by {
            if i < na {
                assert((a + n + b)[i] == a[i]);
            } else {
                assert((a + n + b)[i + nn] == b[i - na]);
            }
        }
    }
}

/// An item that a capped list still shows stands in it.
proof fn lemma_item_in_rows(items: Seq<Seq<char>>, max: nat, label: Seq<char>, i: int)
    requires
        0 <= i < items.len(),
        i < max,
    ensures
        text::has_text(
            capped_rows(items, max, label),
            text::truncated(items[i], MAX_ITEM_WIDTH as nat),
        ),
{
    let kept = seqs::first(items, max);
    let f = |i: Seq<char>| item_row(i);
    let more = rows_left_out(items.len(), max, label);
    let t = text::truncated(items[i], MAX_ITEM_WIDTH as nat);
    let rows = capped_rows(items, max, label);
    report::lemma_row_in_block(Seq::empty(), kept, f, more, i);
    assert(Seq::<char>::empty() + kept.flat_map(f) + more =~= rows);
    text::lemma_middle_part("  "@, t, "\n"@);
    text::lemma_part_of_part(rows, f(kept[i]), t);
}

/// An item that a labelled list still shows stands in it.
proof fn lemma_item_in_listing(label: Seq<char>, items: Seq<Seq<char>>, i: int)
    requires
        0 <= i < items.len(),
        i < MAX_LIST_ITEMS,
    ensures
        text::has_text(
            listing(label, items),
            text::truncated(items[i], MAX_ITEM_WIDTH as nat),
        ),
{
    let head = label + " ("@ + text::decimal(items.len()) + "):\n"@;
    let rows = capped_rows(items, MAX_LIST_ITEMS as nat, label);
    lemma_item_in_rows(items, MAX_LIST_ITEMS as nat, label, i);
    text::lemma_middle_part(head, rows, Seq::empty());
    assert(head + rows + Seq::<char>::empty() =~= listing(label, items));
    text::lemma_part_of_part(
        listing(label, items),
        rows,
        text::truncated(items[i], MAX_ITEM_WIDTH as nat),
    );
}

/// A tidy report shows the items of its lists, of a long list the first ones: the
/// changes, the errors and the warnings, up to the width of a report.
pub proof fn listed_items_are_shown(ls: Seq<TidyView>, items: Seq<Seq<char>>, i: int)
    requires
        items == added_in(ls) || items == removed_in(ls) || items == upgraded_in(ls) || items
            == errors_in(ls) || items == warnings_in(ls),
        0 <= i < items.len(),
        i < MAX_LIST_ITEMS,
        items[i].len() > 0,
        !text::is_white(items[i].last()),
    ensures
        text::has_text(tidy_report(ls), text::truncated(items[i], MAX_ITEM_WIDTH as nat)),
{
    let added = added_in(ls);
    let removed = removed_in(ls);
    let upgraded = upgraded_in(ls);
    let errors = errors_in(ls);
    let warnings = warnings_in(ls);
    let t = text::truncated(items[i], MAX_ITEM_WIDTH as nat);
    let changed = added.len() > 0 || removed.len() > 0 || upgraded.len() > 0;
    let counts = tidy_counts(added.len(), removed.len(), upgraded.len());
    let a = listing("added"@, added);
    let r = listing("removed"@, removed);
    let u = listing("upgraded"@, upgraded);
    let head = if changed {
        counts + a + r + u
    } else {
        "go mod tidy: no changes\n"@
    };
    let e = diagnostics("errors"@, errors);
    let w = diagnostics("warnings"@, warnings);
    let whole = head + e + w;
    text::lemma_truncated_end(items[i], MAX_ITEM_WIDTH as nat);
    assert(text::has_text(whole, t)) by {
        if items == added {
            lemma_item_in_listing("added"@, added, i);
            text::lemma_part_of_sum(counts, a, t);
            text::lemma_part_of_sum(counts + a, r, t);
            text::lemma_part_of_sum(counts + a + r, u, t);
            text::lemma_part_of_sum(head, e, t);
        } else if items == removed {
            lemma_item_in_listing("removed"@, removed, i);
            text::lemma_part_of_sum(counts + a, r, t);
            text::lemma_part_of_sum(counts + a + r, u, t);
            text::lemma_part_of_sum(head, e, t);
        } else if items == upgraded {
            lemma_item_in_listing("upgraded"@, upgraded, i);
            text::lemma_part_of_sum(counts + a + r, u, t);
            text::lemma_part_of_sum(head, e, t);
        } else if items == errors {
            lemma_item_in_listing("errors"@, errors, i);
            text::lemma_part_of_sum("\n"@, listing("errors"@, errors), t);
            text::lemma_part_of_sum(head, e, t);
        } else {
            lemma_item_in_listing("warnings"@, warnings, i);
            text::lemma_part_of_sum("\n"@, listing("warnings"@, warnings), t);
        }
        text::lemma_part_of_sum(head + e, w, t);
    }
    text::lemma_trimming_keeps(whole, t);
}

/// A tidy report shows every error where there are not too many errors for a list,
/// and every warning where there are not too many warnings: each line that reports
/// one, up to the width of a report.
pub proof fn diagnostics_are_shown(output: Seq<char>, i: int)
    requires
        cuttable(tidy_lines(output)),
        0 <= i < lines::content_lines_of(output).len(),
        is_error(text::lowered(lines::content_lines_of(output)[i])) || is_warning(
            text::lowered(lines::content_lines_of(output)[i]),
        ),
        is_error(text::lowered(lines::content_lines_of(output)[i])) ==> errors_in(
            cut(tidy_lines(output)),
        ).len() <= MAX_LIST_ITEMS,
        !is_error(text::lowered(lines::content_lines_of(output)[i])) ==> warnings_in(
            cut(tidy_lines(output)),
        ).len() <= MAX_LIST_ITEMS,
    ensures
        text::has_text(
            tidy_report(cut(tidy_lines(output))),
            text::truncated(lines::content_lines_of(output)[i], MAX_ITEM_WIDTH as nat),
        ),
{
    let l = lines::content_lines_of(output)[i];
    let ls = cut(tidy_lines(output));
    let any = |c: char| true;
    lines::lemma_content_chars(output, any);
    diagnostics_are_kept(output, i);
    let items = if is_error(text::lowered(l)) {
        errors_in(ls)
    } else {
        warnings_in(ls)
    };
    listed_items_are_shown(ls, items, items.index_of(l));
}

/// Every change can be cut out of its line where the output is made of ASCII
/// characters.
pub proof fn ascii_changes_can_be_cut(output: Seq<char>)
    requires
        text::all_ascii(output),
    ensures
        cuttable(tidy_lines(output)),
{
    let ascii = |c: char| c <= '\u{7f}';
    let all = tidy_lines(output);
    lines::lemma_content_chars(output, ascii);
    assert forall|i: int| 0 <= i < all.len() implies (#[trigger] all[i]) is Some by {
        let l = lines::content_lines_of(output)[i];
        assert(all[i] == tidied(l, text::lowered(l)));
        assert(text::all_ascii(l)) by {
            assert forall|j: int| 0 <= j < l.len() implies l[j] <= '\u{7f}' by {
                assert(ascii(l[j]));
            }
        }
        reveal_strlit("go: added ");
        reveal_strlit("go: removed ");
        reveal_strlit("go: upgraded ");
        lemma_ascii_stripped(l, "go: added "@);
        lemma_ascii_stripped(l, "go: removed "@);
        lemma_ascii_stripped(l, "go: upgraded "@);
    }
}

/// An ASCII prefix can be cut off an ASCII line whose lowercase begins with it.
proof fn lemma_ascii_stripped(l: Seq<char>, prefix: Seq<char>)
    requires
        text::all_ascii(l),
        text::all_ascii(prefix),
    ensures
        stripped(l, text::lowered(l), prefix) is Some,
{
    if prefix.is_prefix_of(text::lowered(l)) {
        text::lemma_ascii_bytes(prefix);
        text::lemma_ascii_byte_index(l, prefix.len());
    }
}

/// A tidy run whose output is blank has changed nothing.
pub proof fn blank_output_changes_nothing(output: Seq<char>)
    requires
        text::every(output, text::whites()),
    ensures
        cuttable(tidy_lines(output)),
        tidy_report(cut(tidy_lines(output))) == "go mod tidy: no changes"@,
{
    lines::blank_text_has_no_content(output);
    let ls = cut(tidy_lines(output));
    assert(ls.len() == 0);
}

// ---------------------------------------------------------------------------
// go mod download
// ---------------------------------------------------------------------------

/// What a line of a download run says.
pub enum DownloadLine {
    Failure(String),
    /// A module is fetched.
    Download,
    /// Progress, or anything else that is not reported.
    Noise,
}

/// What a line of a download run says, as texts.
pub enum DownloadView {
    Failure(Seq<char>),
    Download,
    Noise,
}

impl View for DownloadLine {
    type V = DownloadView;

    open spec fn view(&self) -> DownloadView {
        match self {
            DownloadLine::Failure(l) => DownloadView::Failure(l@),
            DownloadLine::Download => DownloadView::Download,
            DownloadLine::Noise => DownloadView::Noise,
        }
    }
}

/// What a line, of which `lower` is the lowercase, says.
pub open spec fn fetched(l: Seq<char>, lower: Seq<char>) -> DownloadView {
    if text::has_text(lower, "error:"@) || text::has_text(lower, "failed"@) {
        DownloadView::Failure(l)
    } else if "go: downloading "@.is_prefix_of(lower) {
        DownloadView::Download
    } else {
        DownloadView::Noise
    }
}

/// Classifies a line of a download run, given its lowercase.
pub fn classify_download_line(line: &str, lower: &str) -> (r: DownloadLine)
    ensures
        r@ == fetched(line@, lower@),
{
    if text::contains(lower, "error:") || text::contains(lower, "failed") {
        DownloadLine::Failure(line.to_owned())
    } else if text::starts_with(lower, "go: downloading ") {
        DownloadLine::Download
    } else {
        DownloadLine::Noise
    }
}

/// How many modules were fetched.
pub open spec fn downloads_in(ls: Seq<DownloadView>) -> nat {
    ls.filter(|l: DownloadView| l is Download).len()
}

/// The failure that a line reports, if it does, as a mapping.
pub open spec fn failed_download() -> spec_fn(DownloadView) -> Option<Seq<char>> {
    |l: DownloadView|
        match l {
            DownloadView::Failure(t) => Some(t),
            _ => None,
        }
}

/// The reported failures.
pub open spec fn failures_in(ls: Seq<DownloadView>) -> Seq<Seq<char>> {
    ls.filter_map(failed_download())
}

/// The heading of the report of a run that fetched so many modules, and failed to
/// fetch so many.
pub open spec fn download_head(downloaded: nat, failed: nat) -> Seq<char> {
    "go mod download: "@ + text::decimal(downloaded) + " modules downloaded, "@ + text::decimal(
        failed,
    ) + " failed"@
}

/// The report of a download run.
pub open spec fn download_report(ls: Seq<DownloadView>) -> Seq<char> {
    let failures = failures_in(ls);
    let head = download_head(downloads_in(ls), failures.len());
    if failures.len() == 0 {
        head
    } else {
        text::trimmed_end(
            head + "\n"@ + report::rule_line() + capped_rows(
                failures,
                MAX_DOWNLOAD_FAILURES as nat,
                "failures"@,
            ),
        )
    }
}

/// What the lines of a download run say.
pub open spec fn download_lines(output: Seq<char>) -> Seq<DownloadView> {
    lines::content_lines_of(output).map_values(|l: Seq<char>| fetched(l, text::lowered(l)))
}

/// Reports a download run, given what its lines say.
pub fn summarize_download(kinds: &Vec<DownloadLine>) -> (r: String)
    ensures
        r@ == download_report(kinds@.map_values(|k: DownloadLine| k@)),
{
    let mut downloaded: usize = 0;
    let mut failures: Vec<String> = Vec::new();
    let ghost ls = kinds@.map_values(|k: DownloadLine| k@);
    let ghost p = |l: DownloadView| l is Download;
    let ghost f = failed_download();
    proof {
        seqs::lemma_filter_none(ls, p);
        assert(text::texts(failures@) =~= ls.take(0).filter_map(f));
    }
    for i in 0..kinds.len()
        invariant
            ls == kinds@.map_values(|k: DownloadLine| k@),
            p == (|l: DownloadView| l is Download),
            f == failed_download(),
            downloaded == ls.take(i as int).filter(p).len(),
            downloaded <= i,
            text::texts(failures@) == ls.take(i as int).filter_map(f),
    {
        let ghost done = text::texts(failures@);
        proof {
            seqs::lemma_filter_step(ls, p, i as int);
            ls.lemma_filter_map_take_succ(f, i as int);
            assert(ls[i as int] == kinds@[i as int]@);
            assert(done + Seq::<Seq<char>>::empty() =~= done);
        }
        match &kinds[i] {
            DownloadLine::Failure(l) => {
                failures.push(l.clone());
                assert(text::texts(failures@) =~= done + seq![l@]);
            },
            DownloadLine::Download => {
                downloaded += 1;
            },
            DownloadLine::Noise => {},
        }
    }
    proof {
        seqs::lemma_take_all(ls);
        assert(failures_in(ls).len() == failures@.len());
    }
    let mut out = "go mod download: ".to_owned();
    text::push_count(&mut out, downloaded);
    out.append(" modules downloaded, ");
    text::push_count(&mut out, failures.len());
    out.append(" failed");
    if failures.len() == 0 {
        return out;
    }
    out.append("\n");
    report::push_rule_line(&mut out);
    push_capped_rows(&mut out, failures.as_slice(), MAX_DOWNLOAD_FAILURES, "failures");
    text::trim_end(out.as_str())
}

/// Filters the output of `go mod download`: how many modules were fetched, and
/// the failures.
pub fn filter_mod_download(output: &str) -> (r: String)
    ensures
        r@ == download_report(download_lines(output@)),
{
    let content = lines::content_lines(output);
    let mut kinds: Vec<DownloadLine> = Vec::new();
    let ghost all = download_lines(output@);
    let ghost ls = text::texts(content@);
    for i in 0..content.len()
        invariant
            ls == text::texts(content@),
            ls == lines::content_lines_of(output@),
            all == download_lines(output@),
            kinds@.map_values(|k: DownloadLine| k@) == all.take(i as int),
    {
        let ghost done = kinds@.map_values(|k: DownloadLine| k@);
        let line = content[i].as_str();
        let lower = line.to_lowercase();
        let k = classify_download_line(line, lower.as_str());
        kinds.push(k);
        proof {
            assert(ls[i as int] == line@);
            assert(kinds@.map_values(|k: DownloadLine| k@) =~= done.push(k@));
            assert(all.take(i + 1) =~= all.take(i as int).push(k@));
        }
    }
    proof {
        seqs::lemma_take_all(all);
    }
    summarize_download(&kinds)
}

/// A download report shows the failures, of many the first ones, up to the width
/// of a report.
pub proof fn failed_downloads_are_shown(output: Seq<char>, i: int)
    requires
        0 <= i < failures_in(download_lines(output)).len(),
        i < MAX_DOWNLOAD_FAILURES,
    ensures
        text::has_text(
            download_report(download_lines(output)),
            text::truncated(failures_in(download_lines(output))[i], MAX_ITEM_WIDTH as nat),
        ),
{
    let ls = download_lines(output);
    let failures = failures_in(ls);
    let l = failures[i];
    let t = text::truncated(l, MAX_ITEM_WIDTH as nat);
    lemma_failure_line(output, i);
    text::lemma_truncated_end(l, MAX_ITEM_WIDTH as nat);
    let head = download_head(downloads_in(ls), failures.len()) + "\n"@ + report::rule_line();
    let rows = capped_rows(failures, MAX_DOWNLOAD_FAILURES as nat, "failures"@);
    lemma_item_in_rows(failures, MAX_DOWNLOAD_FAILURES as nat, "failures"@, i);
    report::lemma_ending_is_shown(head, rows, t);
}

/// A failure is a line of the output.
proof fn lemma_failure_line(output: Seq<char>, i: int)
    requires
        0 <= i < failures_in(download_lines(output)).len(),
    ensures
        failures_in(download_lines(output))[i].len() > 0,
        !text::is_white(failures_in(download_lines(output))[i].last()),
{
    let ls = download_lines(output);
    let f = failed_download();
    let any = |c: char| true;
    let t = failures_in(ls)[i];
    lines::lemma_content_chars(output, any);
    assert(ls.filter_map(f).contains(t));
    ls.lemma_filter_map_contains(f, t);
    let x = choose|x: DownloadView| #[trigger] ls.contains(x) && f(x) == Some(t);
    let k = ls.index_of(x);
    assert(ls[k] == x);
    assert(lines::content_lines_of(output)[k] == t);
}

/// A line that reports a failed download is among the failures of the run.
pub proof fn failures_are_kept(output: Seq<char>, i: int)
    requires
        0 <= i < lines::content_lines_of(output).len(),
        fetched(
            lines::content_lines_of(output)[i],
            text::lowered(lines::content_lines_of(output)[i]),
        ) is Failure,
    ensures
        failures_in(download_lines(output)).contains(lines::content_lines_of(output)[i]),
{
    seqs::lemma_filter_map_keeps(download_lines(output), i, failed_download());
}

/// Progress, and anything else that is not reported, makes no difference to the
/// report of a download run.
pub proof fn download_noise_is_dropped(
    before: Seq<DownloadView>,
    noise: Seq<DownloadView>,
    after: Seq<DownloadView>,
)
    requires
        forall|i: int| 0 <= i < noise.len() ==> (#[trigger] noise[i]) is Noise,
    ensures
        download_report(before + noise + after) == download_report(before + after),
{
    seqs::lemma_filter_drops(before, noise, after, |l: DownloadView| l is Download);
    seqs::lemma_filter_map_drops(before, noise, after, failed_download());
}

/// Lines that are blank or not reported, put in anywhere among the lines of an
/// output, make no difference to the report of a download run.
pub proof fn noise_makes_no_difference_to_download(
    plain: Seq<char>,
    noise: Seq<char>,
    noisy: Seq<char>,
)
    requires
        lines::lines_inserted(plain, noise, noisy),
        forall|i: int|
            0 <= i < download_lines(noise).len() ==> (#[trigger] download_lines(noise)[i]) is Noise,
    ensures
        download_report(download_lines(noisy)) == download_report(download_lines(plain)),
{
    let (before, after) = lines::lemma_content_inserted(plain, noise, noisy);
    let c = |l: Seq<char>| fetched(l, text::lowered(l));
    let a = before.map_values(c);
    let b = after.map_values(c);
    assert(download_lines(plain) =~= a + b);
    assert(download_lines(noisy) =~= a + download_lines(noise) + b);
    download_noise_is_dropped(a, download_lines(noise), b);
}

/// A download run whose output is blank has fetched nothing.
pub proof fn blank_output_fetches_nothing(output: Seq<char>)
    requires
        text::every(output, text::whites()),
    ensures
        download_report(download_lines(output))
            == "go mod download: 0 modules downloaded, 0 failed"@,
{
    lines::blank_text_has_no_content(output);
    let ls = download_lines(output);
    assert(ls.len() == 0);
    ls.lemma_filter_len(|l: DownloadView| l is Download);
    reveal_strlit("go mod download: ");
    reveal_strlit(" modules downloaded, ");
    reveal_strlit(" failed");
    reveal_strlit("go mod download: 0 modules downloaded, 0 failed");
    assert(text::decimal(0) =~= seq!['0']);
    assert("go mod download: "@ + seq!['0'] + " modules downloaded, "@ + seq!['0'] + " failed"@
        =~= "go mod download: 0 modules downloaded, 0 failed"@);
}

// ---------------------------------------------------------------------------
// go mod graph
// ---------------------------------------------------------------------------

/// A module and one that it requires.
pub struct Edge {
    pub parent: String,
    pub child: String,
}

/// A module and one that it requires, as texts.
pub struct EdgeView {
    pub parent: Seq<char>,
    pub child: Seq<char>,
}

impl View for Edge {
    type V = EdgeView;

    open spec fn view(&self) -> EdgeView {
        EdgeView { parent: self.parent@, child: self.child@ }
    }
}

/// The edge on a line: two words. A line of any other number of words holds none.
pub open spec fn edge_on(l: Seq<char>) -> Option<EdgeView> {
    let words = lines::words_of(l);
    if words.len() == 2 {
        Some(EdgeView { parent: words[0], child: words[1] })
    } else {
        None
    }
}

/// The edges of a graph, each once, in the order in which they first occur.
pub open spec fn edges_of(output: Seq<char>) -> Seq<EdgeView> {
    seqs::distinct(lines::content_lines_of(output).filter_map(|l: Seq<char>| edge_on(l)))
}

/// The modules at the ends of the edges.
pub open spec fn nodes(edges: Seq<EdgeView>) -> Set<Seq<char>> {
    ends(edges).to_set()
}

/// The ends of the edges, edge by edge.
pub open spec fn ends(edges: Seq<EdgeView>) -> Seq<Seq<char>> {
    edges.flat_map(|e: EdgeView| seq![e.parent, e.child])
}

/// Whether some module requires this one.
pub open spec fn is_required(edges: Seq<EdgeView>, module: Seq<char>) -> bool {
    exists|i: int| 0 <= i < edges.len() && (#[trigger] edges[i]).child == module
}

/// The edges from a root: a module that none requires.
pub open spec fn direct_edges(edges: Seq<EdgeView>) -> Seq<EdgeView> {
    edges.filter(|e: EdgeView| !is_required(edges, e.parent))
}

/// The edges to report: those from a root, or all where there is no root.
pub open spec fn shown_edges(edges: Seq<EdgeView>) -> Seq<EdgeView> {
    if direct_edges(edges).len() == 0 {
        edges
    } else {
        direct_edges(edges)
    }
}

/// The row of an edge.
pub open spec fn edge_row(e: EdgeView) -> Seq<char> {
    "  "@ + e.parent + " → "@ + e.child + "\n"@
}

/// The heading of the report of a graph.
pub open spec fn graph_head(edges: Seq<EdgeView>) -> Seq<char> {
    "go mod graph: "@ + text::decimal(nodes(edges).len()) + " modules, "@ + text::decimal(
        edges.len(),
    ) + " edges (showing direct deps)\n"@ + report::rule_line()
}

/// How many edges are left out of so many.
pub open spec fn edges_left_out(edges: nat) -> Seq<char> {
    "\n… +"@ + text::decimal((edges - MAX_GRAPH_EDGES) as nat) + " more edges\n"@
}

/// The end of the report of so many edges: how many are left out, if any are, and
/// the pointer to the whole graph.
pub open spec fn graph_ending(edges: nat, hint: Option<Seq<char>>) -> Seq<char> {
    if edges > MAX_GRAPH_EDGES {
        edges_left_out(edges) + report::hint_line(hint)
    } else {
        Seq::empty()
    }
}

/// The report of a graph. `hint` points to the whole graph on disk; it is shown
/// where not all edges are.
pub open spec fn graph_report(edges: Seq<EdgeView>, hint: Option<Seq<char>>) -> Seq<char> {
    let shown = shown_edges(edges);
    let head = graph_head(edges);
    let rows = seqs::first(shown, MAX_GRAPH_EDGES as nat).flat_map(|e: EdgeView| edge_row(e));
    let more = graph_ending(shown.len(), hint);
    if edges.len() == 0 {
        "go mod graph: 0 modules, 0 edges"@
    } else {
        text::trimmed_end(head + rows + more)
    }
}

/// What is to be kept on disk of a graph: all edges, where not all are shown.
pub open spec fn graph_tee(edges: Seq<EdgeView>) -> Option<report::TeeView> {
    if shown_edges(edges).len() > MAX_GRAPH_EDGES {
        Some(
            report::TeeView {
                content: text::joined(
                    edges.map_values(|e: EdgeView| e.parent + " "@ + e.child),
                    "\n"@,
                ),
                slug: "go-mod-graph"@,
                from_line: (MAX_GRAPH_EDGES + 1) as nat,
            },
        )
    } else {
        None
    }
}

fn has_edge(edges: &Vec<Edge>, e: &Edge) -> (r: bool)
    ensures
        r == edges@.map_values(|e: Edge| e@).contains(e@),
{
    let ghost all = edges@.map_values(|e: Edge| e@);
    for i in 0..edges.len()
        invariant
            all == edges@.map_values(|e: Edge| e@),
            forall|j: int| 0 <= j < i ==> all[j] != e@,
    {
        assert(all[i as int] == edges@[i as int]@);
        if edges[i].parent == e.parent && edges[i].child == e.child {
            return true;
        }
    }
    false
}

/// Reads the edges of a graph, each once.
pub fn parse_graph(output: &str) -> (r: Vec<Edge>)
    ensures
        r@.map_values(|e: Edge| e@) == edges_of(output@),
{
    let content = lines::content_lines(output);
    let mut edges: Vec<Edge> = Vec::new();
    let ghost ls = text::texts(content@);
    let ghost f = |l: Seq<char>| edge_on(l);
    let ghost mut found: Seq<EdgeView> = Seq::empty();
    proof {
        assert(ls.take(0).filter_map(f) =~= found);
        assert(edges@.map_values(|e: Edge| e@) =~= seqs::distinct(found));
    }
    for i in 0..content.len()
        invariant
            ls == text::texts(content@),
            f == (|l: Seq<char>| edge_on(l)),
            found == ls.take(i as int).filter_map(f),
            edges@.map_values(|e: Edge| e@) == seqs::distinct(found),
    {
        let ghost done = edges@.map_values(|e: Edge| e@);
        let words = lines::words(content[i].as_str());
        proof {
            ls.lemma_filter_map_take_succ(f, i as int);
            assert(text::texts(words@).len() == words@.len());
            assert(ls[i as int] == content@[i as int]@);
        }
        if words.len() == 2 {
            let e = Edge { parent: words[0].clone(), child: words[1].clone() };
            proof {
                assert(text::texts(words@)[0] == e.parent@);
                assert(text::texts(words@)[1] == e.child@);
                assert(edge_on(ls[i as int]) == Some(e@));
                seqs::lemma_distinct_push(found, e@);
                assert(found + seq![e@] =~= found.push(e@));
                found = found.push(e@);
            }
            if !has_edge(&edges, &e) {
                edges.push(e);
                assert(edges@.map_values(|e: Edge| e@) =~= done.push(e@));
            }
        } else {
            assert(found + Seq::<EdgeView>::empty() =~= found);
        }
    }
    proof {
        seqs::lemma_take_all(ls);
    }
    edges
}

fn count_nodes(edges: &Vec<Edge>) -> (r: usize)
    ensures
        r == nodes(edges@.map_values(|e: Edge| e@)).len(),
{
    let ghost all = edges@.map_values(|e: Edge| e@);
    let ghost f = |e: EdgeView| seq![e.parent, e.child];
    let mut names: Vec<String> = Vec::new();
    assert(all.take(0).map_values(f) =~= Seq::<Seq<Seq<char>>>::empty());
    assert(text::texts(names@) =~= all.take(0).flat_map(f));
    for i in 0..edges.len()
        invariant
            all == edges@.map_values(|e: Edge| e@),
            f == (|e: EdgeView| seq![e.parent, e.child]),
            text::texts(names@) == all.take(i as int).flat_map(f),
    {
        let ghost done = text::texts(names@);
        names.push(edges[i].parent.clone());
        names.push(edges[i].child.clone());
        proof {
            all.lemma_flat_map_take_append(f, i as int);
            assert(text::texts(names@) =~= done + f(all[i as int]));
        }
    }
    proof {
        seqs::lemma_take_all(all);
        seqs::lemma_distinct_len(ends(all));
    }
    let different = text::distinct_texts(&names);
    assert(different@.len() == text::texts(different@).len());
    different.len()
}

fn required(edges: &Vec<Edge>, module: &String) -> (r: bool)
    ensures
        r == is_required(edges@.map_values(|e: Edge| e@), module@),
{
    let ghost all = edges@.map_values(|e: Edge| e@);
    for i in 0..edges.len()
        invariant
            all == edges@.map_values(|e: Edge| e@),
            forall|j: int| 0 <= j < i ==> (#[trigger] all[j]).child != module@,
    {
        assert(all[i as int] == edges@[i as int]@);
        if edges[i].child == *module {
            return true;
        }
    }
    false
}

/// The positions of the edges to report.
fn shown_places(edges: &Vec<Edge>) -> (r: Vec<usize>)
    ensures
        forall|j: int| 0 <= j < r@.len() ==> #[trigger] r@[j] < edges@.len(),
        shown_edges(edges@.map_values(|e: Edge| e@)) == r@.map_values(
            |k: usize| edges@[k as int]@,
        ),
{
    let ghost all = edges@.map_values(|e: Edge| e@);
    let ghost p = |e: EdgeView| !is_required(all, e.parent);
    let mut direct: Vec<usize> = Vec::new();
    let mut every: Vec<usize> = Vec::new();
    proof {
        seqs::lemma_filter_none(all, p);
        assert(direct@.map_values(|k: usize| edges@[k as int]@) =~= all.take(0).filter(p));
        assert(every@.map_values(|k: usize| edges@[k as int]@) =~= all.take(0));
    }
    for i in 0..edges.len()
        invariant
            all == edges@.map_values(|e: Edge| e@),
            p == (|e: EdgeView| !is_required(all, e.parent)),
            forall|j: int| 0 <= j < direct@.len() ==> #[trigger] direct@[j] < edges@.len(),
            forall|j: int| 0 <= j < every@.len() ==> #[trigger] every@[j] < edges@.len(),
            direct@.map_values(|k: usize| edges@[k as int]@) == all.take(i as int).filter(p),
            every@.map_values(|k: usize| edges@[k as int]@) == all.take(i as int),
    {
        let ghost done = direct@.map_values(|k: usize| edges@[k as int]@);
        let ghost seen = every@.map_values(|k: usize| edges@[k as int]@);
        proof {
            seqs::lemma_filter_step(all, p, i as int);
            assert(all[i as int] == edges@[i as int]@);
        }
        every.push(i);
        proof {
            assert(every@.map_values(|k: usize| edges@[k as int]@) =~= seen.push(all[i as int]));
            assert(all.take(i + 1) =~= all.take(i as int).push(all[i as int]));
        }
        if !required(edges, &edges[i].parent) {
            direct.push(i);
            assert(direct@.map_values(|k: usize| edges@[k as int]@) =~= done.push(all[i as int]));
        }
    }
    proof {
        seqs::lemma_take_all(all);
        assert(direct@.len() == direct_edges(all).len());
    }
    if direct.len() == 0 {
        every
    } else {
        direct
    }
}

/// What is to be kept on disk before a graph is reported.
pub fn graph_tee_request(edges: &Vec<Edge>) -> (r: Option<TeeRequest>)
    ensures
        report::tee_view(r) == graph_tee(edges@.map_values(|e: Edge| e@)),
{
    let places = shown_places(edges);
    let ghost all = edges@.map_values(|e: Edge| e@);
    assert(places@.len() == shown_edges(all).len());
    if places.len() <= MAX_GRAPH_EDGES {
        return None;
    }
    let ghost rows = all.map_values(|e: EdgeView| e.parent + " "@ + e.child);
    let mut pairs: Vec<String> = Vec::new();
    for i in 0..edges.len()
        invariant
            all == edges@.map_values(|e: Edge| e@),
            rows == all.map_values(|e: EdgeView| e.parent + " "@ + e.child),
            text::texts(pairs@) == rows.take(i as int),
    {
        let ghost done = text::texts(pairs@);
        let mut pair = plan::concat2(edges[i].parent.as_str(), " ");
        pair.append(edges[i].child.as_str());
        pairs.push(pair);
        proof {
            assert(rows[i as int] == pair@);
            assert(text::texts(pairs@) =~= done.push(pair@));
            assert(rows.take(i + 1) =~= rows.take(i as int).push(pair@));
        }
    }
    proof {
        seqs::lemma_take_all(rows);
    }
    Some(
        TeeRequest {
            content: text::join(pairs.as_slice(), "\n"),
            slug: "go-mod-graph".to_owned(),
            from_line: MAX_GRAPH_EDGES + 1,
        },
    )
}

/// Reports a graph. `hint` points to the whole graph on disk.
pub fn summarize_graph(edges: &Vec<Edge>, hint: Option<&str>) -> (r: String)
    ensures
        r@ == graph_report(edges@.map_values(|e: Edge| e@), text::opt_str(hint)),
{
    if edges.len() == 0 {
        return "go mod graph: 0 modules, 0 edges".to_owned();
    }
    let ghost all = edges@.map_values(|e: Edge| e@);
    let mut out = "go mod graph: ".to_owned();
    text::push_count(&mut out, count_nodes(edges));
    out.append(" modules, ");
    text::push_count(&mut out, edges.len());
    out.append(" edges (showing direct deps)\n");
    report::push_rule_line(&mut out);
    let places = shown_places(edges);
    let n: usize = places.len();
    let ghost head = out@;
    let ghost shown = shown_edges(all);
    let ghost kept = seqs::first(shown, MAX_GRAPH_EDGES as nat);
    let ghost f = |e: EdgeView| edge_row(e);
    let stop: usize = if n > MAX_GRAPH_EDGES {
        MAX_GRAPH_EDGES
    } else {
        n
    };
    proof {
        assert(n == shown.len());
        seqs::lemma_rows_none(kept, f);
        assert(out@ =~= head + kept.take(0).flat_map(f));
    }
    for i in 0..stop
        invariant
            n == places@.len(),
            forall|j: int| 0 <= j < places@.len() ==> #[trigger] places@[j] < edges@.len(),
            shown == places@.map_values(|k: usize| edges@[k as int]@),
            kept == seqs::first(shown, MAX_GRAPH_EDGES as nat),
            stop <= n,
            stop == kept.len(),
            f == (|e: EdgeView| edge_row(e)),
            out@ == head + kept.take(i as int).flat_map(f),
    {
        let ghost before = out@;
        let e = &edges[places[i]];
        out.append("  ");
        out.append(e.parent.as_str());
        out.append(" → ");
        out.append(e.child.as_str());
        out.append("\n");
        proof {
            assert(kept[i as int] == e@);
            assert(out@ =~= before + edge_row(e@));
            seqs::lemma_rows_step(kept, f, i as int);
            assert(out@ =~= head + kept.take(i + 1).flat_map(f));
        }
    }
    proof {
        seqs::lemma_take_all(kept);
    }
    let ghost listed = out@;
    if n > MAX_GRAPH_EDGES {
        out.append("\n… +");
        text::push_count(&mut out, n - MAX_GRAPH_EDGES);
        out.append(" more edges\n");
        report::push_hint_line(&mut out, hint);
        assert(out@ =~= listed + ("\n… +"@ + text::decimal((n - MAX_GRAPH_EDGES) as nat)
            + " more edges\n"@ + report::hint_line(text::opt_str(hint))));
    } else {
        assert(out@ =~= listed + Seq::<char>::empty());
    }
    text::trim_end(out.as_str())
}

/// Filters the output of `go mod graph`: the direct dependencies of the root.
pub fn filter_mod_graph(output: &str, hint: Option<&str>) -> (r: String)
    ensures
        r@ == graph_report(edges_of(output@), text::opt_str(hint)),
{
    let edges = parse_graph(output);
    summarize_graph(&edges, hint)
}

/// Each edge of a graph is read once: the edges are those that the lines hold, and
/// none of them is there twice.
pub proof fn edges_are_read_once(output: Seq<char>)
    ensures
        edges_of(output).no_duplicates(),
        forall|i: int|
            0 <= i < lines::content_lines_of(output).len() && edge_on(
                #[trigger] lines::content_lines_of(output)[i],
            ) is Some ==> edges_of(output).contains(
                edge_on(lines::content_lines_of(output)[i])->0,
            ),
        forall|e: EdgeView| #[trigger]
            edges_of(output).contains(e) ==> exists|l: Seq<char>| #[trigger]
                lines::content_lines_of(output).contains(l) && edge_on(l) == Some(e),
{
    let ls = lines::content_lines_of(output);
    let f = |l: Seq<char>| edge_on(l);
    let found = ls.filter_map(f);
    seqs::lemma_distinct(found);
    assert forall|i: int| 0 <= i < ls.len() && edge_on(#[trigger] ls[i]) is Some implies edges_of(
        output,
    ).contains(edge_on(ls[i])->0) by {
        seqs::lemma_filter_map_keeps(ls, i, f);
        assert(found.contains(edge_on(ls[i])->0));
    }
    assert forall|e: EdgeView| #[trigger] edges_of(output).contains(e) implies exists|l: Seq<char>|
        #[trigger] ls.contains(l) && edge_on(l) == Some(e) by {
        assert(found.contains(e));
        ls.lemma_filter_map_contains(f, e);
        let l = choose|l: Seq<char>| #[trigger] ls.contains(l) && f(l) == Some(e);
        assert(ls.contains(l) && edge_on(l) == Some(e));
    }
}

/// Where a graph has an edge from a root, the edges to report are exactly the
/// edges from roots; else they are all edges.
pub proof fn only_direct_edges_are_reported(edges: Seq<EdgeView>)
    ensures
        forall|e: EdgeView| #[trigger]
            shown_edges(edges).contains(e) <==> edges.contains(e) && (direct_edges(edges).len() > 0
                ==> !is_required(edges, e.parent)),
{
    let p = |e: EdgeView| !is_required(edges, e.parent);
    let direct = direct_edges(edges);
    assert forall|e: EdgeView| #[trigger] shown_edges(edges).contains(e) <==> edges.contains(e) && (
    direct.len() > 0 ==> !is_required(edges, e.parent)) by {
        if direct.len() > 0 {
            if direct.contains(e) {
                edges.lemma_filter_pred(p, direct.index_of(e));
                edges.lemma_filter_contains_rev(p, e);
            }
            if edges.contains(e) && p(e) {
                edges.lemma_filter_contains(p, edges.index_of(e));
            }
        }
    }
}

/// The report of a graph shows the first of the edges to report.
pub proof fn first_edges_are_shown(output: Seq<char>, hint: Option<Seq<char>>, i: int)
    requires
        0 <= i < shown_edges(edges_of(output)).len(),
        i < MAX_GRAPH_EDGES,
    ensures
        ({
            let e = shown_edges(edges_of(output))[i];
            text::has_text(
                graph_report(edges_of(output), hint),
                e.parent + " → "@ + e.child,
            )
        }),
{
    let edges = edges_of(output);
    let shown = shown_edges(edges);
    let e = shown[i];
    let kept = seqs::first(shown, MAX_GRAPH_EDGES as nat);
    let f = |e: EdgeView| edge_row(e);
    let head = graph_head(edges);
    let more = graph_ending(shown.len(), hint);
    let t = e.parent + " → "@ + e.child;
    only_direct_edges_are_reported(edges);
    edges_are_read_once(output);
    assert(shown.contains(e));
    assert(edges.contains(e));
    let l = choose|l: Seq<char>| #[trigger]
        lines::content_lines_of(output).contains(l) && edge_on(l) == Some(e);
    lines::lemma_words(l);
    assert(lines::words_of(l)[1] == e.child);
    assert(!text::is_white(e.child.last()));
    assert(t.last() == e.child.last());
    text::lemma_middle_part("  "@, t, "\n"@);
    assert("  "@ + t + "\n"@ =~= edge_row(e));
    assert(kept[i] == e);
    report::lemma_row_is_shown(head, kept, f, more, i, t);
}

/// A pointer to the whole graph is shown exactly where something is kept on disk
/// for it: where the edges are not all shown.
pub proof fn graph_hint_needs_a_request(edges: Seq<EdgeView>, hint: Seq<char>)
    ensures
        graph_tee(edges) is None ==> graph_report(edges, Some(hint)) == graph_report(edges, None),
        graph_tee(edges) is Some ==> text::has_text(
            graph_report(edges, Some(hint)),
            text::trimmed_end(hint),
        ),
{
    let shown = shown_edges(edges);
    if shown.len() > MAX_GRAPH_EDGES {
        let kept = seqs::first(shown, MAX_GRAPH_EDGES as nat);
        let f = |e: EdgeView| edge_row(e);
        let head = graph_head(edges);
        let count = edges_left_out(shown.len());
        let before = head + kept.flat_map(f) + count;
        report::lemma_hint_is_shown(before, hint);
        assert(before + report::hint_line(Some(hint)) =~= head + kept.flat_map(f) + (count
            + report::hint_line(Some(hint))));
        assert(direct_edges(edges).len() <= edges.len()) by {
            edges.lemma_filter_len(|e: EdgeView| !is_required(edges, e.parent));
        }
    }
}

/// A blank output holds no graph.
pub proof fn blank_output_has_no_edges(output: Seq<char>, hint: Option<Seq<char>>)
    requires
        text::every(output, text::whites()),
    ensures
        graph_report(edges_of(output), hint) == "go mod graph: 0 modules, 0 edges"@,
        graph_tee(edges_of(output)) is None,
{
    lines::blank_text_has_no_content(output);
    let f = |l: Seq<char>| edge_on(l);
    assert(lines::content_lines_of(output).filter_map(f) =~= Seq::empty());
    let edges = edges_of(output);
    edges.lemma_filter_len(|e: EdgeView| !is_required(edges, e.parent));
}

/// Lines that hold no edge, put in anywhere among the lines of an output, make no
/// difference to the edges of the graph: blank lines, and lines of more or fewer than
/// two words.
pub proof fn lines_without_edges_make_no_difference(
    plain: Seq<char>,
    noise: Seq<char>,
    noisy: Seq<char>,
)
    requires
        lines::lines_inserted(plain, noise, noisy),
        forall|i: int|
            0 <= i < lines::content_lines_of(noise).len() ==> edge_on(
                #[trigger] lines::content_lines_of(noise)[i],
            ) is None,
    ensures
        edges_of(noisy) == edges_of(plain),
{
    let (before, after) = lines::lemma_content_inserted(plain, noise, noisy);
    seqs::lemma_filter_map_drops(
        before,
        lines::content_lines_of(noise),
        after,
        |l: Seq<char>| edge_on(l),
    );
}

// ---------------------------------------------------------------------------
// What the lines of a tidy run decide
// ---------------------------------------------------------------------------

/// A text in lowercase has the words of an error: `error:` anywhere, or `error` as a
/// word before another.
pub open spec fn has_words_of_error(lower: Seq<char>) -> bool {
    text::has_text(lower, "error:"@) || "error "@.is_prefix_of(lower) || text::has_text(
        lower,
        " error "@,
    )
}

/// A text in lowercase has the words of a warning: `warning:` at the beginning or
/// after a space, or `warning` and a space at the beginning.
pub open spec fn has_words_of_warning(lower: Seq<char>) -> bool {
    "warning:"@.is_prefix_of(lower) || "warning "@.is_prefix_of(lower) || text::has_text(
        lower,
        " warning:"@,
    )
}

/// A line with the words of an error reports an error, whatever else it says; of the
/// others, one with the words of a warning reports a warning.
pub proof fn words_tell_of_errors_and_warnings(l: Seq<char>, lower: Seq<char>)
    ensures
        has_words_of_error(lower) ==> tidied(l, lower) == Some(TidyView::Error(l)),
        !has_words_of_error(lower) && has_words_of_warning(lower) ==> tidied(l, lower) == Some(
            TidyView::Warning(l),
        ),
        is_error(lower) == has_words_of_error(lower),
        is_warning(lower) == has_words_of_warning(lower),
{
}

/// Of the lines that report neither an error nor a warning, one that begins with `go:
/// added`, `go: removed` or `go: upgraded`, in any case, tells of that change to what
/// follows; any other says nothing that is reported, whatever progress it tells of.
pub proof fn prefixes_tell_of_changes(
    head: Seq<char>,
    rest: Seq<char>,
    lower: Seq<char>,
    prefix: Seq<char>,
)
    requires
        !has_words_of_error(lower),
        !has_words_of_warning(lower),
        prefix.is_prefix_of(lower),
        text::utf8_len(head) == prefix.len(),
        prefix == "go: added "@ || prefix == "go: removed "@ || prefix == "go: upgraded "@,
    ensures
        tidied(head + rest, lower) == Some(
            if prefix == "go: added "@ {
                TidyView::Added(text::trimmed(rest))
            } else if prefix == "go: removed "@ {
                TidyView::Removed(text::trimmed(rest))
            } else {
                TidyView::Upgraded(text::trimmed(rest))
            },
        ),
{
    lemma_change_prefixes(lower);
    reveal_strlit("go: added ");
    reveal_strlit("go: removed ");
    reveal_strlit("go: upgraded ");
    assert(text::all_ascii(prefix));
    text::lemma_ascii_bytes(prefix);
    text::the_rest_follows_the_bytes_of_a_beginning(head, rest, 0);
    words_tell_of_errors_and_warnings(head + rest, lower);
}

/// What texts in a row say is what the one says and then what the other says.
pub proof fn texts_in_a_row_are_read_apart(a: Seq<char>, b: Seq<char>)
    ensures
        tidy_lines(a + "\n"@ + b) == tidy_lines(a) + tidy_lines(b),
        cut(tidy_lines(a + "\n"@ + b)) == cut(tidy_lines(a)) + cut(tidy_lines(b)),
        download_lines(a + "\n"@ + b) == download_lines(a) + download_lines(b),
{
    lines::content_of_texts_in_a_row(a, b);
    assert(tidy_lines(a + "\n"@ + b) =~= tidy_lines(a) + tidy_lines(b));
    assert(cut(tidy_lines(a + "\n"@ + b)) =~= cut(tidy_lines(a)) + cut(tidy_lines(b)));
    assert(download_lines(a + "\n"@ + b) =~= download_lines(a) + download_lines(b));
}

/// A change cannot be told where no character of the line begins after as many bytes as
/// its prefix has.
pub proof fn a_change_needs_its_prefix(l: Seq<char>, lower: Seq<char>, prefix: Seq<char>)
    requires
        !has_words_of_error(lower),
        !has_words_of_warning(lower),
        prefix.is_prefix_of(lower),
        prefix == "go: added "@ || prefix == "go: removed "@ || prefix == "go: upgraded "@,
        forall|k: int| 0 <= k <= l.len() ==> text::utf8_len(#[trigger] l.take(k)) != prefix.len(),
    ensures
        tidied(l, lower) is None,
{
    lemma_change_prefixes(lower);
    reveal_strlit("go: added ");
    reveal_strlit("go: removed ");
    reveal_strlit("go: upgraded ");
    assert(text::all_ascii(prefix));
    text::lemma_ascii_bytes(prefix);
    text::the_rest_follows_the_bytes_of_a_beginning(l, Seq::empty(), prefix.len());
    words_tell_of_errors_and_warnings(l, lower);
}

/// A line that reports neither an error nor a warning and begins with none of `go:
/// added`, `go: removed` and `go: upgraded` is not reported.
pub proof fn other_lines_are_left_out(l: Seq<char>, lower: Seq<char>)
    requires
        !has_words_of_error(lower),
        !has_words_of_warning(lower),
        !"go: added "@.is_prefix_of(lower),
        !"go: removed "@.is_prefix_of(lower),
        !"go: upgraded "@.is_prefix_of(lower),
    ensures
        tidied(l, lower) == Some(TidyView::Noise),
{
}

/// Each line of an output is classified by itself, in the order of the lines: what it
/// says depends on the line and on its lowercase.
pub proof fn lines_are_classified_one_by_one(output: Seq<char>, i: int)
    requires
        0 <= i < lines::content_lines_of(output).len(),
    ensures
        tidy_lines(output).len() == lines::content_lines_of(output).len(),
        download_lines(output).len() == lines::content_lines_of(output).len(),
        ({
            let l = lines::content_lines_of(output)[i];
            &&& tidy_lines(output)[i] == tidied(l, text::lowered(l))
            &&& download_lines(output)[i] == fetched(l, text::lowered(l))
            &&& tidied(l, text::lowered(l)) is Some ==> cut(tidy_lines(output))[i] == tidied(
                l,
                text::lowered(l),
            )->0
        }),
        cut(tidy_lines(output)).len() == lines::content_lines_of(output).len(),
{
}

/// Where some module was added, removed or upgraded, the report of a tidy run begins
/// with how many were added, how many removed and how many upgraded.
pub proof fn changes_are_counted(ls: Seq<TidyView>)
    requires
        added_in(ls).len() + removed_in(ls).len() + upgraded_in(ls).len() > 0,
    ensures
        ("go mod tidy: "@ + text::decimal(added_in(ls).len()) + " added, "@ + text::decimal(
            removed_in(ls).len(),
        ) + " removed, "@ + text::decimal(upgraded_in(ls).len()) + " upgraded"@).is_prefix_of(
            tidy_report(ls),
        ),
{
    let added = added_in(ls);
    let removed = removed_in(ls);
    let upgraded = upgraded_in(ls);
    let title = "go mod tidy: "@ + text::decimal(added.len()) + " added, "@ + text::decimal(
        removed.len(),
    ) + " removed, "@ + text::decimal(upgraded.len()) + " upgraded"@;
    let counts = tidy_counts(added.len(), removed.len(), upgraded.len());
    let whole = counts + listing("added"@, added) + listing("removed"@, removed) + listing(
        "upgraded"@,
        upgraded,
    ) + diagnostics("errors"@, errors_in(ls)) + diagnostics("warnings"@, warnings_in(ls));
    reveal_strlit(" upgraded");
    reveal_strlit(" upgraded\n");
    let n = title.len() as int;
    assert(counts.subrange(0, n) =~= title);
    assert(whole.subrange(0, n) =~= title);
    text::lemma_trimmed_end(whole);
    assert(whole[n - 1] == title.last());
    assert(title.last() == 'd');
    let report = tidy_report(ls);
    assert(report == text::trimmed_end(whole));
    assert(report.len() >= n);
    assert(report.subrange(0, n) =~= title);
}

/// Each line that tells of a change counts once, for that change alone; each error and
/// each warning is listed once, in the order of the lines.
pub proof fn each_line_counts_once(ls: Seq<TidyView>, l: TidyView)
    ensures
        added_in(ls.push(l)) == if l is Added {
            added_in(ls).push(l->Added_0)
        } else {
            added_in(ls)
        },
        removed_in(ls.push(l)) == if l is Removed {
            removed_in(ls).push(l->Removed_0)
        } else {
            removed_in(ls)
        },
        upgraded_in(ls.push(l)) == if l is Upgraded {
            upgraded_in(ls).push(l->Upgraded_0)
        } else {
            upgraded_in(ls)
        },
        errors_in(ls.push(l)) == if l is Error {
            errors_in(ls).push(l->Error_0)
        } else {
            errors_in(ls)
        },
        warnings_in(ls.push(l)) == if l is Warning {
            warnings_in(ls).push(l->Warning_0)
        } else {
            warnings_in(ls)
        },
        added_in(Seq::empty()).len() == 0,
        removed_in(Seq::empty()).len() == 0,
        upgraded_in(Seq::empty()).len() == 0,
        errors_in(Seq::empty()).len() == 0,
        warnings_in(Seq::empty()).len() == 0,
{
    let all = ls.push(l);
    let k = ls.len() as int;
    lemma_tidy_step(all, k);
    assert(all.take(k) =~= ls);
    assert(all.take(k + 1) =~= all);
}

/// A list is its label with the number of items, then the first thirty items, each cut
/// to the width of a report in a row of its own, then how many more there are. No list
/// is shown of no items.
pub proof fn lists_are_counted_and_capped(label: Seq<char>, items: Seq<Seq<char>>)
    ensures
        listing(label, items) == if items.len() == 0 {
            Seq::empty()
        } else {
            label + " ("@ + text::decimal(items.len()) + "):\n"@ + (seqs::first(
                items,
                30,
            ).flat_map(|i: Seq<char>| "  "@ + text::truncated(i, 120) + "\n"@) + if items.len()
                > 30 {
                "  … +"@ + text::decimal((items.len() - 30) as nat) + " more "@ + label + "\n"@
            } else {
                Seq::empty()
            })
        },
{
    assert((|i: Seq<char>| item_row(i)) =~= (|i: Seq<char>|
        "  "@ + text::truncated(i, 120) + "\n"@));
}

/// The report of a tidy run lists what was added, then what was removed, then what was
/// upgraded, then the errors, then the warnings, the last two each after an empty line.
/// A run without any of them changed nothing.
pub proof fn the_tidy_report_lists_changes_before_diagnostics(ls: Seq<TidyView>)
    ensures
        ({
            let added = added_in(ls);
            let removed = removed_in(ls);
            let upgraded = upgraded_in(ls);
            let errors = errors_in(ls);
            let warnings = warnings_in(ls);
            let changes = added.len() + removed.len() + upgraded.len();
            let told = changes + errors.len() + warnings.len();
            let head = if changes == 0 {
                "go mod tidy: no changes\n"@
            } else {
                "go mod tidy: "@ + text::decimal(added.len()) + " added, "@ + text::decimal(
                    removed.len(),
                ) + " removed, "@ + text::decimal(upgraded.len()) + " upgraded\n"@
                    + "═══════════════════════════════════════\n"@ + listing("added"@, added)
                    + listing("removed"@, removed) + listing("upgraded"@, upgraded)
            };
            tidy_report(ls) == if told == 0 {
                "go mod tidy: no changes"@
            } else {
                text::trimmed_end(
                    head + if errors.len() == 0 {
                        Seq::empty()
                    } else {
                        "\n"@ + listing("errors"@, errors)
                    } + if warnings.len() == 0 {
                        Seq::empty()
                    } else {
                        "\n"@ + listing("warnings"@, warnings)
                    },
                )
            }
        }),
{
}

/// A line whose lowercase begins with the prefix loses as many bytes as the prefix has,
/// and the white space around the rest; any other line stays as it is.
pub proof fn prefixes_are_cut_off(
    head: Seq<char>,
    rest: Seq<char>,
    lower: Seq<char>,
    prefix: Seq<char>,
)
    ensures
        prefix.is_prefix_of(lower) && text::utf8_len(head) == text::utf8_len(prefix) ==> stripped(
            head + rest,
            lower,
            prefix,
        ) == Some(text::trimmed(rest)),
        !prefix.is_prefix_of(lower) ==> stripped(rest, lower, prefix) == Some(rest),
        stripped(rest, lower, prefix) is None ==> prefix.is_prefix_of(lower) && forall|k: int|
            0 <= k <= rest.len() ==> text::utf8_len(#[trigger] rest.take(k)) != text::utf8_len(
                prefix,
            ),
{
    text::the_rest_follows_the_bytes_of_a_beginning(head, rest, 0);
    if stripped(rest, lower, prefix) is None {
        assert forall|k: int| 0 <= k <= rest.len() implies text::utf8_len(#[trigger] rest.take(k))
            != text::utf8_len(prefix) by {
            text::the_rest_follows_the_bytes_of_a_beginning(rest.take(k), rest.skip(k), 0);
            assert(rest.take(k) + rest.skip(k) =~= rest);
        }
    }
}

/// A tidy run can be reported exactly where each of its lines can be classified.
pub proof fn every_line_can_be_classified(output: Seq<char>)
    ensures
        cuttable(tidy_lines(output)) <==> forall|i: int|
            0 <= i < lines::content_lines_of(output).len() ==> {
                let l = #[trigger] lines::content_lines_of(output)[i];
                tidied(l, text::lowered(l)) is Some
            },
{
    let all = lines::content_lines_of(output);
    let ls = tidy_lines(output);
    if cuttable(ls) {
        assert forall|i: int| 0 <= i < all.len() implies ({
            let l = #[trigger] all[i];
            tidied(l, text::lowered(l)) is Some
        }) by {
            assert(ls[i] is Some);
        }
    }
}

// ---------------------------------------------------------------------------
// What the lines of a download run decide
// ---------------------------------------------------------------------------

/// A line that has `error:` or `failed` in its lowercase reports a failure; of the
/// others, one that begins with `go: downloading` tells of a module that is fetched.
pub proof fn words_tell_of_failed_downloads(l: Seq<char>, lower: Seq<char>)
    ensures
        text::has_text(lower, "error:"@) || text::has_text(lower, "failed"@) ==> fetched(l, lower)
            == DownloadView::Failure(l),
        !text::has_text(lower, "error:"@) && !text::has_text(lower, "failed"@)
            && "go: downloading "@.is_prefix_of(lower) ==> fetched(l, lower)
            == DownloadView::Download,
        !text::has_text(lower, "error:"@) && !text::has_text(lower, "failed"@)
            && !"go: downloading "@.is_prefix_of(lower) ==> fetched(l, lower)
            == DownloadView::Noise,
{
}

/// Each line that tells of a fetched module counts once, and each failure is listed
/// once, in the order of the lines.
pub proof fn each_download_counts_once(ls: Seq<DownloadView>, l: DownloadView)
    ensures
        downloads_in(ls.push(l)) == downloads_in(ls) + if l == DownloadView::Download {
            1nat
        } else {
            0nat
        },
        failures_in(ls.push(l)) == if l is Failure {
            failures_in(ls).push(l->Failure_0)
        } else {
            failures_in(ls)
        },
        downloads_in(Seq::empty()) == 0,
        failures_in(Seq::empty()).len() == 0,
{
    let p = |l: DownloadView| l is Download;
    let all = ls.push(l);
    let k = ls.len() as int;
    seqs::lemma_filter_step(all, p, k);
    all.lemma_filter_map_take_succ(failed_download(), k);
    assert(all.take(k) =~= ls);
    assert(all.take(k + 1) =~= all);
    let done = failures_in(ls);
    assert(done + Seq::<Seq<char>>::empty() =~= done);
    if let DownloadView::Failure(t) = l {
        assert(done + seq![t] =~= done.push(t));
    }
    Seq::<DownloadView>::empty().lemma_filter_len(p);
}

/// The report of a download run says how many modules were fetched and how many
/// failures there are; then it lists the first twenty failures, each cut to the width
/// of a report, and how many more there are.
pub proof fn the_download_report_counts_and_lists(ls: Seq<DownloadView>)
    ensures
        ({
            let failures = failures_in(ls);
            let head = "go mod download: "@ + text::decimal(downloads_in(ls))
                + " modules downloaded, "@ + text::decimal(failures.len()) + " failed"@;
            download_report(ls) == if failures.len() == 0 {
                head
            } else {
                text::trimmed_end(
                    head + "\n"@ + "═══════════════════════════════════════\n"@ + (seqs::first(
                        failures,
                        20,
                    ).flat_map(|i: Seq<char>| "  "@ + text::truncated(i, 120) + "\n"@)
                        + if failures.len() > 20 {
                        "  … +"@ + text::decimal((failures.len() - 20) as nat) + " more "@
                            + "failures"@ + "\n"@
                    } else {
                        Seq::empty()
                    }),
                )
            }
        }),
{
    assert((|i: Seq<char>| item_row(i)) =~= (|i: Seq<char>|
        "  "@ + text::truncated(i, 120) + "\n"@));
}

// ---------------------------------------------------------------------------
// What the lines of a graph decide
// ---------------------------------------------------------------------------

/// A line holds an edge exactly where it consists of two words: from the first to the
/// second.
pub proof fn two_words_are_an_edge(l: Seq<char>, a: Seq<char>, b: Seq<char>)
    ensures
        lines::words_of(l) == seq![a, b] <==> edge_on(l) == Some(EdgeView { parent: a, child: b }),
        lines::words_of(l).len() == 2 <==> edge_on(l) is Some,
{
    let words = lines::words_of(l);
    if words.len() == 2 && words[0] == a && words[1] == b {
        assert(words =~= seq![a, b]);
    }
    assert(seq![a, b][0] == a && seq![a, b][1] == b);
}

/// Edges keep the order in which they first occur: those of the beginning of an output
/// come before those of the rest.
pub proof fn edges_keep_their_order(a: Seq<char>, b: Seq<char>)
    ensures
        edges_of(a).is_prefix_of(edges_of(a + "\n"@ + b)),
{
    let f = |l: Seq<char>| edge_on(l);
    lines::content_of_texts_in_a_row(a, b);
    let x = lines::content_lines_of(a).filter_map(f);
    let y = lines::content_lines_of(b).filter_map(f);
    seqs::lemma_filter_map_add(lines::content_lines_of(a), lines::content_lines_of(b), f);
    seqs::distinct_elements_keep_their_order(x + y, x.len() as int);
    assert((x + y).take(x.len() as int) =~= x);
}

/// A module of a graph is what an edge goes from or to.
pub proof fn modules_are_the_ends_of_edges(edges: Seq<EdgeView>, module: Seq<char>)
    ensures
        nodes(edges).contains(module) <==> exists|i: int|
            0 <= i < edges.len() && ((#[trigger] edges[i]).parent == module || edges[i].child
                == module),
    decreases edges.len(),
{
    let f = |e: EdgeView| seq![e.parent, e.child];
    if edges.len() == 0 {
        assert(edges.map_values(f) =~= Seq::<Seq<Seq<char>>>::empty());
        assert(ends(edges).len() == 0);
    } else {
        let k = edges.len() - 1;
        let before = edges.take(k);
        let last = edges[k];
        modules_are_the_ends_of_edges(before, module);
        edges.lemma_flat_map_take_append(f, k);
        seqs::lemma_take_all(edges);
        let known = ends(before);
        let all = ends(edges);
        assert(all == known + seq![last.parent, last.child]);
        if known.contains(module) {
            let i = known.index_of(module);
            assert(all[i] == module);
        }
        if all.contains(module) {
            let i = all.index_of(module);
            assert(all[i] == module);
            if i < known.len() {
                assert(known[i] == module);
            }
        }
        assert(all[known.len() as int] == last.parent);
        assert(all[known.len() as int + 1] == last.child);
        assert(all.contains(last.parent) && all.contains(last.child));
        if exists|i: int|
            0 <= i < before.len() && ((#[trigger] before[i]).parent == module || before[i].child
                == module) {
            let i = choose|i: int|
                0 <= i < before.len() && ((#[trigger] before[i]).parent == module
                    || before[i].child == module);
            assert(edges[i] == before[i]);
        }
        if exists|i: int|
            0 <= i < edges.len() && ((#[trigger] edges[i]).parent == module || edges[i].child
                == module) {
            let i = choose|i: int|
                0 <= i < edges.len() && ((#[trigger] edges[i]).parent == module || edges[i].child
                    == module);
            if i < k {
                assert(before[i] == edges[i]);
            }
        }
    }
}

/// An edge goes to the module.
pub open spec fn goes_to(e: EdgeView, module: Seq<char>) -> bool {
    e.child == module
}

/// The edges to report are those from modules that no edge goes to, in their order;
/// where every edge comes from a module that some edge goes to, they are all edges.
pub proof fn edges_from_roots_are_reported(edges: Seq<EdgeView>)
    ensures
        ({
            let direct = edges.filter(
                |e: EdgeView|
                    forall|i: int|
                        0 <= i < edges.len() ==> !goes_to(#[trigger] edges[i], e.parent),
            );
            shown_edges(edges) == if direct.len() == 0 {
                edges
            } else {
                direct
            }
        }),
{
    let p = |e: EdgeView| !is_required(edges, e.parent);
    let q = |e: EdgeView|
        forall|i: int| 0 <= i < edges.len() ==> !goes_to(#[trigger] edges[i], e.parent);
    assert forall|e: EdgeView| #[trigger] p(e) == q(e) by {
        if q(e) && is_required(edges, e.parent) {
            let i = choose|i: int|
                0 <= i < edges.len() && (#[trigger] edges[i]).child == e.parent;
            assert(!goes_to(edges[i], e.parent));
        }
        if p(e) {
            assert forall|i: int| 0 <= i < edges.len() implies !goes_to(
                #[trigger] edges[i],
                e.parent,
            ) by {
                if goes_to(edges[i], e.parent) {
                    assert(edges[i].child == e.parent);
                }
            }
        }
    }
    assert(p =~= q);
}

/// The report of a graph is the number of its modules and edges, then the first fifty
/// of the edges to report, then how many more of these there are. What is left out is
/// kept on disk with the whole graph.
pub proof fn the_graph_report_counts_and_lists(edges: Seq<EdgeView>, hint: Option<Seq<char>>)
    ensures
        edges.len() == 0 ==> graph_report(edges, hint) == "go mod graph: 0 modules, 0 edges"@,
        edges.len() > 0 ==> ({
            let shown = shown_edges(edges);
            graph_report(edges, hint) == text::trimmed_end(
                "go mod graph: "@ + text::decimal(nodes(edges).len()) + " modules, "@
                    + text::decimal(edges.len()) + " edges (showing direct deps)\n"@
                    + "═══════════════════════════════════════\n"@ + seqs::first(
                    shown,
                    50,
                ).flat_map(|e: EdgeView| "  "@ + e.parent + " → "@ + e.child + "\n"@)
                    + if shown.len() > 50 {
                    "\n… +"@ + text::decimal((shown.len() - 50) as nat) + " more edges\n"@
                        + if hint is Some {
                        "  "@ + hint->0 + "\n"@
                    } else {
                        Seq::empty()
                    }
                } else {
                    Seq::empty()
                },
            )
        }),
        graph_tee(edges) == if shown_edges(edges).len() > 50 {
            Some(
                report::TeeView {
                    content: text::joined(
                        edges.map_values(|e: EdgeView| e.parent + " "@ + e.child),
                        "\n"@,
                    ),
                    slug: "go-mod-graph"@,
                    from_line: 51,
                },
            )
        } else {
            None
        },
{
    assert((|e: EdgeView| edge_row(e)) =~= (|e: EdgeView|
        "  "@ + e.parent + " → "@ + e.child + "\n"@));
}

// ---------------------------------------------------------------------------
// What the arguments decide
// ---------------------------------------------------------------------------

/// `go mod` runs with the given subcommand and arguments. The output of tidy, download
/// and graph goes through the filter for it, both streams together, except that of a
/// graph for which `--deep` is given, a flag that is kept back; the output of any other
/// subcommand is handed on.
pub proof fn arguments_are_handed_on(sub: Seq<char>, rest: Seq<Seq<char>>, verbose: u8)
    ensures
        ({
            let args = seq![sub] + rest;
            let deep = sub == "graph"@ && rest.contains("--deep"@);
            let shown = if sub == "graph"@ {
                plan::without_flag(rest, "--deep"@)
            } else {
                rest
            };
            match planned(args, verbose) {
                plan::PlanView::Filtered(f) => {
                    &&& f.program == "go"@
                    &&& f.args == seq!["mod"@, sub] + shown
                    &&& sub == "tidy"@ && f.filter is ModTidy && f.tee == "go_mod_tidy"@ || sub
                        == "download"@ && f.filter is ModDownload && f.tee == "go_mod_download"@
                        || sub == "graph"@ && f.tee == "go_mod_graph"@ && (if deep {
                        f.filter is Verbatim
                    } else {
                        f.filter is ModGraph
                    })
                    &&& !f.stdout_only
                    &&& f.tool == "go mod "@ + sub
                    &&& f.shown_args == text::joined(shown, " "@)
                    &&& f.announcement == if verbose == 0 {
                        None
                    } else if sub != "graph"@ {
                        Some("Running: go mod "@ + sub + " "@ + text::joined(shown, " "@))
                    } else if deep {
                        Some(
                            "Running: go mod "@ + sub + " "@ + text::joined(shown, " "@)
                                + " (deep="@ + "true"@ + ")"@,
                        )
                    } else {
                        Some(
                            "Running: go mod "@ + sub + " "@ + text::joined(shown, " "@)
                                + " (deep="@ + "false"@ + ")"@,
                        )
                    }
                },
                plan::PlanView::Passthrough(p) => {
                    &&& sub != "tidy"@ && sub != "download"@ && sub != "graph"@
                    &&& p.program == "go"@
                    &&& p.args == seq!["mod"@] + args
                    &&& p.failure == "Failed to run go mod "@ + sub
                    &&& p.original == "go mod "@ + sub
                    &&& p.given == "rtk go mod "@ + sub
                    &&& p.label == "go mod"@
                    &&& p.announcement == if verbose == 0 {
                        None
                    } else {
                        Some("Running: go mod "@ + sub + " ..."@)
                    }
                },
            }
        }),
{
    let args = seq![sub] + rest;
    assert(args[0] == sub);
    assert(args.skip(1) =~= rest);
    reveal_strlit("tidy");
    reveal_strlit("download");
    reveal_strlit("graph");
    assert("tidy"@.len() != "graph"@.len() && "download"@.len() != "graph"@.len());
}

/// Classified lines and edges are seen with the texts of their fields.
pub proof fn fields_are_seen_as_texts(t: TidyLine, d: DownloadLine, e: Edge)
    ensures
        match t {
            TidyLine::Error(l) => t@ == TidyView::Error(l@),
            TidyLine::Warning(l) => t@ == TidyView::Warning(l@),
            TidyLine::Added(m) => t@ == TidyView::Added(m@),
            TidyLine::Removed(m) => t@ == TidyView::Removed(m@),
            TidyLine::Upgraded(m) => t@ == TidyView::Upgraded(m@),
            TidyLine::Noise => t@ is Noise,
        },
        match d {
            DownloadLine::Failure(l) => d@ == DownloadView::Failure(l@),
            DownloadLine::Download => d@ is Download,
            DownloadLine::Noise => d@ is Noise,
        },
        e@ == (EdgeView { parent: e.parent@, child: e.child@ }),
{
}

} // verus!
