//! `buf` (Protobuf): lint findings clustered by rule, build errors, and failed
//! plugins of a generate run.

use crate::decode;
use crate::lines;
use crate::plan;
use crate::plan::{Filter, Filtered, Passthrough, Plan, PlanError};
use crate::ranking;
use crate::report;
use crate::seqs;
use crate::text;
use vstd::prelude::*;

verus! {

/// How many rules a lint report shows.
pub const MAX_RULES_DISPLAYED: usize = 5;

/// How many findings a lint report shows of one rule.
pub const MAX_SAMPLES_PER_RULE: usize = 3;

/// How wide a line of a report may be.
pub const MAX_LINE_WIDTH: usize = 120;

// ---------------------------------------------------------------------------
// What to run
// ---------------------------------------------------------------------------

/// Whether an argument sets the format of lint findings.
pub open spec fn sets_format(a: Seq<char>) -> bool {
    a == "--error-format"@ || "--error-format="@.is_prefix_of(a)
}

/// The arguments of `buf lint`: the given ones, after a request for JSON where
/// they set no format.
pub open spec fn lint_args(args: Seq<Seq<char>>) -> Seq<Seq<char>> {
    if exists|i: int| 0 <= i < args.len() && sets_format(#[trigger] args[i]) {
        args
    } else {
        seq!["--error-format=json"@] + args
    }
}

/// Adds `--error-format=json` unless the arguments already set a format.
pub fn inject_lint_format(args: &[String]) -> (r: Vec<String>)
    ensures
        text::texts(r@) == lint_args(text::texts(args@)),
{
    let n: usize = args.len();
    let ghost all = text::texts(args@);
    for i in 0..n
        invariant
            n == args@.len(),
            all == text::texts(args@),
            forall|j: int| 0 <= j < i ==> !sets_format(#[trigger] all[j]),
    {
        let a = args[i].as_str();
        if text::same_text(a, "--error-format") || text::starts_with(a, "--error-format=") {
            assert(sets_format(all[i as int]));
            return text::copy_all(args);
        }
        assert(all[i as int] == a@);
    }
    plan::after_word("--error-format=json", args)
}

/// The run of a subcommand whose output goes through a filter.
pub open spec fn filtered_run(
    sub: Seq<char>,
    args: Seq<Seq<char>>,
    verbose: u8,
    filter: plan::FilterView,
    tee: Seq<char>,
) -> plan::PlanView {
    plan::PlanView::Filtered(
        plan::FilteredView {
            program: "buf"@,
            args: seq![sub] + args,
            announcement: plan::announced(
                verbose,
                "Running: buf "@ + sub + " "@ + text::joined(args, " "@),
            ),
            tool: "buf "@ + sub,
            shown_args: text::joined(args, " "@),
            filter,
            stdout_only: false,
            tee,
        },
    )
}

/// The run of a subcommand whose output is handed on.
pub open spec fn untouched_run(args: Seq<Seq<char>>, verbose: u8) -> plan::PlanView {
    plan::PlanView::Passthrough(
        plan::PassthroughView {
            program: "buf"@,
            args,
            announcement: plan::announced(verbose, "Running: buf "@ + args[0] + " ..."@),
            failure: "Failed to run buf "@ + args[0],
            original: "buf "@ + args[0],
            given: "rtk buf "@ + args[0],
            label: "buf"@,
        },
    )
}

/// What `buf` with the given arguments runs.
pub open spec fn planned(args: Seq<Seq<char>>, verbose: u8) -> plan::PlanView {
    let rest = args.skip(1);
    if args[0] == "lint"@ {
        filtered_run(
            "lint"@,
            lint_args(rest),
            verbose,
            plan::FilterView::BufLint,
            "buf_lint"@,
        )
    } else if args[0] == "build"@ {
        filtered_run("build"@, rest, verbose, plan::FilterView::BufBuild, "buf_build"@)
    } else if args[0] == "generate"@ {
        filtered_run("generate"@, rest, verbose, plan::FilterView::BufGenerate, "buf_generate"@)
    } else {
        untouched_run(args, verbose)
    }
}

fn filtered(sub: &str, args: &[String], verbose: u8, filter: Filter, tee: &str) -> (r: Plan)
    ensures
        r@ == filtered_run(sub@, text::texts(args@), verbose, filter@, tee@),
{
    let shown = text::join(args, " ");
    let tool = plan::concat2("buf ", sub);
    let running = plan::concat2("Running: buf ", sub);
    let intro = plan::concat2(running.as_str(), " ");
    Plan::Filtered(
        Filtered {
            program: "buf".to_owned(),
            args: plan::after_word(sub, args),
            announcement: plan::announce(verbose, intro.as_str(), shown.as_str()),
            tool,
            shown_args: shown,
            filter,
            stdout_only: false,
            tee: tee.to_owned(),
        },
    )
}

/// Plans `buf lint`.
pub fn run_lint(args: &[String], verbose: u8) -> (r: Plan)
    ensures
        r@ == filtered_run(
            "lint"@,
            lint_args(text::texts(args@)),
            verbose,
            plan::FilterView::BufLint,
            "buf_lint"@,
        ),
{
    let injected = inject_lint_format(args);
    filtered("lint", injected.as_slice(), verbose, Filter::BufLint, "buf_lint")
}

/// Plans `buf build`.
pub fn run_build(args: &[String], verbose: u8) -> (r: Plan)
    ensures
        r@ == filtered_run(
            "build"@,
            text::texts(args@),
            verbose,
            plan::FilterView::BufBuild,
            "buf_build"@,
        ),
{
    filtered("build", args, verbose, Filter::BufBuild, "buf_build")
}

/// Plans `buf generate`.
pub fn run_generate(args: &[String], verbose: u8) -> (r: Plan)
    ensures
        r@ == filtered_run(
            "generate"@,
            text::texts(args@),
            verbose,
            plan::FilterView::BufGenerate,
            "buf_generate"@,
        ),
{
    filtered("generate", args, verbose, Filter::BufGenerate, "buf_generate")
}

/// Plans a subcommand that is not filtered (format, breaking, mod, push and the
/// like).
pub fn run_other(args: &[String], verbose: u8) -> (r: Plan)
    requires
        args@.len() > 0,
    ensures
        r@ == untouched_run(text::texts(args@), verbose),
{
    let sub = args[0].as_str();
    let running = plan::concat2("Running: buf ", sub);
    let ghost all = text::texts(args@);
    assert(all[0] == sub@);
    Plan::Passthrough(
        Passthrough {
            program: "buf".to_owned(),
            args: text::copy_all(args),
            announcement: plan::announce(verbose, running.as_str(), " ..."),
            failure: plan::concat2("Failed to run buf ", sub),
            original: plan::concat2("buf ", sub),
            given: plan::concat2("rtk buf ", sub),
            label: "buf".to_owned(),
        },
    )
}

/// Plans what `buf` with the given arguments runs. Without a subcommand there is
/// nothing to run.
pub fn run(args: &[String], verbose: u8) -> (r: Result<Plan, PlanError>)
    ensures
        match r {
            Ok(p) => args@.len() > 0 && p@ == planned(text::texts(args@), verbose),
            Err(e) => args@.len() == 0 && e == PlanError::BufSubcommandMissing,
        },
{
    if args.len() == 0 {
        return Err(PlanError::BufSubcommandMissing);
    }
    let sub = args[0].as_str();
    let rest = vstd::slice::slice_subrange(args, 1, args.len());
    proof {
        assert(text::texts(args@)[0] == sub@);
        assert(text::texts(rest@) =~= text::texts(args@).skip(1));
    }
    if text::same_text(sub, "lint") {
        Ok(run_lint(rest, verbose))
    } else if text::same_text(sub, "build") {
        Ok(run_build(rest, verbose))
    } else if text::same_text(sub, "generate") {
        Ok(run_generate(rest, verbose))
    } else {
        Ok(run_other(args, verbose))
    }
}

/// The given arguments are handed on, in their order and at the end. Adding the
/// lint format to arguments that already went through it changes nothing.
pub proof fn lint_format_is_added_once(args: Seq<Seq<char>>)
    ensures
        args.is_suffix_of(lint_args(args)),
        lint_args(lint_args(args)) == lint_args(args),
{
    let once = lint_args(args);
    assert(once.subrange(once.len() - args.len(), once.len() as int) =~= args);
    if !(exists|i: int| 0 <= i < args.len() && sets_format(#[trigger] args[i])) {
        reveal_strlit("--error-format=");
        reveal_strlit("--error-format=json");
        assert("--error-format="@ =~= "--error-format=json"@.subrange(0, 15));
        assert(sets_format(once[0]));
    }
}

// ---------------------------------------------------------------------------
// buf build
// ---------------------------------------------------------------------------

/// Whether a line only tells of progress.
pub open spec fn is_progress(l: Seq<char>) -> bool {
    "INFO\t"@.is_prefix_of(l) || l == "ok"@ || "buf: downloading "@.is_prefix_of(l)
}

/// Whether a line only tells of progress.
pub fn is_buf_progress_line(line: &str) -> (r: bool)
    ensures
        r == is_progress(line@),
{
    text::starts_with(line, "INFO\t") || text::same_text(line, "ok") || text::starts_with(
        line,
        "buf: downloading ",
    )
}

/// The lines of an output that say something: trimmed, neither blank nor mere
/// progress.
pub open spec fn telling_lines(input: Seq<char>) -> Seq<Seq<char>> {
    lines::content_lines_of(input).filter(|l: Seq<char>| !is_progress(l))
}

fn collect_telling_lines(input: &str) -> (r: Vec<String>)
    ensures
        text::texts(r@) == telling_lines(input@),
{
    let all = lines::content_lines(input);
    let mut out: Vec<String> = Vec::new();
    let ghost ls = text::texts(all@);
    let ghost p = |l: Seq<char>| !is_progress(l);
    proof {
        seqs::lemma_filter_none(ls, p);
    }
    for i in 0..all.len()
        invariant
            ls == text::texts(all@),
            p == (|l: Seq<char>| !is_progress(l)),
            text::texts(out@) == ls.take(i as int).filter(p),
    {
        let ghost done = text::texts(out@);
        proof {
            seqs::lemma_filter_step(ls, p, i as int);
        }
        if !is_buf_progress_line(all[i].as_str()) {
            let l = all[i].clone();
            out.push(l);
            assert(text::texts(out@) =~= done.push(l@));
        }
    }
    proof {
        seqs::lemma_take_all(ls);
    }
    out
}

/// A line cut to the width of a report, with its line feed.
pub open spec fn cut_line(l: Seq<char>) -> Seq<char> {
    text::truncated(l, MAX_LINE_WIDTH as nat) + "\n"@
}

fn push_cut_line(out: &mut String, line: &str)
    ensures
        final(out)@ == old(out)@ + cut_line(line@),
{
    let ghost before = out@;
    let t = text::truncate(line, MAX_LINE_WIDTH);
    out.append(t.as_str());
    out.append("\n");
    assert(out@ =~= before + (t@ + "\n"@));
}

/// The heading of the report of a build with so many errors.
pub open spec fn build_head(errors: nat) -> Seq<char> {
    "buf build: "@ + text::decimal(errors) + " errors\n"@ + report::rule_line()
}

/// The report of a build with the given errors.
pub open spec fn build_report(errors: Seq<Seq<char>>) -> Seq<char> {
    if errors.len() == 0 {
        "buf build: ok"@
    } else {
        text::trimmed(build_head(errors.len()) + errors.flat_map(|e: Seq<char>| cut_line(e)))
    }
}

/// Filters the output of `buf build`: every line that is not progress is an
/// error.
pub fn filter_buf_build(input: &str) -> (r: String)
    ensures
        r@ == build_report(telling_lines(input@)),
{
    let errors = collect_telling_lines(input);
    if errors.len() == 0 {
        return "buf build: ok".to_owned();
    }
    let ghost es = text::texts(errors@);
    let ghost f = |e: Seq<char>| cut_line(e);
    let mut out = "buf build: ".to_owned();
    text::push_count(&mut out, errors.len());
    out.append(" errors\n");
    report::push_rule_line(&mut out);
    let ghost head = out@;
    proof {
        seqs::lemma_rows_none(es, f);
        assert(out@ =~= head + es.take(0).flat_map(f));
    }
    for i in 0..errors.len()
        invariant
            es == text::texts(errors@),
            f == (|e: Seq<char>| cut_line(e)),
            out@ == head + es.take(i as int).flat_map(f),
    {
        push_cut_line(&mut out, errors[i].as_str());
        proof {
            seqs::lemma_rows_step(es, f, i as int);
            assert(out@ =~= head + es.take(i + 1).flat_map(f));
        }
    }
    proof {
        seqs::lemma_take_all(es);
    }
    text::trim(out.as_str())
}

/// A build report shows every line that is not mere progress, up to the width of
/// a report.
pub proof fn build_errors_are_shown(input: Seq<char>, i: int)
    requires
        0 <= i < telling_lines(input).len(),
    ensures
        text::has_text(
            build_report(telling_lines(input)),
            text::truncated(telling_lines(input)[i], MAX_LINE_WIDTH as nat),
        ),
{
    let errors = telling_lines(input);
    let f = |e: Seq<char>| cut_line(e);
    let head = build_head(errors.len());
    let t = text::truncated(errors[i], MAX_LINE_WIDTH as nat);
    lemma_telling_line(input, i);
    text::lemma_truncated_end(errors[i], MAX_LINE_WIDTH as nat);
    text::lemma_middle_part(Seq::empty(), t, "\n"@);
    assert(Seq::<char>::empty() + t + "\n"@ =~= cut_line(errors[i]));
    report::lemma_row_is_shown(head, errors, f, Seq::empty(), i, t);
    let whole = head + errors.flat_map(f);
    assert(whole + Seq::<char>::empty() =~= whole);
    reveal_strlit("buf build: ");
    assert(whole[0] == 'b');
    text::lemma_trimmed_at_end(whole);
}

/// A line that is not mere progress is not empty and does not end with white
/// space.
proof fn lemma_telling_line(input: Seq<char>, i: int)
    requires
        0 <= i < telling_lines(input).len(),
    ensures
        telling_lines(input)[i].len() > 0,
        !text::is_white(telling_lines(input)[i].last()),
{
    let all = lines::content_lines_of(input);
    let p = |l: Seq<char>| !is_progress(l);
    let any = |c: char| true;
    let l = telling_lines(input)[i];
    lines::lemma_content_chars(input, any);
    assert(all.filter(p).contains(l));
    all.lemma_filter_contains_rev(p, l);
    assert(all[all.index_of(l)] == l);
}

/// Blank lines and lines of mere progress, put in anywhere among the lines of an
/// output, make no difference to the lines that say something, and so to the report
/// of a build or of a generate run.
pub proof fn progress_makes_no_difference(plain: Seq<char>, noise: Seq<char>, noisy: Seq<char>)
    requires
        lines::lines_inserted(plain, noise, noisy),
        forall|i: int|
            0 <= i < lines::content_lines_of(noise).len() ==> is_progress(
                #[trigger] lines::content_lines_of(noise)[i],
            ),
    ensures
        telling_lines(noisy) == telling_lines(plain),
        build_report(telling_lines(noisy)) == build_report(telling_lines(plain)),
        generate_report(generate_lines(noisy)) == generate_report(generate_lines(plain)),
{
    let (before, after) = lines::lemma_content_inserted(plain, noise, noisy);
    seqs::lemma_filter_drops(
        before,
        lines::content_lines_of(noise),
        after,
        |l: Seq<char>| !is_progress(l),
    );
}

// ---------------------------------------------------------------------------
// buf generate
// ---------------------------------------------------------------------------

/// The plugin name that remains of what follows an invocation's prefix.
pub open spec fn invoked_name(rest: Seq<char>) -> Seq<char> {
    text::trimmed(text::drop_trailing(rest, text::equals('.')))
}

/// The plugin that a line `Generating <plugin>...` or `Running plugin
/// <plugin>...` names.
pub open spec fn invocation(l: Seq<char>) -> Option<Seq<char>> {
    let generating = text::after_prefix(l, "Generating "@);
    let running = text::after_prefix(l, "Running plugin "@);
    if generating is Some && invoked_name(generating->0).len() > 0 {
        Some(invoked_name(generating->0))
    } else if running is Some && invoked_name(running->0).len() > 0 {
        Some(invoked_name(running->0))
    } else {
        None
    }
}

fn invoked_plugin(line: &str, prefix: &str) -> (r: Option<String>)
    ensures
        text::opt_text(r) == match text::after_prefix(line@, prefix@) {
            Some(rest) => if invoked_name(rest).len() > 0 {
                Some(invoked_name(rest))
            } else {
                None
            },
            None => None,
        },
{
    match text::without_prefix(line, prefix) {
        Some(rest) => {
            let bare = text::trim_end_matches(rest.as_str(), '.');
            let name = text::trim(bare.as_str());
            if !name.as_str().is_empty() {
                Some(name)
            } else {
                None
            }
        },
        None => None,
    }
}

/// The plugin that a line announces the invocation of.
pub fn parse_plugin_invocation(line: &str) -> (r: Option<String>)
    ensures
        text::opt_text(r) == invocation(line@),
{
    match invoked_plugin(line, "Generating ") {
        Some(name) => Some(name),
        None => invoked_plugin(line, "Running plugin "),
    }
}

/// The name in what follows `✗ `: it ends at the first colon.
pub open spec fn crossed_name(rest: Seq<char>) -> Seq<char> {
    match text::cut_at(rest, ':') {
        Some((name, _)) => text::trimmed(name),
        None => text::trimmed(rest),
    }
}

/// The name in what follows `Failure: plugin `, where a colon ends it.
pub open spec fn failing_name(rest: Seq<char>) -> Option<Seq<char>> {
    match text::cut_at(rest, ':') {
        Some((name, _)) => Some(text::trimmed(name)),
        None => None,
    }
}

/// The name in what follows `plugin `, where a space and `failed` end it.
pub open spec fn failed_name(rest: Seq<char>) -> Option<Seq<char>> {
    match text::cut_at(rest, ' ') {
        Some((name, tail)) => if "failed"@.is_prefix_of(tail) {
            Some(text::trimmed(name))
        } else {
            None
        },
        None => None,
    }
}

/// The plugin that a line marks as failed: `✗ <name>: ...`, `✗ <name>`,
/// `Failure: plugin <name>: ...` or `plugin <name> failed...`.
pub open spec fn failure_marker(l: Seq<char>) -> Option<Seq<char>> {
    let crossed = text::after_prefix(l, "✗ "@);
    let failure = text::after_prefix(l, "Failure: plugin "@);
    let plugin = text::after_prefix(l, "plugin "@);
    if crossed is Some {
        Some(crossed_name(crossed->0))
    } else if failure is Some && failing_name(failure->0) is Some {
        failing_name(failure->0)
    } else if plugin is Some {
        failed_name(plugin->0)
    } else {
        None
    }
}

/// The plugin that a line marks as failed.
pub fn parse_plugin_failure_marker(line: &str) -> (r: Option<String>)
    ensures
        text::opt_text(r) == failure_marker(line@),
{
    if let Some(rest) = text::without_prefix(line, "✗ ") {
        if let Some((name, _)) = text::split_once(rest.as_str(), ':') {
            return Some(text::trim(name.as_str()));
        }
        return Some(text::trim(rest.as_str()));
    }
    if let Some(rest) = text::without_prefix(line, "Failure: plugin ") {
        if let Some((name, _)) = text::split_once(rest.as_str(), ':') {
            return Some(text::trim(name.as_str()));
        }
    }
    if let Some(rest) = text::without_prefix(line, "plugin ") {
        if let Some((name, tail)) = text::split_once(rest.as_str(), ' ') {
            if text::starts_with(tail.as_str(), "failed") {
                return Some(text::trim(name.as_str()));
            }
        }
    }
    None
}

/// What follows the first colon, without the white space around it; nothing where
/// there is no colon.
pub open spec fn after_colon(rest: Seq<char>) -> Seq<char> {
    match text::cut_at(rest, ':') {
        Some((_, said)) => text::trimmed(said),
        None => Seq::empty(),
    }
}

/// What follows `failed`, or `failed` and a colon, without the white space around
/// it.
pub open spec fn after_failed(tail: Seq<char>) -> Seq<char> {
    match text::after_prefix(tail, "failed"@) {
        Some(said) => match text::after_prefix(text::trimmed(said), ":"@) {
            Some(told) => text::trimmed(told),
            None => text::trimmed(said),
        },
        None => Seq::empty(),
    }
}

/// What a line that marks a plugin as failed says of it: the text after the name
/// and its colon, or after `failed`. Nothing where the line ends there.
pub open spec fn marker_text(l: Seq<char>) -> Seq<char> {
    let crossed = text::after_prefix(l, "✗ "@);
    let failure = text::after_prefix(l, "Failure: plugin "@);
    let plugin = text::after_prefix(l, "plugin "@);
    if crossed is Some {
        after_colon(crossed->0)
    } else if failure is Some && failing_name(failure->0) is Some {
        after_colon(failure->0)
    } else if plugin is Some {
        match text::cut_at(plugin->0, ' ') {
            Some((_, tail)) => after_failed(tail),
            None => Seq::empty(),
        }
    } else {
        Seq::empty()
    }
}

fn text_after_colon(rest: &str) -> (r: String)
    ensures
        r@ == after_colon(rest@),
{
    match text::split_once(rest, ':') {
        Some((_, said)) => text::trim(said.as_str()),
        None => String::new(),
    }
}

fn text_after_failed(tail: &str) -> (r: String)
    ensures
        r@ == after_failed(tail@),
{
    match text::without_prefix(tail, "failed") {
        Some(said) => {
            let bare = text::trim(said.as_str());
            match text::without_prefix(bare.as_str(), ":") {
                Some(told) => text::trim(told.as_str()),
                None => bare,
            }
        },
        None => String::new(),
    }
}

/// What a line that marks a plugin as failed says of it.
pub fn parse_plugin_failure_text(line: &str) -> (r: String)
    ensures
        r@ == marker_text(line@),
{
    if let Some(rest) = text::without_prefix(line, "✗ ") {
        return text_after_colon(rest.as_str());
    }
    if let Some(rest) = text::without_prefix(line, "Failure: plugin ") {
        if text::split_once(rest.as_str(), ':').is_some() {
            return text_after_colon(rest.as_str());
        }
    }
    if let Some(rest) = text::without_prefix(line, "plugin ") {
        if let Some((_, tail)) = text::split_once(rest.as_str(), ' ') {
            return text_after_failed(tail.as_str());
        }
    }
    String::new()
}

/// Whether a line, of which `lower` is the lowercase, tells of an error.
pub open spec fn is_error(l: Seq<char>, lower: Seq<char>) -> bool {
    ||| "error:"@.is_prefix_of(lower)
    ||| text::has_text(lower, " error:"@)
    ||| "failure:"@.is_prefix_of(lower)
    ||| text::has_text(lower, "failed"@)
    ||| text::has_text(lower, "exit status"@)
    ||| text::has_text(lower, "could not"@)
    ||| text::has_text(lower, "cannot "@)
    ||| text::has_text(l, ".proto:"@)
}

/// Whether a line tells of an error, given its lowercase.
pub fn tells_of_error(line: &str, lower: &str) -> (r: bool)
    ensures
        r == is_error(line@, lower@),
{
    text::starts_with(lower, "error:") || text::contains(lower, " error:") || text::starts_with(
        lower,
        "failure:",
    ) || text::contains(lower, "failed") || text::contains(lower, "exit status") || text::contains(
        lower,
        "could not",
    ) || text::contains(lower, "cannot ") || text::contains(line, ".proto:")
}

/// Whether a line tells of an error.
pub fn is_buf_error_line(line: &str) -> (r: bool)
    ensures
        r == is_error(line@, text::lowered(line@)),
{
    let lower = line.to_lowercase();
    tells_of_error(line, lower.as_str())
}

/// What a line of a generate run is about.
pub enum GenerateLine {
    /// A plugin is invoked.
    Invocation,
    /// The named plugin failed, and what the line says of it.
    Failure { name: String, said: String },
    /// An error.
    Error(String),
    /// Anything else.
    Context(String),
}

/// What a line of a generate run is about, as texts.
pub enum GenerateView {
    Invocation,
    Failure { name: Seq<char>, said: Seq<char> },
    Error(Seq<char>),
    Context(Seq<char>),
}

impl View for GenerateLine {
    type V = GenerateView;

    open spec fn view(&self) -> GenerateView {
        match self {
            GenerateLine::Invocation => GenerateView::Invocation,
            GenerateLine::Failure { name, said } => GenerateView::Failure {
                name: name@,
                said: said@,
            },
            GenerateLine::Error(l) => GenerateView::Error(l@),
            GenerateLine::Context(l) => GenerateView::Context(l@),
        }
    }
}

/// What a line, of which `lower` is the lowercase, is about.
pub open spec fn classified(l: Seq<char>, lower: Seq<char>) -> GenerateView {
    if invocation(l) is Some {
        GenerateView::Invocation
    } else if failure_marker(l) is Some {
        GenerateView::Failure { name: failure_marker(l)->0, said: marker_text(l) }
    } else if is_error(l, lower) {
        GenerateView::Error(l)
    } else {
        GenerateView::Context(l)
    }
}

/// Classifies a line of a generate run, given its lowercase.
pub fn classify_generate_line(line: &str, lower: &str) -> (r: GenerateLine)
    ensures
        r@ == classified(line@, lower@),
{
    if parse_plugin_invocation(line).is_some() {
        return GenerateLine::Invocation;
    }
    if let Some(name) = parse_plugin_failure_marker(line) {
        return GenerateLine::Failure { name, said: parse_plugin_failure_text(line) };
    }
    if tells_of_error(line, lower) {
        GenerateLine::Error(line.to_owned())
    } else {
        GenerateLine::Context(line.to_owned())
    }
}

/// How many plugins were invoked.
pub open spec fn invocations(ls: Seq<GenerateView>) -> nat {
    ls.filter(|l: GenerateView| l is Invocation).len()
}

/// Whether the lines end within the output of a failed plugin: a failure came
/// after the last invocation.
pub open spec fn in_failure(ls: Seq<GenerateView>) -> bool
    decreases ls.len(),
{
    if ls.len() == 0 {
        false
    } else {
        match ls.last() {
            GenerateView::Invocation => false,
            GenerateView::Failure { .. } => true,
            _ => in_failure(ls.drop_last()),
        }
    }
}

/// A failed plugin: its name, what its marker says, and the lines that follow the
/// marker, up to the next marker or invocation.
pub struct FailedView {
    pub name: Seq<char>,
    pub said: Seq<char>,
    pub lines: Seq<Seq<char>>,
}

/// One more line for the last failed plugin.
pub open spec fn extended(fs: Seq<FailedView>, l: Seq<char>) -> Seq<FailedView> {
    fs.drop_last().push(
        FailedView {
            name: fs.last().name,
            said: fs.last().said,
            lines: fs.last().lines.push(l),
        },
    )
}

/// The failed plugins.
pub open spec fn failures(ls: Seq<GenerateView>) -> Seq<FailedView>
    decreases ls.len(),
{
    if ls.len() == 0 {
        Seq::empty()
    } else {
        let before = ls.drop_last();
        match ls.last() {
            GenerateView::Invocation => failures(before),
            GenerateView::Failure { name, said } => failures(before).push(
                FailedView { name, said, lines: Seq::empty() },
            ),
            GenerateView::Error(l) | GenerateView::Context(l) => if in_failure(before) {
                extended(failures(before), l)
            } else {
                failures(before)
            },
        }
    }
}

/// The errors that belong to no failed plugin.
pub open spec fn bare_errors(ls: Seq<GenerateView>) -> Seq<Seq<char>>
    decreases ls.len(),
{
    if ls.len() == 0 {
        Seq::empty()
    } else {
        let before = ls.drop_last();
        match ls.last() {
            GenerateView::Error(l) => if in_failure(before) {
                bare_errors(before)
            } else {
                bare_errors(before).push(l)
            },
            _ => bare_errors(before),
        }
    }
}

/// The first of the lines that is not empty.
pub open spec fn detail(ls: Seq<Seq<char>>) -> Seq<char>
    decreases ls.len(),
{
    if ls.len() == 0 {
        "(no detail)"@
    } else if ls[0].len() > 0 {
        ls[0]
    } else {
        detail(ls.skip(1))
    }
}

/// What a failed plugin is reported with: what its marker says, or else the first
/// line after it that is not empty.
pub open spec fn headline(f: FailedView) -> Seq<char> {
    if f.said.len() > 0 {
        f.said
    } else {
        detail(f.lines)
    }
}

/// The lines that are shown under a failed plugin: of the first three after its
/// marker those that the headline does not stand for.
pub open spec fn lines_below(f: FailedView) -> Seq<Seq<char>> {
    let head = seqs::first(f.lines, 3);
    if f.said.len() > 0 || head.len() == 0 {
        head
    } else {
        head.skip(1)
    }
}

/// The row of a failed plugin.
pub open spec fn failed_row(f: FailedView) -> Seq<char> {
    cut_line("  ✗ "@ + f.name + ": "@ + headline(f))
}

/// The row of a line under a failed plugin.
pub open spec fn row_below(l: Seq<char>) -> Seq<char> {
    cut_line("    "@ + l)
}

/// The part of the report on one failed plugin: its name with the headline, then the
/// lines below it.
pub open spec fn failure_rows(f: FailedView) -> Seq<char> {
    failed_row(f) + lines_below(f).flat_map(|l: Seq<char>| row_below(l))
}

/// The heading of the report of a failed run, in which so many plugins were invoked
/// and so many were marked as failed. The run counts more plugins than failed ones,
/// and at least one failed.
pub open spec fn generate_head(plugins: nat, failed: nat) -> Seq<char> {
    let invoked = if plugins > failed {
        plugins
    } else {
        failed + 1
    };
    let shown = if failed == 0 {
        1
    } else {
        failed
    };
    "buf generate: "@ + text::decimal(invoked) + " plugins, "@ + text::decimal(shown)
        + " failed\n"@
}

/// The report of a generate run.
pub open spec fn generate_report(ls: Seq<GenerateView>) -> Seq<char> {
    let plugins = invocations(ls);
    let failed = failures(ls);
    let bare = bare_errors(ls);
    if failed.len() == 0 && bare.len() == 0 {
        if plugins > 0 {
            "buf generate: ok ("@ + text::decimal(plugins) + " plugins)"@
        } else {
            "buf generate: ok"@
        }
    } else {
        let body = if failed.len() == 0 {
            seqs::first(bare, 3).flat_map(|e: Seq<char>| cut_line("  ✗ "@ + e))
        } else {
            failed.flat_map(|f: FailedView| failure_rows(f))
        };
        text::trimmed(generate_head(plugins, failed.len()) + body)
    }
}

/// What the lines of a generate run are about.
pub open spec fn generate_lines(input: Seq<char>) -> Seq<GenerateView> {
    telling_lines(input).map_values(|l: Seq<char>| classified(l, text::lowered(l)))
}

/// A failed plugin: its name, what its marker says, and the lines that follow.
pub struct FailedPlugin {
    pub name: String,
    pub said: String,
    pub lines: Vec<String>,
}

impl View for FailedPlugin {
    type V = FailedView;

    open spec fn view(&self) -> FailedView {
        FailedView { name: self.name@, said: self.said@, lines: text::texts(self.lines@) }
    }
}

/// The failed plugins that were closed, and then the one still open.
spec fn gathered(closed: Seq<FailedPlugin>, open: Option<FailedPlugin>) -> Seq<FailedView> {
    let done = closed.map_values(|f: FailedPlugin| f@);
    match open {
        Some(f) => done.push(f@),
        None => done,
    }
}

/// What a walk over the lines of a generate run has gathered.
struct Gathered {
    plugins: usize,
    failed: Vec<FailedPlugin>,
    bare: Vec<String>,
}

fn gather(kinds: &Vec<GenerateLine>) -> (r: Gathered)
    ensures
        r.plugins == invocations(kinds@.map_values(|k: GenerateLine| k@)),
        r.failed@.map_values(|f: FailedPlugin| f@) == failures(
            kinds@.map_values(|k: GenerateLine| k@),
        ),
        text::texts(r.bare@) == bare_errors(kinds@.map_values(|k: GenerateLine| k@)),
{
    let mut plugins: usize = 0;
    let mut failed: Vec<FailedPlugin> = Vec::new();
    let mut open: Option<FailedPlugin> = None;
    let mut bare: Vec<String> = Vec::new();
    let ghost ks = kinds@.map_values(|k: GenerateLine| k@);
    let ghost inv = |l: GenerateView| l is Invocation;
    proof {
        seqs::lemma_filter_none(ks, inv);
        assert(gathered(failed@, open) =~= failures(ks.take(0)));
        assert(text::texts(bare@) =~= bare_errors(ks.take(0)));
    }
    for i in 0..kinds.len()
        invariant
            ks == kinds@.map_values(|k: GenerateLine| k@),
            inv == (|l: GenerateView| l is Invocation),
            plugins == ks.take(i as int).filter(inv).len(),
            plugins <= i,
            gathered(failed@, open) == failures(ks.take(i as int)),
            open is Some <==> in_failure(ks.take(i as int)),
            text::texts(bare@) == bare_errors(ks.take(i as int)),
    {
        let ghost before = gathered(failed@, open);
        let ghost errors = text::texts(bare@);
        proof {
            seqs::lemma_filter_step(ks, inv, i as int);
            assert(ks.take(i + 1).drop_last() =~= ks.take(i as int));
            assert(ks.take(i + 1).last() == kinds@[i as int]@);
        }
        match &kinds[i] {
            GenerateLine::Invocation => {
                if let Some(f) = open {
                    failed.push(f);
                }
                open = None;
                plugins += 1;
                assert(gathered(failed@, open) =~= before);
            },
            GenerateLine::Failure { name, said } => {
                if let Some(f) = open {
                    failed.push(f);
                }
                assert(gathered(failed@, None) =~= before);
                let fresh = FailedPlugin {
                    name: name.clone(),
                    said: said.clone(),
                    lines: Vec::new(),
                };
                open = Some(fresh);
                proof {
                    assert(text::texts(fresh.lines@) =~= Seq::empty());
                    assert(gathered(failed@, open) =~= before.push(
                        FailedView { name: name@, said: said@, lines: Seq::empty() },
                    ));
                }
            },
            GenerateLine::Error(l) => {
                match open {
                    Some(mut f) => {
                        let ghost held = f@;
                        f.lines.push(l.clone());
                        open = Some(f);
                        proof {
                            assert(f@.lines =~= held.lines.push(l@));
                            assert(gathered(failed@, open) =~= extended(before, l@));
                        }
                    },
                    None => {
                        bare.push(l.clone());
                        open = None;
                        assert(text::texts(bare@) =~= errors.push(l@));
                    },
                }
            },
            GenerateLine::Context(l) => {
                match open {
                    Some(mut f) => {
                        let ghost held = f@;
                        f.lines.push(l.clone());
                        open = Some(f);
                        proof {
                            assert(f@.lines =~= held.lines.push(l@));
                            assert(gathered(failed@, open) =~= extended(before, l@));
                        }
                    },
                    None => {
                        open = None;
                    },
                }
            },
        }
    }
    proof {
        seqs::lemma_take_all(ks);
    }
    let ghost before = gathered(failed@, open);
    if let Some(f) = open {
        failed.push(f);
    }
    assert(failed@.map_values(|f: FailedPlugin| f@) =~= before);
    Gathered { plugins, failed, bare }
}

fn push_failure_rows(out: &mut String, f: &FailedPlugin)
    ensures
        final(out)@ == old(out)@ + failure_rows(f@),
{
    let ghost ls = f@.lines;
    let ghost start = out@;
    let n: usize = f.lines.len();
    let mut k: usize = 0;
    assert(ls.skip(0) =~= ls);
    while k < n && f.lines[k].as_str().is_empty()
        invariant
            n == f.lines@.len(),
            k <= n,
            ls == text::texts(f.lines@),
            detail(ls) == detail(ls.skip(k as int)),
        decreases n - k,
    {
        assert(ls.skip(k as int).skip(1) =~= ls.skip(k + 1));
        k += 1;
    }
    let told = !f.said.as_str().is_empty();
    let mut row = "  ✗ ".to_owned();
    row.append(f.name.as_str());
    row.append(": ");
    if told {
        row.append(f.said.as_str());
    } else if k < n {
        row.append(f.lines[k].as_str());
    } else {
        row.append("(no detail)");
    }
    assert(row@ == "  ✗ "@ + f.name@ + ": "@ + headline(f@));
    push_cut_line(out, row.as_str());
    let ghost head = out@;
    let ghost kept = lines_below(f@);
    let ghost g = |l: Seq<char>| row_below(l);
    let from: usize = if told || n == 0 {
        0
    } else {
        1
    };
    let stop: usize = if n > 3 {
        3
    } else {
        n
    };
    let more: usize = stop - from;
    assert(kept.len() == more);
    proof {
        seqs::lemma_rows_none(kept, g);
        assert(out@ =~= head + kept.take(0).flat_map(g));
    }
    for i in 0..more
        invariant
            n == f.lines@.len(),
            ls == text::texts(f.lines@),
            from + more == stop,
            stop <= n,
            kept.len() == more,
            forall|j: int| 0 <= j < more ==> #[trigger] kept[j] == ls[from + j],
            g == (|l: Seq<char>| row_below(l)),
            out@ == head + kept.take(i as int).flat_map(g),
    {
        let l = plan::concat2("    ", f.lines[from + i].as_str());
        push_cut_line(out, l.as_str());
        proof {
            assert(kept[i as int] == f.lines@[from + i]@);
            seqs::lemma_rows_step(kept, g, i as int);
            assert(out@ =~= head + kept.take(i + 1).flat_map(g));
        }
    }
    proof {
        seqs::lemma_take_all(kept);
        assert(out@ =~= start + failure_rows(f@));
    }
}

/// Reports a generate run, given what its lines are about.
pub fn summarize_generate(kinds: &Vec<GenerateLine>) -> (r: String)
    ensures
        r@ == generate_report(kinds@.map_values(|k: GenerateLine| k@)),
{
    let g = gather(kinds);
    let ghost ks = kinds@.map_values(|k: GenerateLine| k@);
    let ghost failed = failures(ks);
    let ghost bare = bare_errors(ks);
    assert(failed.len() == g.failed@.len());
    assert(bare.len() == g.bare@.len());
    if g.failed.len() == 0 && g.bare.len() == 0 {
        if g.plugins > 0 {
            let mut out = "buf generate: ok (".to_owned();
            text::push_count(&mut out, g.plugins);
            out.append(" plugins)");
            return out;
        }
        return "buf generate: ok".to_owned();
    }
    let invoked: u128 = if g.plugins > g.failed.len() {
        g.plugins as u128
    } else {
        g.failed.len() as u128 + 1
    };
    let shown: u128 = if g.failed.len() == 0 {
        1
    } else {
        g.failed.len() as u128
    };
    let mut out = "buf generate: ".to_owned();
    text::push_decimal(&mut out, invoked);
    out.append(" plugins, ");
    text::push_decimal(&mut out, shown);
    out.append(" failed\n");
    let ghost head = out@;
    if g.failed.len() == 0 {
        let ghost kept = seqs::first(bare, 3);
        let ghost f = |e: Seq<char>| cut_line("  ✗ "@ + e);
        let stop: usize = if g.bare.len() > 3 {
            3
        } else {
            g.bare.len()
        };
        proof {
            seqs::lemma_rows_none(kept, f);
            assert(out@ =~= head + kept.take(0).flat_map(f));
        }
        for i in 0..stop
            invariant
                bare == text::texts(g.bare@),
                kept == seqs::first(bare, 3),
                stop == if g.bare@.len() > 3 { 3 } else { g.bare@.len() },
                f == (|e: Seq<char>| cut_line("  ✗ "@ + e)),
                out@ == head + kept.take(i as int).flat_map(f),
        {
            let l = plan::concat2("  ✗ ", g.bare[i].as_str());
            push_cut_line(&mut out, l.as_str());
            proof {
                assert(kept[i as int] == g.bare@[i as int]@);
                seqs::lemma_rows_step(kept, f, i as int);
                assert(out@ =~= head + kept.take(i + 1).flat_map(f));
            }
        }
        proof {
            seqs::lemma_take_all(kept);
        }
    } else {
        let ghost f = |f: FailedView| failure_rows(f);
        proof {
            seqs::lemma_rows_none(failed, f);
            assert(out@ =~= head + failed.take(0).flat_map(f));
        }
        for i in 0..g.failed.len()
            invariant
                failed == g.failed@.map_values(|f: FailedPlugin| f@),
                f == (|f: FailedView| failure_rows(f)),
                out@ == head + failed.take(i as int).flat_map(f),
        {
            push_failure_rows(&mut out, &g.failed[i]);
            proof {
                assert(failed[i as int] == g.failed@[i as int]@);
                seqs::lemma_rows_step(failed, f, i as int);
                assert(out@ =~= head + failed.take(i + 1).flat_map(f));
            }
        }
        proof {
            seqs::lemma_take_all(failed);
        }
    }
    text::trim(out.as_str())
}

/// Filters the output of `buf generate`: a count of plugins where all went well,
/// else the failed plugins with what they said.
pub fn filter_buf_generate(input: &str) -> (r: String)
    ensures
        r@ == generate_report(generate_lines(input@)),
{
    let telling = collect_telling_lines(input);
    let mut kinds: Vec<GenerateLine> = Vec::new();
    let ghost ls = text::texts(telling@);
    let ghost all = generate_lines(input@);
    for i in 0..telling.len()
        invariant
            ls == text::texts(telling@),
            ls == telling_lines(input@),
            all == generate_lines(input@),
            kinds@.map_values(|k: GenerateLine| k@) == all.take(i as int),
    {
        let ghost done = kinds@.map_values(|k: GenerateLine| k@);
        let line = telling[i].as_str();
        let lower = line.to_lowercase();
        let k = classify_generate_line(line, lower.as_str());
        kinds.push(k);
        proof {
            assert(ls[i as int] == line@);
            assert(kinds@.map_values(|k: GenerateLine| k@) =~= done.push(k@));
            assert(all.take(i + 1) =~= all.take(i as int).push(k@));
        }
    }
    proof {
        seqs::lemma_take_all(all);
    }
    summarize_generate(&kinds)
}

/// The plugin that a line marks as failed, if it does, as a mapping.
pub open spec fn marked_name() -> spec_fn(GenerateView) -> Option<Seq<char>> {
    |l: GenerateView|
        match l {
            GenerateView::Failure { name, .. } => Some(name),
            _ => None,
        }
}

/// Each line that marks a plugin as failed gives one failed plugin, in the order
/// of the lines.
pub proof fn marked_plugins_are_reported(ls: Seq<GenerateView>)
    ensures
        failures(ls).map_values(|f: FailedView| f.name) == ls.filter_map(marked_name()),
        in_failure(ls) ==> failures(ls).len() > 0,
    decreases ls.len(),
{
    let g = marked_name();
    let h = |f: FailedView| f.name;
    if ls.len() == 0 {
        assert(failures(ls).map_values(h) =~= ls.filter_map(g));
    } else {
        let k = ls.len() - 1;
        let before = ls.drop_last();
        marked_plugins_are_reported(before);
        ls.lemma_filter_map_take_succ(g, k);
        assert(ls.take(k) =~= before);
        assert(ls.take(k + 1) =~= ls);
        let names = before.filter_map(g);
        assert(names + Seq::<Seq<char>>::empty() =~= names);
        match ls.last() {
            GenerateView::Failure { name, .. } => {
                assert(failures(ls).map_values(h) =~= names.push(name));
                assert(names + seq![name] =~= names.push(name));
            },
            _ => {
                assert(failures(ls).map_values(h) =~= names);
            },
        }
    }
}

/// A generate run is reported as a success exactly where no line marks a failed
/// plugin and no line tells of an error.
pub proof fn success_means_no_trouble(ls: Seq<GenerateView>)
    ensures
        failures(ls).len() == 0 && bare_errors(ls).len() == 0 <==> forall|i: int|
            0 <= i < ls.len() ==> !((#[trigger] ls[i]) is Failure) && !(ls[i] is Error),
    decreases ls.len(),
{
    if ls.len() > 0 {
        let before = ls.drop_last();
        success_means_no_trouble(before);
        marked_plugins_are_reported(before);
        let calm = failures(before).len() == 0 && bare_errors(before).len() == 0;
        if calm {
            assert forall|i: int| 0 <= i < ls.len() - 1 implies !((#[trigger] ls[i]) is Failure)
                && !(ls[i] is Error) by {
                assert(before[i] == ls[i]);
            }
        } else {
            let i = choose|i: int|
                0 <= i < before.len() && ((#[trigger] before[i]) is Failure || before[i] is Error);
            assert(ls[i] == before[i]);
        }
        assert(ls[ls.len() - 1] == ls.last());
    }
}

/// The report of a failed run shows whatever the rows of its failed plugins hold that
/// does not end with white space.
proof fn lemma_failure_is_shown(ls: Seq<GenerateView>, i: int, t: Seq<char>)
    requires
        0 <= i < failures(ls).len(),
        text::has_text(failure_rows(failures(ls)[i]), t),
        t.len() > 0 ==> !text::is_white(t.last()),
    ensures
        text::has_text(generate_report(ls), t),
{
    let failed = failures(ls);
    let g = |f: FailedView| failure_rows(f);
    let head = generate_head(invocations(ls), failed.len());
    report::lemma_row_is_shown(head, failed, g, Seq::empty(), i, t);
    let whole = head + failed.flat_map(g);
    assert(whole + Seq::<char>::empty() =~= whole);
    reveal_strlit("buf generate: ");
    assert(whole[0] == 'b');
    text::lemma_trimmed_at_end(whole);
}

/// The report of a failed run shows each failed plugin with its headline.
pub proof fn failed_plugins_are_shown(ls: Seq<GenerateView>, i: int)
    requires
        0 <= i < failures(ls).len(),
    ensures
        text::has_text(generate_report(ls), text::trimmed_end(failed_row(failures(ls)[i]))),
{
    let f = failures(ls)[i];
    let t = text::trimmed_end(failed_row(f));
    text::lemma_trimmed_part(failed_row(f));
    text::lemma_part_of_sum(
        failed_row(f),
        lines_below(f).flat_map(|l: Seq<char>| row_below(l)),
        t,
    );
    lemma_failure_is_shown(ls, i, t);
}

/// The report of a failed run shows the lines below each failed plugin.
pub proof fn lines_of_failed_plugins_are_shown(ls: Seq<GenerateView>, i: int, j: int)
    requires
        0 <= i < failures(ls).len(),
        0 <= j < lines_below(failures(ls)[i]).len(),
    ensures
        text::has_text(
            generate_report(ls),
            text::trimmed_end(row_below(lines_below(failures(ls)[i])[j])),
        ),
{
    let f = failures(ls)[i];
    let g = |l: Seq<char>| row_below(l);
    let below = lines_below(f);
    let t = text::trimmed_end(row_below(below[j]));
    report::lemma_row_in_block(failed_row(f), below, g, Seq::empty(), j);
    assert(failed_row(f) + below.flat_map(g) + Seq::<char>::empty() =~= failure_rows(f));
    text::lemma_trimmed_part(row_below(below[j]));
    text::lemma_part_of_part(failure_rows(f), row_below(below[j]), t);
    lemma_failure_is_shown(ls, i, t);
}

/// Where a marked plugin stands among the failed ones, with the text of its marker.
proof fn lemma_marker_place(ls: Seq<GenerateView>, i: int) -> (k: int)
    requires
        0 <= i < ls.len(),
        ls[i] is Failure,
    ensures
        0 <= k < failures(ls).len(),
        failures(ls)[k].name == ls[i]->name,
        failures(ls)[k].said == ls[i]->said,
    decreases ls.len(),
{
    let before = ls.drop_last();
    if i == ls.len() - 1 {
        failures(before).len() as int
    } else {
        marked_plugins_are_reported(before);
        lemma_marker_place(before, i)
    }
}

/// What a line says that marks a plugin as failed is shown after the plugin's name.
pub proof fn marker_text_is_shown(ls: Seq<GenerateView>, i: int)
    requires
        0 <= i < ls.len(),
        ls[i] is Failure,
        ls[i]->said.len() > 0,
    ensures
        text::has_text(
            generate_report(ls),
            text::trimmed_end(cut_line("  ✗ "@ + ls[i]->name + ": "@ + ls[i]->said)),
        ),
{
    let k = lemma_marker_place(ls, i);
    failed_plugins_are_shown(ls, k);
}

/// The report of a generate run shows what each failure marker in its output says:
/// the name of the plugin and the text after it, up to the width of a report.
pub proof fn marked_failures_are_shown(input: Seq<char>, i: int)
    requires
        0 <= i < telling_lines(input).len(),
        invocation(telling_lines(input)[i]) is None,
        failure_marker(telling_lines(input)[i]) is Some,
        marker_text(telling_lines(input)[i]).len() > 0,
    ensures
        ({
            let l = telling_lines(input)[i];
            text::has_text(
                generate_report(generate_lines(input)),
                text::trimmed_end(
                    cut_line("  ✗ "@ + failure_marker(l)->0 + ": "@ + marker_text(l)),
                ),
            )
        }),
{
    let l = telling_lines(input)[i];
    assert(generate_lines(input)[i] == classified(l, text::lowered(l)));
    marker_text_is_shown(generate_lines(input), i);
}

// ---------------------------------------------------------------------------
// buf lint
// ---------------------------------------------------------------------------

/// A finding as a line of `buf lint` output holds it; any member may be missing.
pub struct BufLintAnnotation {
    pub path: Option<String>,
    pub start_line: Option<u32>,
    pub start_column: Option<u32>,
    /// The rule that is broken (the member `type`).
    pub rule_type: Option<String>,
    pub message: Option<String>,
}

/// A finding with everything that the report shows.
pub struct LintIssue {
    pub path: String,
    pub line: u32,
    pub col: u32,
    pub rule: String,
    pub message: String,
}

/// A finding, as texts.
pub struct LintView {
    pub path: Seq<char>,
    pub line: u32,
    pub col: u32,
    pub rule: Seq<char>,
    pub message: Seq<char>,
}

impl View for LintIssue {
    type V = LintView;

    open spec fn view(&self) -> LintView {
        LintView {
            path: self.path@,
            line: self.line,
            col: self.col,
            rule: self.rule@,
            message: self.message@,
        }
    }
}

/// A finding with its missing members filled in. A record that could not be
/// decoded, or that names no path, is no finding.
pub open spec fn issue_of(a: Option<BufLintAnnotation>) -> Option<LintView> {
    match a {
        Some(a) => match a.path {
            Some(path) => if path@.len() > 0 {
                Some(
                    LintView {
                        path: path@,
                        line: match a.start_line {
                            Some(n) => n,
                            None => 0,
                        },
                        col: match a.start_column {
                            Some(n) => n,
                            None => 0,
                        },
                        rule: match a.rule_type {
                            Some(t) => t@,
                            None => "UNKNOWN"@,
                        },
                        message: match a.message {
                            Some(m) => m@,
                            None => Seq::empty(),
                        },
                    },
                )
            } else {
                None
            },
            None => None,
        },
        None => None,
    }
}

/// The finding that a decoded record gives, if it does, as a mapping.
pub open spec fn seen_issue() -> spec_fn(Option<BufLintAnnotation>) -> Option<LintView> {
    |a: Option<BufLintAnnotation>| issue_of(a)
}

/// The findings among the decoded records.
pub open spec fn issues_of(records: Seq<Option<BufLintAnnotation>>) -> Seq<LintView> {
    records.filter_map(seen_issue())
}

/// The rules that the findings break, finding by finding.
pub open spec fn rules_of(issues: Seq<LintView>) -> Seq<Seq<char>> {
    issues.map_values(|i: LintView| i.rule)
}

/// The findings under one rule.
pub open spec fn under_rule(issues: Seq<LintView>, rule: Seq<char>) -> Seq<LintView> {
    issues.filter(|i: LintView| i.rule == rule)
}

/// The row of one finding.
pub open spec fn sample_row(i: LintView) -> Seq<char> {
    cut_line(
        "  "@ + i.path + ":"@ + text::decimal(i.line as nat) + ":"@ + text::decimal(i.col as nat)
            + "  "@ + i.message,
    )
}

/// The row of a rule with the given findings: its name, count and first message.
pub open spec fn rule_head(rule: Seq<char>, group: Seq<LintView>) -> Seq<char> {
    rule + " ("@ + text::decimal(group.len()) + "): "@ + group[0].message + "\n"@
}

/// How many findings are left out of so many under one rule.
pub open spec fn rule_ending(findings: nat) -> Seq<char> {
    if findings > MAX_SAMPLES_PER_RULE {
        "  ... +"@ + text::decimal((findings - MAX_SAMPLES_PER_RULE) as nat) + " more\n"@
    } else {
        Seq::empty()
    }
}

/// The rows of one rule: its name, count and first message, then the first few
/// findings.
pub open spec fn rule_rows(issues: Seq<LintView>, rule: Seq<char>) -> Seq<char> {
    let group = under_rule(issues, rule);
    let samples = seqs::first(group, MAX_SAMPLES_PER_RULE as nat).flat_map(
        |i: LintView| sample_row(i),
    );
    rule_head(rule, group) + samples + rule_ending(group.len())
}

/// The heading of the report of so many findings under so many rules.
pub open spec fn lint_head(issues: nat, rules: nat) -> Seq<char> {
    "buf lint: "@ + text::decimal(issues) + " issues across "@ + text::decimal(rules)
        + " rules\n"@ + report::rule_line()
}

/// How many rules are left out of a report on so many.
pub open spec fn lint_ending(rules: nat) -> Seq<char> {
    if rules > MAX_RULES_DISPLAYED {
        "\n... +"@ + text::decimal((rules - MAX_RULES_DISPLAYED) as nat) + " more rules\n"@
    } else {
        Seq::empty()
    }
}

/// The report of a lint run with the given findings.
pub open spec fn lint_report(issues: Seq<LintView>) -> Seq<char> {
    let rules = ranking::ranked(rules_of(issues));
    let head = lint_head(issues.len(), rules.len());
    let rows = seqs::first(rules, MAX_RULES_DISPLAYED as nat).flat_map(
        |r: Seq<char>| rule_rows(issues, r),
    );
    let more = lint_ending(rules.len());
    if issues.len() == 0 {
        "buf lint: clean (0 issues)"@
    } else {
        text::trimmed(head + rows + more)
    }
}

fn complete_issue(a: &Option<BufLintAnnotation>) -> (r: Option<LintIssue>)
    ensures
        match r {
            Some(i) => issue_of(*a) == Some(i@),
            None => issue_of(*a) is None,
        },
{
    match a {
        Some(a) => match &a.path {
            Some(path) => {
                if path.as_str().is_empty() {
                    return None;
                }
                let line: u32 = match a.start_line {
                    Some(n) => n,
                    None => 0,
                };
                let col: u32 = match a.start_column {
                    Some(n) => n,
                    None => 0,
                };
                let rule = match &a.rule_type {
                    Some(t) => t.clone(),
                    None => "UNKNOWN".to_owned(),
                };
                let message = match &a.message {
                    Some(m) => m.clone(),
                    None => String::new(),
                };
                Some(LintIssue { path: path.clone(), line, col, rule, message })
            },
            None => None,
        },
        None => None,
    }
}

/// Picks the findings out of the decoded records.
pub fn collect_issues(records: &Vec<Option<BufLintAnnotation>>) -> (r: Vec<LintIssue>)
    ensures
        r@.map_values(|i: LintIssue| i@) == issues_of(records@),
{
    let mut out: Vec<LintIssue> = Vec::new();
    let ghost f = seen_issue();
    assert(out@.map_values(|i: LintIssue| i@) =~= records@.take(0).filter_map(f));
    for i in 0..records.len()
        invariant
            f == seen_issue(),
            out@.map_values(|i: LintIssue| i@) == records@.take(i as int).filter_map(f),
    {
        let ghost done = out@.map_values(|i: LintIssue| i@);
        proof {
            records@.lemma_filter_map_take_succ(f, i as int);
        }
        if let Some(issue) = complete_issue(&records[i]) {
            out.push(issue);
            assert(out@.map_values(|i: LintIssue| i@) =~= done + seq![issue@]);
        } else {
            assert(done =~= done + Seq::<LintView>::empty());
        }
    }
    proof {
        seqs::lemma_take_all(records@);
    }
    out
}

fn push_sample_row(out: &mut String, i: &LintIssue)
    ensures
        final(out)@ == old(out)@ + sample_row(i@),
{
    let mut row = plan::concat2("  ", i.path.as_str());
    row.append(":");
    text::push_decimal(&mut row, i.line as u128);
    row.append(":");
    text::push_decimal(&mut row, i.col as u128);
    row.append("  ");
    row.append(i.message.as_str());
    push_cut_line(out, row.as_str());
}

/// The positions of the findings under one rule.
fn group_of(issues: &Vec<LintIssue>, rule: &str) -> (r: Vec<usize>)
    ensures
        forall|j: int| 0 <= j < r@.len() ==> #[trigger] r@[j] < issues@.len(),
        under_rule(issues@.map_values(|i: LintIssue| i@), rule@) == r@.map_values(
            |k: usize| issues@[k as int]@,
        ),
{
    let mut out: Vec<usize> = Vec::new();
    let ghost all = issues@.map_values(|i: LintIssue| i@);
    let ghost p = |i: LintView| i.rule == rule@;
    proof {
        seqs::lemma_filter_none(all, p);
        assert(out@.map_values(|k: usize| issues@[k as int]@) =~= all.take(0).filter(p));
    }
    for i in 0..issues.len()
        invariant
            all == issues@.map_values(|i: LintIssue| i@),
            p == (|i: LintView| i.rule == rule@),
            forall|j: int| 0 <= j < out@.len() ==> #[trigger] out@[j] < issues@.len(),
            all.take(i as int).filter(p) == out@.map_values(|k: usize| issues@[k as int]@),
    {
        let ghost done = out@.map_values(|k: usize| issues@[k as int]@);
        proof {
            seqs::lemma_filter_step(all, p, i as int);
        }
        if text::same_text(issues[i].rule.as_str(), rule) {
            out.push(i);
            assert(out@.map_values(|k: usize| issues@[k as int]@) =~= done.push(
                issues@[i as int]@,
            ));
        }
    }
    proof {
        seqs::lemma_take_all(all);
    }
    out
}

fn push_rule_rows(out: &mut String, issues: &Vec<LintIssue>, rule: &str)
    requires
        rules_of(issues@.map_values(|i: LintIssue| i@)).contains(rule@),
    ensures
        final(out)@ == old(out)@ + rule_rows(issues@.map_values(|i: LintIssue| i@), rule@),
{
    let ghost start = out@;
    let ghost all = issues@.map_values(|i: LintIssue| i@);
    let ghost group = under_rule(all, rule@);
    let places = group_of(issues, rule);
    let n: usize = places.len();
    proof {
        let k = rules_of(all).index_of(rule@);
        let p = |i: LintView| i.rule == rule@;
        assert(p(all[k]));
        all.lemma_filter_contains(p, k);
        assert(group.len() > 0);
        assert(group[0] == issues@[places@[0] as int]@);
    }
    out.append(rule);
    out.append(" (");
    text::push_count(out, n);
    out.append("): ");
    out.append(issues[places[0]].message.as_str());
    out.append("\n");
    let ghost head = out@;
    let ghost kept = seqs::first(group, MAX_SAMPLES_PER_RULE as nat);
    let ghost f = |i: LintView| sample_row(i);
    let stop: usize = if n > MAX_SAMPLES_PER_RULE {
        MAX_SAMPLES_PER_RULE
    } else {
        n
    };
    proof {
        seqs::lemma_rows_none(kept, f);
        assert(out@ =~= head + kept.take(0).flat_map(f));
    }
    for i in 0..stop
        invariant
            n == places@.len(),
            forall|j: int| 0 <= j < places@.len() ==> #[trigger] places@[j] < issues@.len(),
            group == places@.map_values(|k: usize| issues@[k as int]@),
            kept == seqs::first(group, MAX_SAMPLES_PER_RULE as nat),
            stop <= n,
            stop == kept.len(),
            f == (|i: LintView| sample_row(i)),
            out@ == head + kept.take(i as int).flat_map(f),
    {
        push_sample_row(out, &issues[places[i]]);
        proof {
            assert(kept[i as int] == issues@[places@[i as int] as int]@);
            seqs::lemma_rows_step(kept, f, i as int);
            assert(out@ =~= head + kept.take(i + 1).flat_map(f));
        }
    }
    proof {
        seqs::lemma_take_all(kept);
    }
    if n > MAX_SAMPLES_PER_RULE {
        out.append("  ... +");
        text::push_count(out, n - MAX_SAMPLES_PER_RULE);
        out.append(" more\n");
    }
    assert(out@ =~= start + rule_rows(all, rule@));
}

/// Reports the findings of a lint run, clustered by rule.
pub fn summarize_lint(issues: &Vec<LintIssue>) -> (r: String)
    ensures
        r@ == lint_report(issues@.map_values(|i: LintIssue| i@)),
{
    if issues.len() == 0 {
        return "buf lint: clean (0 issues)".to_owned();
    }
    let ghost all = issues@.map_values(|i: LintIssue| i@);
    let mut keys: Vec<String> = Vec::new();
    for i in 0..issues.len()
        invariant
            all == issues@.map_values(|i: LintIssue| i@),
            text::texts(keys@) == rules_of(all).take(i as int),
    {
        let ghost done = text::texts(keys@);
        keys.push(issues[i].rule.clone());
        proof {
            assert(text::texts(keys@) =~= done.push(all[i as int].rule));
            assert(rules_of(all).take(i + 1) =~= rules_of(all).take(i as int).push(
                all[i as int].rule,
            ));
        }
    }
    proof {
        seqs::lemma_take_all(rules_of(all));
    }
    let ranked = ranking::rank_rules(&keys);
    let ghost rules = ranking::ranked(rules_of(all));
    let n: usize = ranked.len();
    let mut out = "buf lint: ".to_owned();
    text::push_count(&mut out, issues.len());
    out.append(" issues across ");
    text::push_count(&mut out, n);
    out.append(" rules\n");
    report::push_rule_line(&mut out);
    let ghost head = out@;
    let ghost kept = seqs::first(rules, MAX_RULES_DISPLAYED as nat);
    let ghost f = |r: Seq<char>| rule_rows(all, r);
    let stop: usize = if n > MAX_RULES_DISPLAYED {
        MAX_RULES_DISPLAYED
    } else {
        n
    };
    proof {
        ranking::ranking_is_ordered(rules_of(all));
        seqs::lemma_rows_none(kept, f);
        assert(out@ =~= head + kept.take(0).flat_map(f));
    }
    for i in 0..stop
        invariant
            n == ranked@.len(),
            all == issues@.map_values(|i: LintIssue| i@),
            rules == ranking::rules(ranked@),
            forall|k: Seq<char>| rules.contains(k) <==> rules_of(all).contains(k),
            kept == seqs::first(rules, MAX_RULES_DISPLAYED as nat),
            stop <= n,
            stop == kept.len(),
            f == (|r: Seq<char>| rule_rows(all, r)),
            out@ == head + kept.take(i as int).flat_map(f),
    {
        proof {
            assert(kept[i as int] == ranked@[i as int].rule@);
            assert(rules.contains(rules[i as int]));
        }
        push_rule_rows(&mut out, issues, ranked[i].rule.as_str());
        proof {
            seqs::lemma_rows_step(kept, f, i as int);
            assert(out@ =~= head + kept.take(i + 1).flat_map(f));
        }
    }
    proof {
        seqs::lemma_take_all(kept);
    }
    let ghost shown = out@;
    if n > MAX_RULES_DISPLAYED {
        out.append("\n... +");
        text::push_count(&mut out, n - MAX_RULES_DISPLAYED);
        out.append(" more rules\n");
        assert(out@ =~= shown + ("\n... +"@ + text::decimal((n - MAX_RULES_DISPLAYED) as nat)
            + " more rules\n"@));
    } else {
        assert(out@ =~= shown + Seq::<char>::empty());
    }
    text::trim(out.as_str())
}

/// The findings that a decoder that always answers the same tells of in an output.
pub open spec fn told_issues<D: Fn(&str) -> Option<BufLintAnnotation>>(
    decode: D,
    input: Seq<char>,
) -> Seq<LintView> {
    lines::object_lines_of(input).filter_map(decode::answer(decode, seen_issue()))
}

/// Filters the output of `buf lint`: decodes the lines that may hold a finding
/// and reports the findings, clustered by rule. Lines that cannot be decoded are
/// passed over.
pub fn filter_buf_lint_json<D: Fn(&str) -> Option<BufLintAnnotation>>(
    input: &str,
    decode: D,
) -> (r: String)
    requires
        forall|s: &str| call_requires(decode, (s,)),
    ensures
        exists|records: Seq<Option<BufLintAnnotation>>|
            #![trigger issues_of(records)]
            decode::decodes(decode, lines::object_lines_of(input@), records) && r@ == lint_report(
                issues_of(records),
            ),
        decode::determinate(decode, seen_issue()) ==> r@ == lint_report(
            told_issues(decode, input@),
        ),
{
    let candidates = lines::object_lines(input);
    let ghost by = decode;
    let records = decode::decode_all(&candidates, decode);
    proof {
        if decode::determinate(by, seen_issue()) {
            decode::lemma_answers(by, seen_issue(), lines::object_lines_of(input@), records@);
        }
    }
    let issues = collect_issues(&records);
    summarize_lint(&issues)
}

/// A record that could not be decoded, or that names no path, makes no difference
/// to the findings.
pub proof fn malformed_records_are_skipped(
    before: Seq<Option<BufLintAnnotation>>,
    record: Option<BufLintAnnotation>,
    after: Seq<Option<BufLintAnnotation>>,
)
    requires
        issue_of(record) is None,
    ensures
        issues_of(before.push(record) + after) == issues_of(before + after),
{
    seqs::lemma_filter_map_skips(before, record, after, seen_issue());
}

/// Lines that hold no finding, put in anywhere among the lines of an output, make no
/// difference to the report, for a decoder that always answers the same: lines that
/// do not begin with an opening brace, and lines that it cannot decode.
pub proof fn noise_makes_no_difference<D: Fn(&str) -> Option<BufLintAnnotation>>(
    decode: D,
    plain: Seq<char>,
    noise: Seq<char>,
    noisy: Seq<char>,
    plain_records: Seq<Option<BufLintAnnotation>>,
    noisy_records: Seq<Option<BufLintAnnotation>>,
)
    requires
        decode::determinate(decode, seen_issue()),
        lines::lines_inserted(plain, noise, noisy),
        forall|i: int|
            0 <= i < lines::object_lines_of(noise).len() ==> decode::meaningless(
                decode,
                seen_issue(),
                #[trigger] lines::object_lines_of(noise)[i],
            ),
        decode::decodes(decode, lines::object_lines_of(plain), plain_records),
        decode::decodes(decode, lines::object_lines_of(noisy), noisy_records),
    ensures
        lint_report(issues_of(noisy_records)) == lint_report(issues_of(plain_records)),
{
    decode::lemma_noise_lines(
        decode,
        seen_issue(),
        plain,
        noise,
        noisy,
        plain_records,
        noisy_records,
    );
}

/// The rule of a finding, as a mapping.
pub open spec fn rule_key() -> spec_fn(LintView) -> Seq<char> {
    |i: LintView| i.rule
}

/// Where findings with different rules stand relative to each other makes no
/// difference to the report, as long as the findings with each rule keep their
/// order.
pub proof fn order_of_rules_makes_no_difference(
    a: Seq<LintView>,
    b: Seq<LintView>,
)
    requires
        forall|c: Seq<char>| #[trigger] under_rule(a, c) == under_rule(b, c),
    ensures
        lint_report(a) == lint_report(b),
{
    let key = rule_key();
    assert forall|c: Seq<char>| #[trigger] seqs::group(a, key, c) == seqs::group(b, key, c) by {
        lemma_group_by_key(a, c);
        lemma_group_by_key(b, c);
        assert(under_rule(a, c) == under_rule(b, c));
    }
    seqs::lemma_same_groups_same_len(a, b, key);
    assert forall|c: Seq<char>| #[trigger]
        ranking::occurrences(rules_of(a), c) == ranking::occurrences(rules_of(b), c) by {
        seqs::lemma_group_len(a, key, c, ranking::is_rule(c));
        seqs::lemma_group_len(b, key, c, ranking::is_rule(c));
        lemma_group_by_key(a, c);
        lemma_group_by_key(b, c);
        assert(under_rule(a, c) == under_rule(b, c));
        assert(rules_of(a) =~= a.map_values(key));
        assert(rules_of(b) =~= b.map_values(key));
    }
    ranking::ranking_depends_on_counts(rules_of(a), rules_of(b));
    let f = |c: Seq<char>| rule_rows(a, c);
    let g = |c: Seq<char>| rule_rows(b, c);
    assert forall|c: Seq<char>| #[trigger] f(c) == g(c) by {
        assert(under_rule(a, c) == under_rule(b, c));
    }
    assert(f =~= g);
}

/// The findings with one rule, picked by a mapping to the rule.
proof fn lemma_group_by_key(issues: Seq<LintView>, c: Seq<char>)
    ensures
        seqs::group(issues, rule_key(), c) == under_rule(issues, c),
{
    let p = seqs::with_key(rule_key(), c);
    let q = |i: LintView| i.rule == c;
    assert(p =~= q);
}

/// The lines in which a finding with the given rule is seen, as a predicate.
pub open spec fn tells_of<D: Fn(&str) -> Option<BufLintAnnotation>>(
    decode: D,
    rule: Seq<char>,
) -> spec_fn(Seq<char>) -> bool {
    |l: Seq<char>|
        decode::answer(decode, seen_issue())(l) is Some && decode::answer(decode, seen_issue())(
            l,
        )->0.rule == rule
}

/// The order of the lines of an output makes no difference to the report, nor do
/// lines without a finding, as long as the lines of each rule keep their order; for
/// a decoder that always answers the same.
pub proof fn order_of_lines_makes_no_difference<D: Fn(&str) -> Option<BufLintAnnotation>>(
    decode: D,
    p: Seq<char>,
    q: Seq<char>,
    p_records: Seq<Option<BufLintAnnotation>>,
    q_records: Seq<Option<BufLintAnnotation>>,
)
    requires
        decode::determinate(decode, seen_issue()),
        decode::decodes(decode, lines::object_lines_of(p), p_records),
        decode::decodes(decode, lines::object_lines_of(q), q_records),
        forall|c: Seq<char>| #[trigger]
            lines::object_lines_of(p).filter(tells_of(decode, c)) == lines::object_lines_of(
                q,
            ).filter(tells_of(decode, c)),
    ensures
        lint_report(issues_of(p_records)) == lint_report(issues_of(q_records)),
{
    let a = issues_of(p_records);
    let b = issues_of(q_records);
    let f = decode::answer(decode, seen_issue());
    decode::lemma_answers(decode, seen_issue(), lines::object_lines_of(p), p_records);
    decode::lemma_answers(decode, seen_issue(), lines::object_lines_of(q), q_records);
    assert forall|c: Seq<char>| #[trigger] under_rule(a, c) == under_rule(b, c) by {
        let wanted = |i: LintView| i.rule == c;
        let lines_p = lines::object_lines_of(p);
        let lines_q = lines::object_lines_of(q);
        seqs::lemma_filter_of_filter_map(lines_p, f, wanted, tells_of(decode, c));
        seqs::lemma_filter_of_filter_map(lines_q, f, wanted, tells_of(decode, c));
        assert(lines_p.filter(tells_of(decode, c)) == lines_q.filter(tells_of(decode, c)));
    }
    order_of_rules_makes_no_difference(a, b);
}

/// The first rules of the ranking are shown, each with the number of its
/// findings.
pub proof fn ranked_rules_are_shown(issues: Seq<LintView>, i: int)
    requires
        0 <= i < ranking::ranked(rules_of(issues)).len(),
        i < MAX_RULES_DISPLAYED,
    ensures
        ({
            let rule = ranking::ranked(rules_of(issues))[i];
            text::has_text(
                lint_report(issues),
                rule + " ("@ + text::decimal(under_rule(issues, rule).len()) + "):"@,
            )
        }),
{
    let rules = ranking::ranked(rules_of(issues));
    let rule = rules[i];
    let kept = seqs::first(rules, MAX_RULES_DISPLAYED as nat);
    let f = |r: Seq<char>| rule_rows(issues, r);
    let head = lint_head(issues.len(), rules.len());
    let more = lint_ending(rules.len());
    let t = rule + " ("@ + text::decimal(under_rule(issues, rule).len()) + "):"@;
    ranking::ranking_is_ordered(rules_of(issues));
    assert(rules.contains(rule));
    assert(rules_of(issues).contains(rule));
    assert(issues.len() > 0);
    assert(text::has_text(rule_rows(issues, rule), t) && !text::is_white(t.last())) by {
        reveal_strlit("):");
        reveal_strlit("): ");
        assert(rule_rows(issues, rule).subrange(0, t.len() as int) =~= t);
        assert(text::occurs_at(rule_rows(issues, rule), t, 0));
    }
    assert(kept[i] == rule);
    report::lemma_row_is_shown(head, kept, f, more, i, t);
    let whole = head + kept.flat_map(f) + more;
    reveal_strlit("buf lint: ");
    assert(whole[0] == 'b');
    text::lemma_trimmed_at_end(whole);
}

/// Of each rule that is shown, the first findings are shown.
pub proof fn first_findings_are_shown(issues: Seq<LintView>, i: int, j: int)
    requires
        0 <= i < ranking::ranked(rules_of(issues)).len(),
        i < MAX_RULES_DISPLAYED,
        0 <= j < under_rule(issues, ranking::ranked(rules_of(issues))[i]).len(),
        j < MAX_SAMPLES_PER_RULE,
    ensures
        ({
            let rule = ranking::ranked(rules_of(issues))[i];
            text::has_text(
                lint_report(issues),
                text::trimmed_end(sample_row(under_rule(issues, rule)[j])),
            )
        }),
{
    let rules = ranking::ranked(rules_of(issues));
    let rule = rules[i];
    let kept = seqs::first(rules, MAX_RULES_DISPLAYED as nat);
    let f = |r: Seq<char>| rule_rows(issues, r);
    let head = lint_head(issues.len(), rules.len());
    let more = lint_ending(rules.len());
    let group = under_rule(issues, rule);
    let sample = sample_row(group[j]);
    let t = text::trimmed_end(sample);
    issues.lemma_filter_len(|i: LintView| i.rule == rule);
    assert(issues.len() > 0);
    text::lemma_trimmed_part(sample);
    assert(text::has_text(rule_rows(issues, rule), t)) by {
        let shown = seqs::first(group, MAX_SAMPLES_PER_RULE as nat);
        let g = |i: LintView| sample_row(i);
        assert(shown[j] == group[j]);
        report::lemma_row_in_block(
            rule_head(rule, group),
            shown,
            g,
            rule_ending(group.len()),
            j,
        );
        text::lemma_part_of_part(rule_rows(issues, rule), sample, t);
    }
    assert(kept[i] == rule);
    report::lemma_row_is_shown(head, kept, f, more, i, t);
    let whole = head + kept.flat_map(f) + more;
    reveal_strlit("buf lint: ");
    assert(whole[0] == 'b');
    text::lemma_trimmed_at_end(whole);
}

/// Of a blank output nothing bad is reported, whatever the decoder.
pub proof fn blank_output_is_clean(input: Seq<char>)
    requires
        text::every(input, text::whites()),
    ensures
        build_report(telling_lines(input)) == "buf build: ok"@,
        generate_report(generate_lines(input)) == "buf generate: ok"@,
        lines::object_lines_of(input).len() == 0,
        lint_report(issues_of(Seq::empty())) == "buf lint: clean (0 issues)"@,
{
    lines::blank_text_has_no_content(input);
    lines::content_lines_of(input).lemma_filter_len(|l: Seq<char>| !is_progress(l));
    let ls = generate_lines(input);
    assert(ls.len() == 0);
    ls.lemma_filter_len(|l: GenerateView| l is Invocation);
}

// ---------------------------------------------------------------------------
// What the findings of a lint run decide
// ---------------------------------------------------------------------------

/// The rules are reported by how many findings they have: a rule that is reported
/// earlier has at least as many as one that is reported later, and where the two have
/// equally many its name is the lesser one.
pub proof fn frequent_rules_come_first(issues: Seq<LintView>, i: int, j: int)
    requires
        0 <= i < j < ranking::ranked(rules_of(issues)).len(),
    ensures
        ({
            let a = ranking::ranked(rules_of(issues))[i];
            let b = ranking::ranked(rules_of(issues))[j];
            let many_a = issues.filter(|x: LintView| x.rule == a).len();
            let many_b = issues.filter(|x: LintView| x.rule == b).len();
            &&& many_a >= many_b > 0
            &&& many_a == many_b ==> ranking::text_le(a, b) && a != b
        }),
{
    let keys = rules_of(issues);
    ranking::frequent_rules_come_first(keys, i, j);
    lemma_number_of_findings(issues, ranking::ranked(keys)[i]);
    lemma_number_of_findings(issues, ranking::ranked(keys)[j]);
}

/// A rule occurs as often as there are findings under it.
proof fn lemma_number_of_findings(issues: Seq<LintView>, r: Seq<char>)
    ensures
        rules_of(issues).filter(|k: Seq<char>| k == r).len() == issues.filter(
            |x: LintView| x.rule == r,
        ).len(),
{
    let key = rule_key();
    seqs::lemma_group_len(issues, key, r, |k: Seq<char>| k == r);
    assert(rules_of(issues) =~= issues.map_values(key));
    assert(seqs::with_key(key, r) =~= (|x: LintView| x.rule == r));
}

/// Each rule that a finding breaks is reported on once, and no other is.
pub proof fn every_rule_is_ranked(issues: Seq<LintView>, r: Seq<char>)
    ensures
        ranking::ranked(rules_of(issues)).contains(r) <==> exists|i: int|
            0 <= i < issues.len() && (#[trigger] issues[i]).rule == r,
        ranking::ranked(rules_of(issues)).no_duplicates(),
{
    let keys = rules_of(issues);
    ranking::occurring_rules_are_ranked(keys, r);
    if exists|i: int| 0 <= i < issues.len() && (#[trigger] issues[i]).rule == r {
        let i = choose|i: int| 0 <= i < issues.len() && (#[trigger] issues[i]).rule == r;
        assert(keys[i] == r);
    }
    if exists|i: int| 0 <= i < keys.len() && keys[i] == r {
        let i = choose|i: int| 0 <= i < keys.len() && keys[i] == r;
        assert(issues[i].rule == r);
    }
}

/// The rows of a rule are its name with the number of its findings and the message of
/// the first, then the places and messages of the first three, then how many more
/// there are.
pub proof fn a_rule_is_shown_with_three_findings(issues: Seq<LintView>, r: Seq<char>)
    ensures
        ({
            let group = issues.filter(|x: LintView| x.rule == r);
            rule_rows(issues, r) == r + " ("@ + text::decimal(group.len()) + "): "@
                + group[0].message + "\n"@ + seqs::first(group, 3).flat_map(
                |x: LintView|
                    text::truncated(
                        "  "@ + x.path + ":"@ + text::decimal(x.line as nat) + ":"@ + text::decimal(
                            x.col as nat,
                        ) + "  "@ + x.message,
                        120,
                    ) + "\n"@,
            ) + if group.len() > 3 {
                "  ... +"@ + text::decimal((group.len() - 3) as nat) + " more\n"@
            } else {
                Seq::empty()
            }
        }),
{
    assert((|x: LintView| sample_row(x)) =~= (|x: LintView|
        text::truncated(
            "  "@ + x.path + ":"@ + text::decimal(x.line as nat) + ":"@ + text::decimal(
                x.col as nat,
            ) + "  "@ + x.message,
            120,
        ) + "\n"@));
}

/// The report of a lint run is the number of findings and of rules, then the rows of
/// the five rules with the most findings, then how many more rules there are.
pub proof fn the_lint_report_shows_five_rules(issues: Seq<LintView>)
    ensures
        issues.len() == 0 ==> lint_report(issues) == "buf lint: clean (0 issues)"@,
        issues.len() > 0 ==> ({
            let rules = ranking::ranked(rules_of(issues));
            lint_report(issues) == text::trimmed(
                "buf lint: "@ + text::decimal(issues.len()) + " issues across "@ + text::decimal(
                    rules.len(),
                ) + " rules\n"@ + "═══════════════════════════════════════\n"@ + seqs::first(
                    rules,
                    5,
                ).flat_map(|r: Seq<char>| rule_rows(issues, r)) + if rules.len() > 5 {
                    "\n... +"@ + text::decimal((rules.len() - 5) as nat) + " more rules\n"@
                } else {
                    Seq::empty()
                },
            )
        }),
{
}

/// Of two rules that are shown, the one with more findings comes before the other, each
/// with the number of its findings.
pub proof fn rules_are_shown_in_order(issues: Seq<LintView>, i: int, j: int)
    requires
        0 <= i < j < ranking::ranked(rules_of(issues)).len(),
        j < 5,
    ensures
        ({
            let a = ranking::ranked(rules_of(issues))[i];
            let b = ranking::ranked(rules_of(issues))[j];
            let many_a = issues.filter(|x: LintView| x.rule == a).len();
            let many_b = issues.filter(|x: LintView| x.rule == b).len();
            exists|before: Seq<char>, after: Seq<char>| #[trigger]
                (before + after) == lint_report(issues) && text::has_text(
                    before,
                    a + " ("@ + text::decimal(many_a) + "):"@,
                ) && text::has_text(after, b + " ("@ + text::decimal(many_b) + "):"@)
        }),
{
    let rules = ranking::ranked(rules_of(issues));
    let kept = seqs::first(rules, 5);
    let f = |r: Seq<char>| rule_rows(issues, r);
    let head = lint_head(issues.len(), rules.len());
    let more = lint_ending(rules.len());
    let a = rules[i] + " ("@ + text::decimal(under_rule(issues, rules[i]).len()) + "):"@;
    let b = rules[j] + " ("@ + text::decimal(under_rule(issues, rules[j]).len()) + "):"@;
    every_rule_is_ranked(issues, rules[i]);
    assert(rules.contains(rules[i]));
    assert(issues.len() > 0);
    assert(kept[i] == rules[i] && kept[j] == rules[j]);
    reveal_strlit("):");
    reveal_strlit("): ");
    assert(rule_rows(issues, rules[i]).subrange(0, a.len() as int) =~= a);
    assert(text::occurs_at(rule_rows(issues, rules[i]), a, 0));
    assert(rule_rows(issues, rules[j]).subrange(0, b.len() as int) =~= b);
    assert(text::occurs_at(rule_rows(issues, rules[j]), b, 0));
    let whole = head + kept.flat_map(f) + more;
    reveal_strlit("buf lint: ");
    assert(whole[0] == 'b');
    text::lemma_trimmed_at_end(whole);
    let (before, after) = report::lemma_rows_keep_their_order(head, kept, f, more, i, j, a, b);
    assert(before + after == lint_report(issues));
}

/// A decoded record is a finding where it names a path. What else it lacks is filled
/// in: zero for the line and the column, `UNKNOWN` for the rule, nothing for the
/// message. The findings keep the order of the records.
pub proof fn decoded_findings_are_gathered(
    records: Seq<Option<BufLintAnnotation>>,
    r: Option<BufLintAnnotation>,
)
    ensures
        issues_of(records.push(r)) == if r is Some && r->0.path is Some && r->0.path->0@.len() > 0 {
            issues_of(records).push(
                LintView {
                    path: r->0.path->0@,
                    line: if r->0.start_line is Some {
                        r->0.start_line->0
                    } else {
                        0
                    },
                    col: if r->0.start_column is Some {
                        r->0.start_column->0
                    } else {
                        0
                    },
                    rule: if r->0.rule_type is Some {
                        r->0.rule_type->0@
                    } else {
                        "UNKNOWN"@
                    },
                    message: if r->0.message is Some {
                        r->0.message->0@
                    } else {
                        Seq::empty()
                    },
                },
            )
        } else {
            issues_of(records)
        },
        issues_of(Seq::empty()).len() == 0,
{
    let all = records.push(r);
    let k = records.len() as int;
    all.lemma_filter_map_take_succ(seen_issue(), k);
    assert(all.take(k) =~= records);
    assert(all.take(k + 1) =~= all);
    let done = issues_of(records);
    assert(done + Seq::<LintView>::empty() =~= done);
    if let Some(i) = issue_of(r) {
        assert(done + seq![i] =~= done.push(i));
    }
}

// ---------------------------------------------------------------------------
// What the lines of a build or of a generate run decide
// ---------------------------------------------------------------------------

/// A line says something unless it is blank, begins with `INFO` and a tab or with
/// `buf: downloading`, or is just `ok`. Texts in a row say what each of them says.
pub proof fn lines_say_something_unless_they_are_progress(l: Seq<char>, rest: Seq<char>)
    requires
        !l.contains('\n'),
    ensures
        telling_lines(l) == ({
            let t = text::trimmed(l);
            if t.len() == 0 || "INFO\t"@.is_prefix_of(t) || t == "ok"@
                || "buf: downloading "@.is_prefix_of(t) {
                Seq::empty()
            } else {
                seq![t]
            }
        }),
        telling_lines(l + "\n"@ + rest) == telling_lines(l) + telling_lines(rest),
{
    let p = |l: Seq<char>| !is_progress(l);
    let t = text::trimmed(l);
    lines::a_line_is_trimmed(l);
    lines::content_of_texts_in_a_row(l, rest);
    Seq::filter_distributes_over_add(
        lines::content_lines_of(l),
        lines::content_lines_of(rest),
        p,
    );
    if t.len() == 0 {
        lines::content_lines_of(l).lemma_filter_len(p);
        assert(telling_lines(l) =~= Seq::empty());
    } else {
        seqs::lemma_filter_none(seq![t], p);
        seqs::lemma_filter_step(seq![t], p, 0);
        seqs::lemma_take_all(seq![t]);
        assert(Seq::<Seq<char>>::empty().push(t) =~= seq![t]);
    }
}

/// The report of a build is the number of lines that say something, then those lines,
/// each cut to the width of a report; a build of which no line says anything went
/// well.
pub proof fn the_build_report_lists_every_error(errors: Seq<Seq<char>>)
    ensures
        build_report(errors) == if errors.len() == 0 {
            "buf build: ok"@
        } else {
            text::trimmed(
                "buf build: "@ + text::decimal(errors.len()) + " errors\n"@
                    + "═══════════════════════════════════════\n"@ + errors.flat_map(
                    |e: Seq<char>| text::truncated(e, 120) + "\n"@,
                ),
            )
        },
{
    assert((|e: Seq<char>| cut_line(e)) =~= (|e: Seq<char>| text::truncated(e, 120) + "\n"@));
}

/// A line that begins with `Generating` or `Running plugin` invokes the plugin that it
/// names: what stands between the white space around it and before the dots at the
/// end.
pub proof fn invocations_name_a_plugin(
    before: Seq<char>,
    name: Seq<char>,
    after: Seq<char>,
    dots: Seq<char>,
)
    requires
        forall|i: int| 0 <= i < before.len() ==> text::is_white(#[trigger] before[i]),
        name.len() > 0,
        !text::is_white(name[0]),
        !text::is_white(name.last()),
        forall|i: int| 0 <= i < after.len() ==> text::is_white(#[trigger] after[i]),
        name.last() != '.' || after.len() > 0,
        forall|i: int| 0 <= i < dots.len() ==> #[trigger] dots[i] == '.',
    ensures
        invocation("Generating "@ + (before + name + after + dots)) == Some(name),
        invocation("Running plugin "@ + (before + name + after + dots)) == Some(name),
{
    let rest = before + name + after + dots;
    let named = before + name + after;
    if after.len() > 0 {
        assert(named.last() == after.last());
        assert(text::is_white(after[after.len() - 1]));
    } else {
        assert(named.last() == name.last());
    }
    text::only_the_given_character_is_dropped(dots, named, '.');
    text::trimming_takes_white_space_away(before, name, after);
    assert(invoked_name(rest) == name);
    text::a_prefix_and_the_rest_are_the_text(rest, "Generating "@);
    text::a_prefix_and_the_rest_are_the_text(rest, "Running plugin "@);
    assert(text::after_prefix("Generating "@ + rest, "Generating "@) == Some(rest));
    assert(text::after_prefix("Running plugin "@ + rest, "Running plugin "@) == Some(rest));
    reveal_strlit("Generating ");
    reveal_strlit("Running plugin ");
    let running = "Running plugin "@ + rest;
    assert(!"Generating "@.is_prefix_of(running)) by {
        assert(running[0] == 'R');
        if "Generating "@.is_prefix_of(running) {
            assert(running.subrange(0, "Generating "@.len() as int)[0] == running[0]);
        }
    }
}

/// A line that begins with neither invokes nothing.
pub proof fn other_lines_invoke_nothing(l: Seq<char>)
    requires
        !"Generating "@.is_prefix_of(l),
        !"Running plugin "@.is_prefix_of(l),
    ensures
        invocation(l) is None,
{
}

/// A plugin is marked as failed by `✗`, its name and a colon; by `Failure: plugin`,
/// its name and a colon; or by `plugin`, its name and `failed`. What follows is what
/// the marker says. A colon need not follow a name after `✗`.
pub proof fn markers_name_a_failed_plugin(name: Seq<char>, told: Seq<char>)
    requires
        !name.contains(':'),
    ensures
        ({
            let l = "✗ "@ + (name.push(':') + told);
            failure_marker(l) == Some(text::trimmed(name)) && marker_text(l) == text::trimmed(told)
        }),
        ({
            let l = "✗ "@ + name;
            failure_marker(l) == Some(text::trimmed(name)) && marker_text(l).len() == 0
        }),
        ({
            let l = "Failure: plugin "@ + (name.push(':') + told);
            failure_marker(l) == Some(text::trimmed(name)) && marker_text(l) == text::trimmed(told)
        }),
        failure_marker("Failure: plugin "@ + name) is None,
{
    let rest = name.push(':') + told;
    let bare = "Failure: plugin "@ + name;
    assert(text::after_prefix(bare, "plugin "@) is None) by {
        reveal_strlit("Failure: plugin ");
        reveal_strlit("plugin ");
        assert(bare[0] == 'F');
        if "plugin "@.is_prefix_of(bare) {
            assert(bare.subrange(0, "plugin "@.len() as int)[0] == bare[0]);
        }
    }
    text::a_text_is_cut_at_the_first_place(name, ':', name, told);
    lemma_markers_differ(rest);
    lemma_markers_differ(name);
    text::a_prefix_and_the_rest_are_the_text(rest, "✗ "@);
    text::a_prefix_and_the_rest_are_the_text(rest, "Failure: plugin "@);
    assert(text::after_prefix("✗ "@ + rest, "✗ "@) == Some(rest));
    assert(text::after_prefix("✗ "@ + name, "✗ "@) == Some(name));
    assert(text::after_prefix("Failure: plugin "@ + rest, "Failure: plugin "@) == Some(rest));
    assert(text::after_prefix(bare, "Failure: plugin "@) == Some(name));
}

/// A line begins with at most one of the marks of failure.
proof fn lemma_markers_differ(rest: Seq<char>)
    ensures
        text::after_prefix("Failure: plugin "@ + rest, "✗ "@) is None,
        text::after_prefix("plugin "@ + rest, "✗ "@) is None,
        text::after_prefix("plugin "@ + rest, "Failure: plugin "@) is None,
{
    reveal_strlit("✗ ");
    reveal_strlit("Failure: plugin ");
    reveal_strlit("plugin ");
    let f = "Failure: plugin "@ + rest;
    let p = "plugin "@ + rest;
    assert(f[0] == 'F' && p[0] == 'p');
    if "✗ "@.is_prefix_of(f) {
        assert(f.subrange(0, "✗ "@.len() as int)[0] == f[0]);
    }
    if "✗ "@.is_prefix_of(p) {
        assert(p.subrange(0, "✗ "@.len() as int)[0] == p[0]);
    }
    if "Failure: plugin "@.is_prefix_of(p) {
        assert(p.subrange(0, "Failure: plugin "@.len() as int)[0] == p[0]);
    }
}

/// `plugin`, a name and `failed` mark the plugin as failed; a colon after `failed` is
/// not part of what the marker says. Without `failed` they mark nothing.
pub proof fn a_plugin_that_failed_is_marked(name: Seq<char>, tail: Seq<char>, told: Seq<char>)
    requires
        !name.contains(' '),
    ensures
        ({
            let l = "plugin "@ + (name.push(' ') + ("failed"@ + tail));
            &&& failure_marker(l) == Some(text::trimmed(name))
            &&& text::trimmed(tail) == ":"@ + told ==> marker_text(l) == text::trimmed(told)
            &&& !":"@.is_prefix_of(text::trimmed(tail)) ==> marker_text(l) == text::trimmed(tail)
        }),
        !"failed"@.is_prefix_of(tail) ==> failure_marker("plugin "@ + (name.push(' ') + tail)) is None,
        failure_marker("plugin "@ + name) is None,
{
    let end = "failed"@ + tail;
    let rest = name.push(' ') + end;
    let other = name.push(' ') + tail;
    text::a_text_is_cut_at_the_first_place(name, ' ', name, end);
    text::a_text_is_cut_at_the_first_place(name, ' ', name, tail);
    lemma_markers_differ(rest);
    lemma_markers_differ(other);
    lemma_markers_differ(name);
    text::a_prefix_and_the_rest_are_the_text(rest, "plugin "@);
    text::a_prefix_and_the_rest_are_the_text(tail, "failed"@);
    text::a_prefix_and_the_rest_are_the_text(told, ":"@);
    assert(text::after_prefix("plugin "@ + rest, "plugin "@) == Some(rest));
    assert(text::after_prefix("plugin "@ + other, "plugin "@) == Some(other));
    assert(text::after_prefix("plugin "@ + name, "plugin "@) == Some(name));
    assert(text::after_prefix("failed"@ + tail, "failed"@) == Some(tail));
    assert(text::after_prefix(":"@ + told, ":"@) == Some(told));
}

/// A line that begins with none of the marks marks nothing.
pub proof fn other_lines_mark_nothing(l: Seq<char>)
    requires
        !"✗ "@.is_prefix_of(l),
        !"Failure: plugin "@.is_prefix_of(l),
        !"plugin "@.is_prefix_of(l),
    ensures
        failure_marker(l) is None,
{
}

/// Phrases that tell of an error wherever they stand in the lowercase of a line.
pub open spec fn phrases_of_error() -> Seq<Seq<char>> {
    seq![" error:"@, "failed"@, "exit status"@, "could not"@, "cannot "@]
}

/// A line, of which `lower` is the lowercase, tells of an error in words: the lowercase
/// begins with `error:` or `failure:` or has one of the phrases of errors anywhere, or
/// the line has `.proto:` in it.
pub open spec fn has_words_of_error(l: Seq<char>, lower: Seq<char>) -> bool {
    ||| "error:"@.is_prefix_of(lower)
    ||| "failure:"@.is_prefix_of(lower)
    ||| text::has_text(l, ".proto:"@)
    ||| exists|k: int|
        0 <= k < phrases_of_error().len() && text::has_text(lower, #[trigger] phrases_of_error()[k])
}

/// A line tells of an error exactly where it does so in words.
pub proof fn words_tell_of_an_error(l: Seq<char>, lower: Seq<char>)
    ensures
        is_error(l, lower) <==> has_words_of_error(l, lower),
{
    let ps = phrases_of_error();
    if is_error(l, lower) {
        assert(text::has_text(lower, ps[0]) || text::has_text(lower, ps[1]) || text::has_text(
            lower,
            ps[2],
        ) || text::has_text(lower, ps[3]) || text::has_text(lower, ps[4]) || "error:"@.is_prefix_of(
            lower,
        ) || "failure:"@.is_prefix_of(lower) || text::has_text(l, ".proto:"@));
    }
}

/// A run is not reported as a success where a line tells of an error in words and is
/// neither progress nor the invocation of a plugin: the report begins with the number
/// of failures instead.
pub proof fn errors_fail_a_generate_run(input: Seq<char>, i: int)
    requires
        0 <= i < lines::content_lines_of(input).len(),
        ({
            let l = lines::content_lines_of(input)[i];
            &&& !"INFO\t"@.is_prefix_of(l)
            &&& l != "ok"@
            &&& !"buf: downloading "@.is_prefix_of(l)
            &&& invocation(l) is None
            &&& has_words_of_error(l, text::lowered(l)) || "✗ "@.is_prefix_of(l)
        }),
    ensures
        !"buf generate: ok"@.is_prefix_of(generate_report(generate_lines(input))),
        exists|plugins: nat, failed: nat|
            failed > 0 && plugins > 0 && ("buf generate: "@ + #[trigger] text::decimal(plugins)
                + " plugins, "@ + #[trigger] text::decimal(failed) + " failed"@).is_prefix_of(
                generate_report(generate_lines(input)),
            ),
{
    let l = lines::content_lines_of(input)[i];
    let ls = generate_lines(input);
    let p = |l: Seq<char>| !is_progress(l);
    words_tell_of_an_error(l, text::lowered(l));
    lines::content_lines_of(input).lemma_filter_contains(p, i);
    let k = telling_lines(input).index_of(l);
    assert(telling_lines(input)[k] == l);
    assert(ls[k] == classified(l, text::lowered(l)));
    assert(ls[k] is Failure || ls[k] is Error);
    success_means_no_trouble(ls);
    lemma_failed_heading(ls);
}

/// The report of a run with a failed plugin or an error begins with the number of
/// plugins and of failures.
proof fn lemma_failed_heading(ls: Seq<GenerateView>)
    requires
        failures(ls).len() > 0 || bare_errors(ls).len() > 0,
    ensures
        !"buf generate: ok"@.is_prefix_of(generate_report(ls)),
        ({
            let failed = failures(ls).len();
            let plugins = if invocations(ls) > failed {
                invocations(ls)
            } else {
                failed + 1
            };
            let shown = if failed == 0 {
                1
            } else {
                failed
            };
            ("buf generate: "@ + text::decimal(plugins) + " plugins, "@ + text::decimal(shown)
                + " failed"@).is_prefix_of(generate_report(ls))
        }),
{
    let failed = failures(ls).len();
    let plugins = if invocations(ls) > failed {
        invocations(ls)
    } else {
        failed + 1
    };
    let shown = if failed == 0 {
        1
    } else {
        failed
    };
    let body = if failed == 0 {
        seqs::first(bare_errors(ls), 3).flat_map(|e: Seq<char>| cut_line("  ✗ "@ + e))
    } else {
        failures(ls).flat_map(|f: FailedView| failure_rows(f))
    };
    let title = "buf generate: "@ + text::decimal(plugins) + " plugins, "@ + text::decimal(shown)
        + " failed"@;
    reveal_strlit("buf generate: ");
    reveal_strlit("buf generate: ok");
    reveal_strlit(" failed");
    reveal_strlit(" failed\n");
    let whole = generate_head(invocations(ls), failed) + body;
    let report = generate_report(ls);
    assert(generate_head(invocations(ls), failed) =~= title.push('\n'));
    assert(whole[0] == 'b');
    text::lemma_trimmed_at_end(whole);
    text::lemma_trimmed_end(whole);
    assert(whole[title.len() - 1] == 'd');
    assert(report.len() >= title.len());
    assert(report.subrange(0, title.len() as int) =~= title);
    text::decimal_stands_for_the_number(plugins);
    assert(report[14] == text::decimal(plugins)[0]);
    if "buf generate: ok"@.is_prefix_of(report) {
        assert(report.subrange(0, 16)[14] == report[14]);
    }
}

/// A run is reported as a success, with the number of plugins where any was invoked,
/// where every line is progress, invokes a plugin, or neither marks a failure nor tells
/// of an error in words.
pub proof fn a_generate_run_succeeds_without_trouble(input: Seq<char>)
    requires
        forall|i: int|
            0 <= i < lines::content_lines_of(input).len() ==> {
                let l = #[trigger] lines::content_lines_of(input)[i];
                ||| "INFO\t"@.is_prefix_of(l)
                ||| l == "ok"@
                ||| "buf: downloading "@.is_prefix_of(l)
                ||| invocation(l) is Some
                ||| failure_marker(l) is None && !has_words_of_error(l, text::lowered(l))
            },
    ensures
        generate_report(generate_lines(input)) == "buf generate: ok"@ || exists|plugins: nat|
            plugins > 0 && generate_report(generate_lines(input)) == "buf generate: ok ("@
                + #[trigger] text::decimal(plugins) + " plugins)"@,
{
    let ls = generate_lines(input);
    let all = lines::content_lines_of(input);
    let p = |l: Seq<char>| !is_progress(l);
    assert forall|i: int| 0 <= i < ls.len() implies !((#[trigger] ls[i]) is Failure) && !(
    ls[i] is Error) by {
        let l = telling_lines(input)[i];
        assert(ls[i] == classified(l, text::lowered(l)));
        all.lemma_filter_pred(p, i);
        assert(all.filter(p).contains(l));
        all.lemma_filter_contains_rev(p, l);
        assert(all[all.index_of(l)] == l);
        words_tell_of_an_error(l, text::lowered(l));
    }
    success_means_no_trouble(ls);
}

/// What a generate run is reported as: a success, with the number of plugins that were
/// invoked, where no plugin failed and there is no error; else the failed plugins; else
/// the first three errors.
pub proof fn the_generate_report_shows_failures(ls: Seq<GenerateView>)
    ensures
        ({
            let plugins = ls.filter(|l: GenerateView| l == GenerateView::Invocation).len();
            let failed = failures(ls);
            let bare = bare_errors(ls);
            generate_report(ls) == if failed.len() == 0 && bare.len() == 0 {
                if plugins == 0 {
                    "buf generate: ok"@
                } else {
                    "buf generate: ok ("@ + text::decimal(plugins) + " plugins)"@
                }
            } else if failed.len() == 0 {
                text::trimmed(
                    "buf generate: "@ + text::decimal(
                        if plugins > 1 {
                            plugins
                        } else {
                            1
                        },
                    ) + " plugins, "@ + text::decimal(1) + " failed\n"@ + seqs::first(
                        bare,
                        3,
                    ).flat_map(|e: Seq<char>| text::truncated("  ✗ "@ + e, 120) + "\n"@),
                )
            } else {
                text::trimmed(
                    "buf generate: "@ + text::decimal(
                        if plugins > failed.len() + 1 {
                            plugins
                        } else {
                            failed.len() + 1
                        },
                    ) + " plugins, "@ + text::decimal(failed.len()) + " failed\n"@
                        + failed.flat_map(|f: FailedView| failure_rows(f)),
                )
            }
        }),
{
    assert((|l: GenerateView| l is Invocation) =~= (|l: GenerateView|
        l == GenerateView::Invocation));
    assert((|e: Seq<char>| cut_line("  ✗ "@ + e)) =~= (|e: Seq<char>|
        text::truncated("  ✗ "@ + e, 120) + "\n"@));
}

/// A failed plugin is shown with what its marker says and the first three lines after
/// it. Where the marker says nothing, the detail of those lines stands in its place,
/// with the second and the third below; where there are none, the report says so.
pub proof fn a_failed_plugin_is_shown_with_what_it_said(f: FailedView)
    ensures
        ({
            let below = |l: Seq<char>| text::truncated("    "@ + l, 120) + "\n"@;
            let name = "  ✗ "@ + f.name + ": "@;
            failure_rows(f) == if f.said.len() > 0 {
                text::truncated(name + f.said, 120) + "\n"@ + seqs::first(f.lines, 3).flat_map(
                    below,
                )
            } else if f.lines.len() > 0 {
                text::truncated(name + detail(f.lines), 120) + "\n"@ + seqs::first(
                    f.lines.skip(1),
                    2,
                ).flat_map(below)
            } else {
                text::truncated(name + "(no detail)"@, 120) + "\n"@
            }
        }),
{
    let below = |l: Seq<char>| text::truncated("    "@ + l, 120) + "\n"@;
    assert((|l: Seq<char>| row_below(l)) =~= below);
    if f.said.len() == 0 && f.lines.len() > 0 {
        assert(lines_below(f) =~= seqs::first(f.lines.skip(1), 2));
    }
    if f.said.len() == 0 && f.lines.len() == 0 {
        seqs::lemma_rows_none(f.lines, below);
        assert(lines_below(f) =~= f.lines.take(0));
        assert(failure_rows(f) =~= failed_row(f));
    }
}

/// The first line that is not empty is the detail, and `(no detail)` where there is
/// none.
pub proof fn the_first_full_line_is_the_detail(ls: Seq<Seq<char>>, k: int)
    requires
        0 <= k <= ls.len(),
        forall|i: int| 0 <= i < k ==> (#[trigger] ls[i]).len() == 0,
        k < ls.len() ==> ls[k].len() > 0,
    ensures
        detail(ls) == if k < ls.len() {
            ls[k]
        } else {
            "(no detail)"@
        },
    decreases k,
{
    if k > 0 {
        let rest = ls.skip(1);
        assert(ls[0].len() == 0);
        assert forall|i: int| 0 <= i < k - 1 implies (#[trigger] rest[i]).len() == 0 by {
            assert(rest[i] == ls[i + 1]);
        }
        the_first_full_line_is_the_detail(rest, k - 1);
    }
}

/// A line that neither invokes a plugin nor marks one as failed.
pub open spec fn is_ordinary(l: GenerateView) -> bool {
    l is Error || l is Context
}

/// What an ordinary line says, as a mapping.
pub open spec fn ordinary_text() -> spec_fn(GenerateView) -> Seq<char> {
    |l: GenerateView|
        match l {
            GenerateView::Error(t) => t,
            GenerateView::Context(t) => t,
            _ => Seq::empty(),
        }
}

/// There are as many failed plugins as marks of failure.
proof fn lemma_number_of_failures(ls: Seq<GenerateView>)
    ensures
        failures(ls).len() == ls.filter(|l: GenerateView| l is Failure).len(),
    decreases ls.len(),
{
    let p = |l: GenerateView| l is Failure;
    if ls.len() == 0 {
        ls.lemma_filter_len(p);
    } else {
        let k = ls.len() - 1;
        let before = ls.drop_last();
        lemma_number_of_failures(before);
        marked_plugins_are_reported(before);
        seqs::lemma_filter_step(ls, p, k);
        seqs::lemma_take_all(ls);
        assert(ls.take(k) =~= before);
    }
}

/// The lines of a failed plugin are the ordinary lines between the mark of its failure
/// and the next mark or invocation, or the end; as many plugins failed before it as
/// marks come before its own.
pub proof fn lines_belong_to_the_marker_before_them(ls: Seq<GenerateView>, k: int, m: int)
    requires
        0 <= k < m <= ls.len(),
        ls[k] is Failure,
        forall|j: int| k < j < m ==> is_ordinary(#[trigger] ls[j]),
        m < ls.len() ==> !is_ordinary(ls[m]),
    ensures
        ({
            let n = ls.take(k).filter(|l: GenerateView| l is Failure).len() as int;
            &&& n < failures(ls).len()
            &&& failures(ls)[n] == FailedView {
                name: ls[k]->name,
                said: ls[k]->said,
                lines: ls.subrange(k + 1, m).map_values(ordinary_text()),
            }
            &&& m == ls.len() ==> n + 1 == failures(ls).len() && in_failure(ls)
            &&& m < ls.len() && in_failure(ls) ==> n + 1 < failures(ls).len()
        }),
    decreases ls.len(),
{
    let p = |l: GenerateView| l is Failure;
    let before = ls.drop_last();
    let last = ls.last();
    let z = ls.len() - 1;
    if z == k {
        lemma_number_of_failures(before);
        assert(ls.take(k) =~= before);
        assert(ls.subrange(k + 1, m).map_values(ordinary_text()) =~= Seq::empty());
    } else {
        let q = if m < z {
            m
        } else {
            z
        };
        assert forall|j: int| k < j < q implies is_ordinary(#[trigger] before[j]) by {
            assert(before[j] == ls[j]);
        }
        lines_belong_to_the_marker_before_them(before, k, q);
        marked_plugins_are_reported(before);
        assert(before.take(k) =~= ls.take(k));
        assert(ls[z] == last);
        if m == ls.len() {
            assert(is_ordinary(ls[z]));
            assert(ls.subrange(k + 1, m).map_values(ordinary_text()) =~= before.subrange(
                k + 1,
                z,
            ).map_values(ordinary_text()).push(ordinary_text()(last)));
        } else {
            assert(ls.subrange(k + 1, m) =~= before.subrange(k + 1, m));
        }
    }
}

/// Errors belong to no plugin where no mark of failure comes before them after the
/// last invocation. They are gathered in their order.
pub proof fn errors_of_no_plugin_are_gathered(ls: Seq<GenerateView>, l: GenerateView)
    ensures
        bare_errors(ls.push(l)) == if l is Error && !(exists|k: int|
            0 <= k < ls.len() && (#[trigger] ls[k]) is Failure && forall|j: int|
                k < j < ls.len() ==> is_ordinary(#[trigger] ls[j])) {
            bare_errors(ls).push(l->Error_0)
        } else {
            bare_errors(ls)
        },
        bare_errors(Seq::empty()).len() == 0,
{
    assert(ls.push(l).drop_last() =~= ls);
    lemma_in_failure(ls);
}

/// Lines end within the output of a failed plugin where only ordinary lines follow a
/// mark of failure.
proof fn lemma_in_failure(ls: Seq<GenerateView>)
    ensures
        in_failure(ls) <==> exists|k: int|
            0 <= k < ls.len() && (#[trigger] ls[k]) is Failure && forall|j: int|
                k < j < ls.len() ==> is_ordinary(#[trigger] ls[j]),
    decreases ls.len(),
{
    if ls.len() > 0 {
        let before = ls.drop_last();
        let z = ls.len() - 1;
        lemma_in_failure(before);
        if in_failure(ls) {
            if ls[z] is Failure {
                assert(ls[z] is Failure);
            } else {
                let k = choose|k: int|
                    0 <= k < before.len() && (#[trigger] before[k]) is Failure && forall|j: int|
                        k < j < before.len() ==> is_ordinary(#[trigger] before[j]);
                assert(ls[k] is Failure);
                assert forall|j: int| k < j < ls.len() implies is_ordinary(#[trigger] ls[j]) by {
                    if j < z {
                        assert(before[j] == ls[j]);
                    }
                }
            }
        }
        if exists|k: int|
            0 <= k < ls.len() && (#[trigger] ls[k]) is Failure && forall|j: int|
                k < j < ls.len() ==> is_ordinary(#[trigger] ls[j]) {
            let k = choose|k: int|
                0 <= k < ls.len() && (#[trigger] ls[k]) is Failure && forall|j: int|
                    k < j < ls.len() ==> is_ordinary(#[trigger] ls[j]);
            if k < z {
                assert(is_ordinary(ls[z]));
                assert(before[k] is Failure);
                assert forall|j: int| k < j < before.len() implies is_ordinary(
                    #[trigger] before[j],
                ) by {
                    assert(before[j] == ls[j]);
                }
            }
        }
    }
}

// ---------------------------------------------------------------------------
// What the arguments decide
// ---------------------------------------------------------------------------

/// JSON is asked for before the given arguments of a lint run, exactly where none of
/// them is `--error-format`, alone or with a value after an equals sign.
pub proof fn json_is_asked_for_where_no_format_is(args: Seq<Seq<char>>, k: int)
    requires
        0 <= k <= args.len(),
        k < args.len() ==> args[k] == "--error-format"@ || "--error-format="@.is_prefix_of(args[k]),
        k == args.len() ==> forall|i: int|
            0 <= i < args.len() ==> #[trigger] args[i] != "--error-format"@
                && !"--error-format="@.is_prefix_of(args[i]),
    ensures
        lint_args(args) == if k < args.len() {
            args
        } else {
            seq!["--error-format=json"@] + args
        },
{
    if k < args.len() {
        assert(sets_format(args[k]));
    }
}

/// `buf` runs with the given subcommand and arguments. The output of lint, build and
/// generate goes through the filter for it, both streams together; that of any other
/// subcommand is handed on.
pub proof fn arguments_are_handed_on(sub: Seq<char>, rest: Seq<Seq<char>>, verbose: u8)
    ensures
        ({
            let args = seq![sub] + rest;
            let shown = if sub == "lint"@ {
                lint_args(rest)
            } else {
                rest
            };
            match planned(args, verbose) {
                plan::PlanView::Filtered(f) => {
                    &&& f.program == "buf"@
                    &&& f.args == seq![sub] + shown
                    &&& sub == "lint"@ && f.filter is BufLint && f.tee == "buf_lint"@ || sub
                        == "build"@ && f.filter is BufBuild && f.tee == "buf_build"@ || sub
                        == "generate"@ && f.filter is BufGenerate && f.tee == "buf_generate"@
                    &&& !f.stdout_only
                    &&& f.tool == "buf "@ + sub
                    &&& f.shown_args == text::joined(shown, " "@)
                    &&& f.announcement == if verbose == 0 {
                        None
                    } else {
                        Some("Running: buf "@ + sub + " "@ + text::joined(shown, " "@))
                    }
                },
                plan::PlanView::Passthrough(p) => {
                    &&& sub != "lint"@ && sub != "build"@ && sub != "generate"@
                    &&& p.program == "buf"@
                    &&& p.args == args
                    &&& p.failure == "Failed to run buf "@ + sub
                    &&& p.original == "buf "@ + sub
                    &&& p.given == "rtk buf "@ + sub
                    &&& p.label == "buf"@
                    &&& p.announcement == if verbose == 0 {
                        None
                    } else {
                        Some("Running: buf "@ + sub + " ..."@)
                    }
                },
            }
        }),
{
    let args = seq![sub] + rest;
    assert(args[0] == sub);
    assert(args.skip(1) =~= rest);
}

/// A line that names no plugin after `Generating` or `Running plugin` invokes nothing.
pub proof fn an_invocation_needs_a_name(white: Seq<char>, dots: Seq<char>)
    requires
        forall|i: int| 0 <= i < white.len() ==> text::is_white(#[trigger] white[i]),
        forall|i: int| 0 <= i < dots.len() ==> #[trigger] dots[i] == '.',
    ensures
        invocation("Generating "@ + (white + dots)) is None,
        invocation("Running plugin "@ + (white + dots)) is None,
{
    let rest = white + dots;
    if white.len() > 0 {
        assert(text::is_white(white[white.len() - 1]));
    }
    text::only_the_given_character_is_dropped(dots, white, '.');
    text::trimming_takes_white_space_away(white, seq!['a'], white);
    assert(invoked_name(rest).len() == 0);
    text::a_prefix_and_the_rest_are_the_text(rest, "Generating "@);
    text::a_prefix_and_the_rest_are_the_text(rest, "Running plugin "@);
    assert(text::after_prefix("Generating "@ + rest, "Generating "@) == Some(rest));
    assert(text::after_prefix("Running plugin "@ + rest, "Running plugin "@) == Some(rest));
    reveal_strlit("Generating ");
    reveal_strlit("Running plugin ");
    let running = "Running plugin "@ + rest;
    let generating = "Generating "@ + rest;
    assert(running[0] == 'R' && generating[0] == 'G');
    if "Generating "@.is_prefix_of(running) {
        assert(running.subrange(0, "Generating "@.len() as int)[0] == running[0]);
    }
    if "Running plugin "@.is_prefix_of(generating) {
        assert(generating.subrange(0, "Running plugin "@.len() as int)[0] == generating[0]);
    }
}

/// A line, of which `lower` is the lowercase, is an invocation where it names an invoked
/// plugin, else a failure where it marks one, else an error where its words tell of one,
/// else context.
pub proof fn lines_are_classified_in_this_order(l: Seq<char>, lower: Seq<char>)
    ensures
        classified(l, lower) == if invocation(l) is Some {
            GenerateView::Invocation
        } else if failure_marker(l) is Some {
            GenerateView::Failure { name: failure_marker(l)->0, said: marker_text(l) }
        } else if has_words_of_error(l, lower) {
            GenerateView::Error(l)
        } else {
            GenerateView::Context(l)
        },
{
    words_tell_of_an_error(l, lower);
}

/// Each line that says something is taken by itself and with its lowercase, in the order
/// of the lines. What texts in a row say is what the one says and then what the other
/// says.
pub proof fn lines_are_taken_one_by_one(a: Seq<char>, b: Seq<char>, i: int)
    requires
        0 <= i < telling_lines(a).len(),
    ensures
        generate_lines(a).len() == telling_lines(a).len(),
        generate_lines(a)[i] == classified(
            telling_lines(a)[i],
            text::lowered(telling_lines(a)[i]),
        ),
        telling_lines(a + "\n"@ + b) == telling_lines(a) + telling_lines(b),
        generate_lines(a + "\n"@ + b) == generate_lines(a) + generate_lines(b),
{
    lines::content_of_texts_in_a_row(a, b);
    Seq::filter_distributes_over_add(
        lines::content_lines_of(a),
        lines::content_lines_of(b),
        |l: Seq<char>| !is_progress(l),
    );
    assert(generate_lines(a + "\n"@ + b) =~= generate_lines(a) + generate_lines(b));
}

/// Decoded records and classified lines are seen with the texts of their fields.
pub proof fn fields_are_seen_as_texts(i: LintIssue, g: GenerateLine, f: FailedPlugin)
    ensures
        i@ == (LintView {
            path: i.path@,
            line: i.line,
            col: i.col,
            rule: i.rule@,
            message: i.message@,
        }),
        match g {
            GenerateLine::Invocation => g@ is Invocation,
            GenerateLine::Failure { name, said } => g@ == (GenerateView::Failure {
                name: name@,
                said: said@,
            }),
            GenerateLine::Error(l) => g@ == GenerateView::Error(l@),
            GenerateLine::Context(l) => g@ == GenerateView::Context(l@),
        },
        f@ == (FailedView { name: f.name@, said: f.said@, lines: text::texts(f.lines@) }),
{
}

} // verus!
