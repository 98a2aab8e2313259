//! `goreleaser`: section headers, failures and the closing summary; progress is
//! left out.

use crate::ansi;
use crate::lines;
use crate::plan;
use crate::plan::{Filter, Filtered, Plan};
use crate::report;
use crate::seqs;
use crate::text;
use vstd::prelude::*;

verus! {

// ---------------------------------------------------------------------------
// What to run
// ---------------------------------------------------------------------------

/// The subcommand among the arguments: the first that does not begin with a dash;
/// `release` where there is none.
pub open spec fn subcommand_of(args: Seq<Seq<char>>) -> Seq<char>
    decreases args.len(),
{
    if args.len() == 0 {
        "release"@
    } else if args[0].len() > 0 && args[0][0] == '-' {
        subcommand_of(args.skip(1))
    } else {
        args[0]
    }
}

/// Finds the subcommand among the arguments.
pub fn subcommand(args: &[String]) -> (r: String)
    ensures
        r@ == subcommand_of(text::texts(args@)),
{
    let n: usize = args.len();
    let ghost all = text::texts(args@);
    assert(all.skip(0) =~= all);
    for i in 0..n
        invariant
            n == args@.len(),
            all == text::texts(args@),
            subcommand_of(all) == subcommand_of(all.skip(i as int)),
    {
        assert(all.skip(i as int)[0] == args@[i as int]@);
        assert(all.skip(i as int).skip(1) =~= all.skip(i + 1));
        if !text::starts_with_char(args[i].as_str(), '-') {
            return args[i].clone();
        }
    }
    "release".to_owned()
}

/// What `goreleaser` with the given arguments runs.
pub open spec fn planned(args: Seq<Seq<char>>, verbose: u8) -> plan::PlanView {
    plan::PlanView::Filtered(
        plan::FilteredView {
            program: "goreleaser"@,
            args,
            announcement: plan::announced(
                verbose,
                "Running: goreleaser "@ + text::joined(args, " "@),
            ),
            tool: "goreleaser"@,
            shown_args: text::joined(args, " "@),
            filter: plan::FilterView::Goreleaser(subcommand_of(args)),
            stdout_only: false,
            tee: "goreleaser"@,
        },
    )
}

/// Plans what `goreleaser` with the given arguments runs.
pub fn run(args: &[String], verbose: u8) -> (r: Plan)
    ensures
        r@ == planned(text::texts(args@), verbose),
{
    let shown = text::join(args, " ");
    Plan::Filtered(
        Filtered {
            program: "goreleaser".to_owned(),
            args: text::copy_all(args),
            announcement: plan::announce(verbose, "Running: goreleaser ", shown.as_str()),
            tool: "goreleaser".to_owned(),
            shown_args: shown,
            filter: Filter::Goreleaser(subcommand(args)),
            stdout_only: false,
            tee: "goreleaser".to_owned(),
        },
    )
}

// ---------------------------------------------------------------------------
// Kinds of lines
// ---------------------------------------------------------------------------

/// What a line says after its bullets; `None` for a line without a bullet.
pub open spec fn bulleted(l: Seq<char>) -> Option<Seq<char>> {
    let t = text::trimmed_start(l);
    if t.len() > 0 && t[0] == '•' {
        Some(text::trimmed(text::drop_leading(t, text::equals('•'))))
    } else {
        None
    }
}

fn after_bullet(line: &str) -> (r: Option<String>)
    ensures
        text::opt_text(r) == bulleted(line@),
{
    let t = text::trim_start(line);
    if text::starts_with_char(t.as_str(), '•') {
        let rest = text::trim_start_matches(t.as_str(), '•');
        Some(text::trim(rest.as_str()))
    } else {
        None
    }
}

/// Whether a bulleted text with this lowercase tells of work under way.
pub open spec fn tells_progress(lower: Seq<char>) -> bool {
    ||| "building"@.is_prefix_of(lower)
    ||| "packaging"@.is_prefix_of(lower)
    ||| "signing"@.is_prefix_of(lower)
    ||| "publishing"@.is_prefix_of(lower)
    ||| "loading"@.is_prefix_of(lower)
    ||| "cleaning"@.is_prefix_of(lower)
    ||| "running before"@.is_prefix_of(lower)
    ||| "snapshotting"@.is_prefix_of(lower)
    ||| "caching"@.is_prefix_of(lower)
}

/// Whether a bulleted text tells of work under way, given its lowercase.
pub fn is_progress_text(lower: &str) -> (r: bool)
    ensures
        r == tells_progress(lower@),
{
    text::starts_with(lower, "building") || text::starts_with(lower, "packaging")
        || text::starts_with(lower, "signing") || text::starts_with(lower, "publishing")
        || text::starts_with(lower, "loading") || text::starts_with(lower, "cleaning")
        || text::starts_with(lower, "running before") || text::starts_with(lower, "snapshotting")
        || text::starts_with(lower, "caching")
}

/// Whether a line tells of work under way: a bullet and a verb of progress.
pub open spec fn is_progress(l: Seq<char>) -> bool {
    match bulleted(l) {
        Some(rest) => tells_progress(text::lowered(rest)),
        None => false,
    }
}

/// Whether a line tells of work under way.
pub fn is_progress_line(line: &str) -> (r: bool)
    ensures
        r == is_progress(line@),
{
    match after_bullet(line) {
        Some(rest) => {
            let lower = rest.as_str().to_lowercase();
            is_progress_text(lower.as_str())
        },
        None => false,
    }
}

/// Whether a line that begins without white space, of which `lower` is the
/// lowercase, tells of a failure.
pub open spec fn tells_failure(t: Seq<char>, lower: Seq<char>) -> bool {
    ||| t.len() > 0 && t[0] == '⨯'
    ||| "error:"@.is_prefix_of(lower)
    ||| text::has_text(t, "FAILED"@)
}

/// Whether a line that begins without white space tells of a failure, given its
/// lowercase.
pub fn is_failure_text(trimmed: &str, lower: &str) -> (r: bool)
    ensures
        r == tells_failure(trimmed@, lower@),
{
    text::starts_with_char(trimmed, '⨯') || text::starts_with(lower, "error:") || text::contains(
        trimmed,
        "FAILED",
    )
}

/// Whether a line tells of a failure.
pub open spec fn is_failure(l: Seq<char>) -> bool {
    let t = text::trimmed_start(l);
    tells_failure(t, text::lowered(t))
}

/// Whether a line tells of a failure: `⨯`, `error:` in any case, or `FAILED`.
pub fn is_failure_line(line: &str) -> (r: bool)
    ensures
        r == is_failure(line@),
{
    let t = text::trim_start(line);
    let lower = t.as_str().to_lowercase();
    is_failure_text(t.as_str(), lower.as_str())
}

/// Whether a line is a section header.
pub open spec fn is_header(l: Seq<char>) -> bool {
    let t = text::trimmed_start(l);
    t.len() > 0 && t[0] == '▶'
}

/// Whether a line is a section header: it begins with `▶`.
pub fn is_section_header(line: &str) -> (r: bool)
    ensures
        r == is_header(line@),
{
    let t = text::trim_start(line);
    text::starts_with_char(t.as_str(), '▶')
}

/// Whether a text counts artifacts: a number, and the word.
pub open spec fn counts_artifacts(s: Seq<char>) -> bool {
    &&& s.len() > 0
    &&& '0' <= s[0] && s[0] <= '9'
    &&& text::has_text(s, "artifact"@)
}

/// Whether a bulleted text with this lowercase tells of completion.
pub open spec fn tells_completion(lower: Seq<char>) -> bool {
    ||| "release succeeded"@.is_prefix_of(lower)
    ||| "ran successfully"@.is_prefix_of(lower)
    ||| text::has_text(lower, "succeeded after"@)
    ||| match text::after_prefix(lower, "built "@) {
        Some(rest) => counts_artifacts(rest),
        None => false,
    }
}

/// Whether a bulleted text tells of completion, given its lowercase.
pub fn is_completion_text(lower: &str) -> (r: bool)
    ensures
        r == tells_completion(lower@),
{
    if text::starts_with(lower, "release succeeded") || text::starts_with(lower, "ran successfully")
        || text::contains(lower, "succeeded after") {
        return true;
    }
    match text::without_prefix(lower, "built ") {
        Some(rest) => {
            let cs = text::chars(rest.as_str());
            cs.len() > 0 && '0' <= cs[0] && cs[0] <= '9' && text::contains(
                rest.as_str(),
                "artifact",
            )
        },
        None => false,
    }
}

/// Whether a line is a success summary.
pub open spec fn is_summary(l: Seq<char>) -> bool {
    match bulleted(l) {
        Some(rest) => tells_completion(text::lowered(rest)),
        None => false,
    }
}

/// Whether a line is a success summary: a bullet and a phrase of completion.
pub fn is_success_summary(line: &str) -> (r: bool)
    ensures
        r == is_summary(line@),
{
    match after_bullet(line) {
        Some(rest) => {
            let lower = rest.as_str().to_lowercase();
            is_completion_text(lower.as_str())
        },
        None => false,
    }
}

// ---------------------------------------------------------------------------
// The report
// ---------------------------------------------------------------------------

/// What a line of a run says.
pub enum ReleaseLine {
    Failure(String),
    Summary(String),
    Section(String),
    /// Progress, or anything else that is not reported.
    Noise,
}

/// What a line of a run says, as texts.
pub enum ReleaseView {
    Failure(Seq<char>),
    Summary(Seq<char>),
    Section(Seq<char>),
    Noise,
}

impl View for ReleaseLine {
    type V = ReleaseView;

    open spec fn view(&self) -> ReleaseView {
        match self {
            ReleaseLine::Failure(l) => ReleaseView::Failure(l@),
            ReleaseLine::Summary(l) => ReleaseView::Summary(l@),
            ReleaseLine::Section(l) => ReleaseView::Section(l@),
            ReleaseLine::Noise => ReleaseView::Noise,
        }
    }
}

/// What the lines of a run say, as texts.
pub open spec fn release_views(v: Seq<ReleaseLine>) -> Seq<ReleaseView> {
    v.map_values(|l: ReleaseLine| l@)
}

/// What a trimmed line says. A failure is one whatever else it may be; then comes
/// a summary, then a header.
pub open spec fn said(l: Seq<char>) -> ReleaseView {
    if is_failure(l) {
        ReleaseView::Failure(l)
    } else if is_summary(l) {
        ReleaseView::Summary(l)
    } else if is_header(l) {
        ReleaseView::Section(l)
    } else {
        ReleaseView::Noise
    }
}

/// What the lines of an output say.
pub open spec fn release_lines(input: Seq<char>) -> Seq<ReleaseView> {
    lines::content_lines_of(ansi::without_escapes(input)).map_values(|l: Seq<char>| said(l))
}

/// The header that a line is, if it is one, as a mapping.
pub open spec fn section_header() -> spec_fn(ReleaseView) -> Option<Seq<char>> {
    |l: ReleaseView|
        match l {
            ReleaseView::Section(t) => Some(t),
            _ => None,
        }
}

/// The failure that a line tells of, if it does, as a mapping.
pub open spec fn reported_failure() -> spec_fn(ReleaseView) -> Option<Seq<char>> {
    |l: ReleaseView|
        match l {
            ReleaseView::Failure(t) => Some(t),
            _ => None,
        }
}

/// The section headers.
pub open spec fn sections_in(ls: Seq<ReleaseView>) -> Seq<Seq<char>> {
    ls.filter_map(section_header())
}

/// The failures.
pub open spec fn failures_in(ls: Seq<ReleaseView>) -> Seq<Seq<char>> {
    ls.filter_map(reported_failure())
}

/// The last summary.
pub open spec fn last_summary(ls: Seq<ReleaseView>) -> Option<Seq<char>>
    decreases ls.len(),
{
    if ls.len() == 0 {
        None
    } else {
        match ls.last() {
            ReleaseView::Summary(t) => Some(t),
            _ => last_summary(ls.drop_last()),
        }
    }
}

/// The row of a line.
pub open spec fn row(l: Seq<char>) -> Seq<char> {
    "  "@ + l + "\n"@
}

/// How a run came out, in words.
pub open spec fn outcome_of(failed: bool) -> Seq<char> {
    if failed {
        " FAILED"@
    } else {
        " succeeded"@
    }
}

/// The row of the last summary, where there is one.
pub open spec fn closing_row(ls: Seq<ReleaseView>) -> Seq<char> {
    match last_summary(ls) {
        Some(t) => row(t),
        None => Seq::empty(),
    }
}

/// The report of a run of a subcommand: whether it failed, the section headers,
/// the failures, and the last summary.
pub open spec fn release_report(ls: Seq<ReleaseView>, sub: Seq<char>) -> Seq<char> {
    text::trimmed_end(
        "goreleaser: "@ + sub + outcome_of(failures_in(ls).len() > 0) + "\n"@ + sections_in(
            ls,
        ).flat_map(|l: Seq<char>| row(l)) + failures_in(ls).flat_map(|l: Seq<char>| row(l))
            + closing_row(ls),
    )
}

fn push_row(out: &mut String, l: &str)
    ensures
        final(out)@ == old(out)@ + row(l@),
{
    let ghost before = out@;
    out.append("  ");
    out.append(l);
    out.append("\n");
    assert(out@ =~= before + row(l@));
}

fn push_rows(out: &mut String, items: &Vec<String>)
    ensures
        final(out)@ == old(out)@ + text::texts(items@).flat_map(|l: Seq<char>| row(l)),
{
    let ghost start = out@;
    let ghost all = text::texts(items@);
    let ghost f = |l: Seq<char>| row(l);
    proof {
        seqs::lemma_rows_none(all, f);
        assert(out@ =~= start + all.take(0).flat_map(f));
    }
    for i in 0..items.len()
        invariant
            all == text::texts(items@),
            f == (|l: Seq<char>| row(l)),
            out@ == start + all.take(i as int).flat_map(f),
    {
        push_row(out, items[i].as_str());
        proof {
            seqs::lemma_rows_step(all, f, i as int);
            assert(all[i as int] == items@[i as int]@);
            assert(out@ =~= start + all.take(i + 1).flat_map(f));
        }
    }
    proof {
        seqs::lemma_take_all(all);
    }
}

/// Reports a run of a subcommand, given what its lines say.
pub fn summarize_release(kinds: &Vec<ReleaseLine>, subcommand: &str) -> (r: String)
    ensures
        r@ == release_report(release_views(kinds@), subcommand@),
{
    let ghost ls = release_views(kinds@);
    let ghost fs = section_header();
    let ghost ff = reported_failure();
    let mut sections: Vec<String> = Vec::new();
    let mut failures: Vec<String> = Vec::new();
    let mut summary: Option<String> = None;
    proof {
        assert(text::texts(sections@) =~= ls.take(0).filter_map(fs));
        assert(text::texts(failures@) =~= ls.take(0).filter_map(ff));
    }
    for i in 0..kinds.len()
        invariant
            ls == release_views(kinds@),
            fs == section_header(),
            ff == reported_failure(),
            text::texts(sections@) == ls.take(i as int).filter_map(fs),
            text::texts(failures@) == ls.take(i as int).filter_map(ff),
            text::opt_text(summary) == last_summary(ls.take(i as int)),
    {
        let ghost headed = text::texts(sections@);
        let ghost failed = text::texts(failures@);
        proof {
            ls.lemma_filter_map_take_succ(fs, i as int);
            ls.lemma_filter_map_take_succ(ff, i as int);
            assert(ls.take(i + 1).drop_last() =~= ls.take(i as int));
            assert(ls.take(i + 1).last() == kinds@[i as int]@);
            assert(headed + Seq::<Seq<char>>::empty() =~= headed);
            assert(failed + Seq::<Seq<char>>::empty() =~= failed);
        }
        match &kinds[i] {
            ReleaseLine::Failure(l) => {
                failures.push(l.clone());
                assert(text::texts(failures@) =~= failed + seq![l@]);
            },
            ReleaseLine::Summary(l) => {
                summary = Some(l.clone());
            },
            ReleaseLine::Section(l) => {
                sections.push(l.clone());
                assert(text::texts(sections@) =~= headed + seq![l@]);
            },
            ReleaseLine::Noise => {},
        }
    }
    proof {
        seqs::lemma_take_all(ls);
        assert(failures_in(ls).len() == failures@.len());
    }
    let mut out = plan::concat2("goreleaser: ", subcommand);
    out.append(
        if failures.len() > 0 {
            " FAILED"
        } else {
            " succeeded"
        },
    );
    out.append("\n");
    push_rows(&mut out, &sections);
    push_rows(&mut out, &failures);
    let ghost listed = out@;
    if let Some(s) = &summary {
        push_row(&mut out, s.as_str());
    } else {
        assert(out@ =~= listed + Seq::<char>::empty());
    }
    text::trim_end(out.as_str())
}

/// Filters the output of a `goreleaser` subcommand.
pub fn filter_goreleaser(input: &str, subcommand: &str) -> (r: String)
    ensures
        r@ == release_report(release_lines(input@), subcommand@),
{
    let plain = ansi::strip_ansi(input);
    let content = lines::content_lines(plain.as_str());
    let mut kinds: Vec<ReleaseLine> = Vec::new();
    let ghost all = release_lines(input@);
    let ghost ls = text::texts(content@);
    for i in 0..content.len()
        invariant
            ls == text::texts(content@),
            ls == lines::content_lines_of(ansi::without_escapes(input@)),
            all == release_lines(input@),
            release_views(kinds@) == all.take(i as int),
    {
        let ghost done = release_views(kinds@);
        let line = content[i].as_str();
        let k = if is_failure_line(line) {
            ReleaseLine::Failure(line.to_owned())
        } else if is_success_summary(line) {
            ReleaseLine::Summary(line.to_owned())
        } else if is_section_header(line) {
            ReleaseLine::Section(line.to_owned())
        } else {
            ReleaseLine::Noise
        };
        kinds.push(k);
        proof {
            assert(ls[i as int] == line@);
            assert(k@ == said(line@));
            assert(release_views(kinds@) =~= done.push(k@));
            assert(all.take(i + 1) =~= all.take(i as int).push(k@));
        }
    }
    proof {
        seqs::lemma_take_all(all);
    }
    summarize_release(&kinds, subcommand)
}

/// A line that tells of a failure is among the failures, one that begins a section
/// is among the sections, and a summary is reported; each only where it is not one
/// of the former.
pub proof fn telling_lines_are_kept(input: Seq<char>, i: int)
    requires
        0 <= i < lines::content_lines_of(ansi::without_escapes(input)).len(),
    ensures
        ({
            let l = lines::content_lines_of(ansi::without_escapes(input))[i];
            let ls = release_lines(input);
            &&& is_failure(l) ==> failures_in(ls).contains(l)
            &&& !is_failure(l) && is_summary(l) ==> last_summary(ls) is Some
            &&& !is_failure(l) && !is_summary(l) && is_header(l) ==> sections_in(ls).contains(l)
        }),
{
    let l = lines::content_lines_of(ansi::without_escapes(input))[i];
    let ls = release_lines(input);
    assert(ls[i] == said(l));
    if is_failure(l) {
        seqs::lemma_filter_map_keeps(ls, i, reported_failure());
    } else if is_summary(l) {
        lemma_some_summary(ls, i);
    } else if is_header(l) {
        seqs::lemma_filter_map_keeps(ls, i, section_header());
    }
}

/// Where there is a summary, there is a last one.
proof fn lemma_some_summary(ls: Seq<ReleaseView>, i: int)
    requires
        0 <= i < ls.len(),
        ls[i] is Summary,
    ensures
        last_summary(ls) is Some,
    decreases ls.len(),
{
    if i < ls.len() - 1 {
        lemma_some_summary(ls.drop_last(), i);
    }
}

/// A failure, a section header or a reported summary is a line of the output.
proof fn lemma_reported_line(input: Seq<char>, t: Seq<char>)
    requires
        failures_in(release_lines(input)).contains(t) || sections_in(release_lines(input)).contains(
            t,
        ) || last_summary(release_lines(input)) == Some(t),
    ensures
        lines::content_lines_of(ansi::without_escapes(input)).contains(t),
{
    let ls = release_lines(input);
    let all = lines::content_lines_of(ansi::without_escapes(input));
    let ff = reported_failure();
    let fs = section_header();
    let k = if failures_in(ls).contains(t) {
        ls.lemma_filter_map_contains(ff, t);
        let x = choose|x: ReleaseView| #[trigger] ls.contains(x) && ff(x) == Some(t);
        ls.index_of(x)
    } else if sections_in(ls).contains(t) {
        ls.lemma_filter_map_contains(fs, t);
        let x = choose|x: ReleaseView| #[trigger] ls.contains(x) && fs(x) == Some(t);
        ls.index_of(x)
    } else {
        lemma_summary_place(ls)
    };
    assert(ls[k] == said(all[k]));
    assert(all[k] == t);
}

/// Where the last summary stands.
proof fn lemma_summary_place(ls: Seq<ReleaseView>) -> (k: int)
    requires
        last_summary(ls) is Some,
    ensures
        0 <= k < ls.len(),
        ls[k] == ReleaseView::Summary(last_summary(ls)->0),
    decreases ls.len(),
{
    if ls.last() is Summary {
        ls.len() - 1
    } else {
        lemma_summary_place(ls.drop_last())
    }
}

/// The report shows every section header, every failure and the last summary.
pub proof fn telling_lines_are_shown(input: Seq<char>, sub: Seq<char>, t: Seq<char>)
    requires
        failures_in(release_lines(input)).contains(t) || sections_in(release_lines(input)).contains(
            t,
        ) || last_summary(release_lines(input)) == Some(t),
    ensures
        text::has_text(release_report(release_lines(input), sub), t),
{
    let ls = release_lines(input);
    let all = lines::content_lines_of(ansi::without_escapes(input));
    let f = |l: Seq<char>| row(l);
    let any = |c: char| true;
    let outcome = outcome_of(failures_in(ls).len() > 0);
    let closing = closing_row(ls);
    let head = "goreleaser: "@ + sub + outcome + "\n"@;
    let sections = sections_in(ls).flat_map(f);
    let failures = failures_in(ls).flat_map(f);
    lemma_reported_line(input, t);
    lines::lemma_content_chars(ansi::without_escapes(input), any);
    assert(all[all.index_of(t)] == t);
    text::lemma_middle_part("  "@, t, "\n"@);
    if failures_in(ls).contains(t) {
        let k = failures_in(ls).index_of(t);
        report::lemma_row_is_shown(head + sections, failures_in(ls), f, closing, k, t);
    } else if sections_in(ls).contains(t) {
        let k = sections_in(ls).index_of(t);
        report::lemma_row_is_shown(head, sections_in(ls), f, failures + closing, k, t);
        assert(head + sections + (failures + closing) =~= head + sections + failures + closing);
    } else {
        report::lemma_ending_is_shown(head + sections + failures, closing, t);
    }
}

/// Lines that are not reported make no difference to the last summary.
proof fn lemma_summary_drops(
    before: Seq<ReleaseView>,
    noise: Seq<ReleaseView>,
    after: Seq<ReleaseView>,
)
    requires
        forall|i: int| 0 <= i < noise.len() ==> (#[trigger] noise[i]) is Noise,
    ensures
        last_summary(before + noise + after) == last_summary(before + after),
    decreases noise.len() + after.len(),
{
    let noisy = before + noise + after;
    let plain = before + after;
    if after.len() > 0 {
        assert(noisy.drop_last() =~= before + noise + after.drop_last());
        assert(plain.drop_last() =~= before + after.drop_last());
        lemma_summary_drops(before, noise, after.drop_last());
    } else if noise.len() > 0 {
        assert(noise[noise.len() - 1] is Noise);
        assert(noisy.last() == noise.last());
        assert(noisy.drop_last() =~= before + noise.drop_last() + after);
        lemma_summary_drops(before, noise.drop_last(), after);
    } else {
        assert(noisy =~= plain);
    }
}

/// Progress, and anything else that is not reported, makes no difference to the
/// report of a run.
pub proof fn release_noise_is_dropped(
    before: Seq<ReleaseView>,
    noise: Seq<ReleaseView>,
    after: Seq<ReleaseView>,
    sub: Seq<char>,
)
    requires
        forall|i: int| 0 <= i < noise.len() ==> (#[trigger] noise[i]) is Noise,
    ensures
        release_report(before + noise + after, sub) == release_report(before + after, sub),
{
    seqs::lemma_filter_map_drops(before, noise, after, section_header());
    seqs::lemma_filter_map_drops(before, noise, after, reported_failure());
    lemma_summary_drops(before, noise, after);
}

/// Lines that are blank or not reported, put in anywhere among the lines of an
/// output, make no difference to the report of a run, with or without escape
/// sequences in them.
pub proof fn noise_makes_no_difference(
    plain: Seq<char>,
    noise: Seq<char>,
    noisy: Seq<char>,
    sub: Seq<char>,
)
    requires
        lines::lines_inserted(plain, noise, noisy),
        forall|i: int|
            0 <= i < release_lines(noise).len() ==> (#[trigger] release_lines(noise)[i]) is Noise,
    ensures
        release_report(release_lines(noisy), sub) == release_report(release_lines(plain), sub),
{
    ansi::lemma_inserted_lines_stripped(plain, noise, noisy);
    let (before, after) = lines::lemma_content_inserted(
        ansi::without_escapes(plain),
        ansi::without_escapes(noise),
        ansi::without_escapes(noisy),
    );
    let c = |l: Seq<char>| said(l);
    let a = before.map_values(c);
    let b = after.map_values(c);
    assert(release_lines(plain) =~= a + b);
    assert(release_lines(noisy) =~= a + release_lines(noise) + b);
    release_noise_is_dropped(a, release_lines(noise), b, sub);
}

/// A run is reported as failed exactly where some line tells of a failure.
pub proof fn a_failure_fails_the_run(input: Seq<char>, sub: Seq<char>)
    ensures
        ({
            let all = lines::content_lines_of(ansi::without_escapes(input));
            let report = release_report(release_lines(input), sub);
            if exists|i: int| 0 <= i < all.len() && is_failure(#[trigger] all[i]) {
                ("goreleaser: "@ + sub + " FAILED"@).is_prefix_of(report)
            } else {
                ("goreleaser: "@ + sub + " succeeded"@).is_prefix_of(report)
            }
        }),
{
    let ls = release_lines(input);
    let all = lines::content_lines_of(ansi::without_escapes(input));
    let f = |l: Seq<char>| row(l);
    let failed = exists|i: int| 0 <= i < all.len() && is_failure(#[trigger] all[i]);
    if failed {
        let i = choose|i: int| 0 <= i < all.len() && is_failure(#[trigger] all[i]);
        telling_lines_are_kept(input, i);
    } else if failures_in(ls).len() > 0 {
        let t = failures_in(ls)[0];
        let ff = reported_failure();
        assert(ls.filter_map(ff).contains(t));
        ls.lemma_filter_map_contains(ff, t);
        let x = choose|x: ReleaseView| #[trigger] ls.contains(x) && ff(x) == Some(t);
        let k = ls.index_of(x);
        assert(ls[k] == said(all[k]));
        assert(is_failure(all[k]));
    }
    let outcome = outcome_of(failed);
    let closing = closing_row(ls);
    let title = "goreleaser: "@ + sub + outcome;
    let whole = title + "\n"@ + sections_in(ls).flat_map(f) + failures_in(ls).flat_map(f)
        + closing;
    reveal_strlit(" FAILED");
    reveal_strlit(" succeeded");
    text::lemma_trimmed_end(whole);
    assert(whole[title.len() - 1] == outcome.last());
    assert(text::trimmed_end(whole).len() >= title.len());
    assert(text::trimmed_end(whole).subrange(0, title.len() as int) =~= title);
}

/// The row of a plain line is plain.
proof fn lemma_plain_row(l: Seq<char>)
    requires
        text::every(l, ansi::plains()),
    ensures
        text::every(row(l), ansi::plains()),
{
    reveal_strlit("  ");
    reveal_strlit("\n");
    text::lemma_sum_chars("  "@, l, ansi::plains());
    text::lemma_sum_chars("  "@ + l, "\n"@, ansi::plains());
}

/// The rows of plain lines are plain.
proof fn lemma_plain_rows(ls: Seq<Seq<char>>)
    requires
        forall|i: int| 0 <= i < ls.len() ==> text::every(#[trigger] ls[i], ansi::plains()),
    ensures
        text::every(ls.flat_map(|l: Seq<char>| row(l)), ansi::plains()),
{
    let f = |l: Seq<char>| row(l);
    assert forall|i: int| 0 <= i < ls.len() implies text::every(
        f(#[trigger] ls[i]),
        ansi::plains(),
    ) by {
        lemma_plain_row(ls[i]);
    }
    report::lemma_rows_chars(ls, f, ansi::plains());
}

/// The report holds no terminal escape, where every escape character of the output
/// begins an escape sequence and the subcommand holds none.
pub proof fn report_is_free_of_escapes(input: Seq<char>, sub: Seq<char>)
    requires
        ansi::well_escaped(input),
        text::every(sub, ansi::plains()),
    ensures
        text::every(release_report(release_lines(input), sub), ansi::plains()),
{
    let p = ansi::plains();
    let plain = ansi::without_escapes(input);
    let all = lines::content_lines_of(plain);
    let ls = release_lines(input);
    ansi::no_escape_is_left(input);
    lines::lemma_content_chars(plain, p);
    assert forall|t: Seq<char>|
        failures_in(ls).contains(t) || sections_in(ls).contains(t) || last_summary(ls) == Some(
            t,
        ) implies text::every(t, p) by {
        lemma_reported_line(input, t);
        assert(all[all.index_of(t)] == t);
    }
    assert forall|i: int| 0 <= i < failures_in(ls).len() implies text::every(
        #[trigger] failures_in(ls)[i],
        p,
    ) by {
        assert(failures_in(ls).contains(failures_in(ls)[i]));
    }
    assert forall|i: int| 0 <= i < sections_in(ls).len() implies text::every(
        #[trigger] sections_in(ls)[i],
        p,
    ) by {
        assert(sections_in(ls).contains(sections_in(ls)[i]));
    }
    let outcome = outcome_of(failures_in(ls).len() > 0);
    let closing = closing_row(ls);
    let sections = sections_in(ls).flat_map(|l: Seq<char>| row(l));
    let failures = failures_in(ls).flat_map(|l: Seq<char>| row(l));
    if last_summary(ls) is Some {
        lemma_plain_row(last_summary(ls)->0);
    }
    lemma_plain_rows(sections_in(ls));
    lemma_plain_rows(failures_in(ls));
    reveal_strlit("goreleaser: ");
    reveal_strlit(" FAILED");
    reveal_strlit(" succeeded");
    reveal_strlit("\n");
    let title = "goreleaser: "@ + sub;
    text::lemma_sum_chars("goreleaser: "@, sub, p);
    text::lemma_sum_chars(title, outcome, p);
    text::lemma_sum_chars(title + outcome, "\n"@, p);
    let head = title + outcome + "\n"@;
    text::lemma_sum_chars(head, sections, p);
    text::lemma_sum_chars(head + sections, failures, p);
    text::lemma_sum_chars(head + sections + failures, closing, p);
    let whole = head + sections + failures + closing;
    text::lemma_trimmed_end(whole);
    let report = text::trimmed_end(whole);
    assert forall|i: int| 0 <= i < report.len() implies p(#[trigger] report[i]) by {
        assert(report[i] == whole[i]);
    }
}

// ---------------------------------------------------------------------------
// What the marks of a line decide
// ---------------------------------------------------------------------------

/// The lines of an output that a report is made of: without escape sequences and
/// without the white space around them.
pub open spec fn plain_lines(input: Seq<char>) -> Seq<Seq<char>> {
    lines::content_lines_of(ansi::without_escapes(input))
}

/// A trimmed line begins where it begins.
proof fn lemma_plain_line(input: Seq<char>, i: int)
    requires
        0 <= i < plain_lines(input).len(),
    ensures
        plain_lines(input)[i].len() > 0,
        text::trimmed_start(plain_lines(input)[i]) == plain_lines(input)[i],
        release_lines(input)[i] == said(plain_lines(input)[i]),
        release_lines(input).len() == plain_lines(input).len(),
{
    let any = |c: char| true;
    lines::lemma_content_chars(ansi::without_escapes(input), any);
    let l = plain_lines(input)[i];
    assert(l.len() > 0 && !text::is_white(l[0]));
}

/// A line that begins with `⨯`, or with `error:` in any case, or that holds `FAILED`,
/// fails the run, and the report shows it.
pub proof fn marks_of_failure_fail_the_run(input: Seq<char>, sub: Seq<char>, i: int)
    requires
        0 <= i < plain_lines(input).len(),
        plain_lines(input)[i][0] == '⨯' || "error:"@.is_prefix_of(
            text::lowered(plain_lines(input)[i]),
        ) || text::has_text(plain_lines(input)[i], "FAILED"@),
    ensures
        ("goreleaser: "@ + sub + " FAILED"@).is_prefix_of(
            release_report(release_lines(input), sub),
        ),
        text::has_text(release_report(release_lines(input), sub), plain_lines(input)[i]),
{
    let l = plain_lines(input)[i];
    lemma_plain_line(input, i);
    assert(is_failure(l));
    telling_lines_are_kept(input, i);
    telling_lines_are_shown(input, sub, l);
    a_failure_fails_the_run(input, sub);
}

/// A run succeeds where no line begins with `⨯` or, in any case, with `error:`, and
/// none holds `FAILED`.
pub proof fn without_a_mark_the_run_succeeds(input: Seq<char>, sub: Seq<char>)
    requires
        forall|i: int|
            0 <= i < plain_lines(input).len() ==> {
                let l = #[trigger] plain_lines(input)[i];
                l[0] != '⨯' && !"error:"@.is_prefix_of(text::lowered(l)) && !text::has_text(
                    l,
                    "FAILED"@,
                )
            },
    ensures
        ("goreleaser: "@ + sub + " succeeded"@).is_prefix_of(
            release_report(release_lines(input), sub),
        ),
{
    let all = plain_lines(input);
    assert forall|i: int| 0 <= i < all.len() implies !is_failure(#[trigger] all[i]) by {
        lemma_plain_line(input, i);
    }
    a_failure_fails_the_run(input, sub);
}

/// A line that begins with `▶` is shown, whether the run failed or not.
pub proof fn section_headers_are_shown(input: Seq<char>, sub: Seq<char>, i: int)
    requires
        0 <= i < plain_lines(input).len(),
        plain_lines(input)[i][0] == '▶',
    ensures
        text::has_text(release_report(release_lines(input), sub), plain_lines(input)[i]),
{
    let l = plain_lines(input)[i];
    lemma_plain_line(input, i);
    telling_lines_are_kept(input, i);
    assert(is_header(l) && !is_summary(l));
    telling_lines_are_shown(input, sub, l);
}

/// What a line says after its bullets is what stands between the white space around
/// it.
pub proof fn bullets_are_taken_off(
    indent: Seq<char>,
    bullets: Seq<char>,
    gap: Seq<char>,
    rest: Seq<char>,
    tail: Seq<char>,
)
    requires
        forall|i: int| 0 <= i < indent.len() ==> text::is_white(#[trigger] indent[i]),
        bullets.len() > 0,
        forall|i: int| 0 <= i < bullets.len() ==> #[trigger] bullets[i] == '•',
        forall|i: int| 0 <= i < gap.len() ==> text::is_white(#[trigger] gap[i]),
        rest.len() > 0,
        rest[0] != '•' || gap.len() > 0,
        !text::is_white(rest[0]),
        !text::is_white(rest.last()),
        forall|i: int| 0 <= i < tail.len() ==> text::is_white(#[trigger] tail[i]),
    ensures
        bulleted(indent + bullets + gap + rest + tail) == Some(rest),
{
    let l = indent + bullets + gap + rest + tail;
    let told = gap + rest + tail;
    let t = bullets + told;
    assert(t[0] == bullets[0]);
    text::only_outer_characters_are_dropped(indent, t, text::whites());
    assert(l =~= indent + t);
    if gap.len() > 0 {
        assert(told[0] == gap[0]);
        assert(text::is_white(gap[0]));
    } else {
        assert(told[0] == rest[0]);
    }
    text::only_the_given_character_is_dropped(bullets, told, '•');
    text::trimming_takes_white_space_away(gap, rest, tail);
}

/// A line without a bullet at its beginning tells neither of progress nor of
/// completion.
pub proof fn only_bullets_tell_of_progress(indent: Seq<char>, l: Seq<char>)
    requires
        forall|i: int| 0 <= i < indent.len() ==> text::is_white(#[trigger] indent[i]),
        l.len() == 0 || (!text::is_white(l[0]) && l[0] != '•'),
    ensures
        bulleted(indent + l) is None,
        !is_progress(indent + l),
        !is_summary(indent + l),
{
    text::only_outer_characters_are_dropped(indent, l, text::whites());
}

/// The verbs that tell of work under way.
pub open spec fn verbs_of_progress() -> Seq<Seq<char>> {
    seq![
        "building"@,
        "packaging"@,
        "signing"@,
        "publishing"@,
        "loading"@,
        "cleaning"@,
        "running before"@,
        "snapshotting"@,
        "caching"@,
    ]
}

/// A text in lowercase tells of work under way exactly where it begins with one of the
/// verbs of progress, and a line where it says such a text after its bullets, in any
/// case.
pub proof fn verbs_tell_of_progress(
    indent: Seq<char>,
    bullets: Seq<char>,
    gap: Seq<char>,
    rest: Seq<char>,
    tail: Seq<char>,
)
    requires
        forall|i: int| 0 <= i < indent.len() ==> text::is_white(#[trigger] indent[i]),
        bullets.len() > 0,
        forall|i: int| 0 <= i < bullets.len() ==> #[trigger] bullets[i] == '•',
        forall|i: int| 0 <= i < gap.len() ==> text::is_white(#[trigger] gap[i]),
        rest.len() > 0,
        rest[0] != '•' || gap.len() > 0,
        !text::is_white(rest[0]),
        !text::is_white(rest.last()),
        forall|i: int| 0 <= i < tail.len() ==> text::is_white(#[trigger] tail[i]),
    ensures
        is_progress(indent + bullets + gap + rest + tail) <==> exists|k: int|
            0 <= k < verbs_of_progress().len() && (#[trigger] verbs_of_progress()[k]).is_prefix_of(
                text::lowered(rest),
            ),
        tells_progress(rest) <==> exists|k: int|
            0 <= k < verbs_of_progress().len() && (#[trigger] verbs_of_progress()[k]).is_prefix_of(
                rest,
            ),
{
    bullets_are_taken_off(indent, bullets, gap, rest, tail);
    lemma_verbs(text::lowered(rest));
    lemma_verbs(rest);
}

/// A text in lowercase tells of work under way where it begins with a verb of progress.
proof fn lemma_verbs(lower: Seq<char>)
    ensures
        tells_progress(lower) <==> exists|k: int|
            0 <= k < verbs_of_progress().len() && (#[trigger] verbs_of_progress()[k]).is_prefix_of(
                lower,
            ),
{
    let verbs = verbs_of_progress();
    if tells_progress(lower) {
        assert(verbs[0].is_prefix_of(lower) || verbs[1].is_prefix_of(lower)
            || verbs[2].is_prefix_of(lower) || verbs[3].is_prefix_of(lower)
            || verbs[4].is_prefix_of(lower) || verbs[5].is_prefix_of(lower)
            || verbs[6].is_prefix_of(lower) || verbs[7].is_prefix_of(lower)
            || verbs[8].is_prefix_of(lower));
    }
}

/// A text in lowercase has a phrase of completion: `release succeeded` or `ran
/// successfully` at its beginning, `succeeded after` anywhere, or `built` at its
/// beginning, a digit after it and `artifact` further on.
pub open spec fn has_words_of_completion(lower: Seq<char>) -> bool {
    ||| "release succeeded"@.is_prefix_of(lower)
    ||| "ran successfully"@.is_prefix_of(lower)
    ||| text::has_text(lower, "succeeded after"@)
    ||| "built "@.is_prefix_of(lower) && lower.len() > 6 && '0' <= lower[6] && lower[6] <= '9'
        && text::has_text(lower.skip(6), "artifact"@)
}

/// A line tells of completion exactly where it says after its bullets, in any case, a
/// phrase of completion.
pub proof fn phrases_tell_of_completion(
    indent: Seq<char>,
    bullets: Seq<char>,
    gap: Seq<char>,
    rest: Seq<char>,
    tail: Seq<char>,
)
    requires
        forall|i: int| 0 <= i < indent.len() ==> text::is_white(#[trigger] indent[i]),
        bullets.len() > 0,
        forall|i: int| 0 <= i < bullets.len() ==> #[trigger] bullets[i] == '•',
        forall|i: int| 0 <= i < gap.len() ==> text::is_white(#[trigger] gap[i]),
        rest.len() > 0,
        rest[0] != '•' || gap.len() > 0,
        !text::is_white(rest[0]),
        !text::is_white(rest.last()),
        forall|i: int| 0 <= i < tail.len() ==> text::is_white(#[trigger] tail[i]),
    ensures
        is_summary(indent + bullets + gap + rest + tail) <==> has_words_of_completion(
            text::lowered(rest),
        ),
        tells_completion(rest) <==> has_words_of_completion(rest),
{
    bullets_are_taken_off(indent, bullets, gap, rest, tail);
    reveal_strlit("built ");
}

/// A line, of which `lower` is the lowercase, tells of a failure exactly where it begins
/// with `⨯` or holds `FAILED`, or the lowercase begins with `error:`.
pub proof fn marks_tell_of_a_failure(t: Seq<char>, lower: Seq<char>)
    ensures
        tells_failure(t, lower) <==> (t.len() > 0 && t[0] == '⨯') || text::has_text(t, "FAILED"@)
            || "error:"@.is_prefix_of(lower),
{
}

/// The last line that says a phrase of completion after its bullet closes the report.
pub proof fn the_last_completion_closes_the_report(
    input: Seq<char>,
    sub: Seq<char>,
    i: int,
    gap: Seq<char>,
    rest: Seq<char>,
)
    requires
        0 <= i < plain_lines(input).len(),
        plain_lines(input)[i] == seq!['•'] + gap + rest,
        gap.len() > 0,
        forall|k: int| 0 <= k < gap.len() ==> text::is_white(#[trigger] gap[k]),
        rest.len() > 0,
        !text::is_white(rest[0]),
        has_words_of_completion(text::lowered(rest)),
        !"error:"@.is_prefix_of(text::lowered(plain_lines(input)[i])),
        !text::has_text(plain_lines(input)[i], "FAILED"@),
        forall|j: int| i < j < plain_lines(input).len() ==> (#[trigger] plain_lines(input)[j])[0]
            != '•',
    ensures
        ("  "@ + plain_lines(input)[i]).is_suffix_of(release_report(release_lines(input), sub)),
{
    let l = plain_lines(input)[i];
    let ls = release_lines(input);
    let none = Seq::<char>::empty();
    let any = |c: char| true;
    lemma_plain_line(input, i);
    lines::lemma_content_chars(ansi::without_escapes(input), any);
    assert(!text::is_white(l.last()));
    assert(l.last() == rest.last());
    phrases_tell_of_completion(none, seq!['•'], gap, rest, none);
    assert(none + seq!['•'] + gap + rest + none =~= l);
    assert(ls[i] == ReleaseView::Summary(l));
    assert forall|j: int| i < j < ls.len() implies !((#[trigger] ls[j]) is Summary) by {
        lemma_plain_line(input, j);
        let m = plain_lines(input)[j];
        assert(m[0] != '•');
    }
    the_last_summary_counts(ls, i);
    let f = |l: Seq<char>| row(l);
    let before = "goreleaser: "@ + sub + outcome_of(failures_in(ls).len() > 0) + "\n"@
        + sections_in(ls).flat_map(f) + failures_in(ls).flat_map(f);
    let shown = "  "@ + l;
    let whole = before + row(l);
    reveal_strlit("\n");
    text::only_outer_characters_are_dropped("\n"@, before + shown, text::whites());
    assert(whole =~= before + shown + "\n"@);
    assert((before + shown).last() == l.last());
    let report = release_report(ls, sub);
    assert(report == before + shown);
    assert(report.subrange(report.len() - shown.len(), report.len() as int) =~= shown);
}

/// A summary that no other follows is the one that is reported, and where no line is
/// a summary none is.
pub proof fn the_last_summary_counts(ls: Seq<ReleaseView>, i: int)
    requires
        -1 <= i < ls.len(),
        i >= 0 ==> ls[i] is Summary,
        forall|j: int| i < j < ls.len() ==> !((#[trigger] ls[j]) is Summary),
    ensures
        last_summary(ls) == if i >= 0 {
            Some(ls[i]->Summary_0)
        } else {
            None
        },
    decreases ls.len(),
{
    if ls.len() > 0 && i < ls.len() - 1 {
        assert(!(ls[ls.len() - 1] is Summary));
        assert forall|j: int| i < j < ls.len() - 1 implies !((
        #[trigger] ls.drop_last()[j]) is Summary) by {
            assert(ls.drop_last()[j] == ls[j]);
        }
        the_last_summary_counts(ls.drop_last(), i);
    }
}

/// Any other line is left out: one that has no mark of failure, is no section header,
/// and says after its bullet nothing of completion.
pub proof fn other_lines_are_left_out(l: Seq<char>, gap: Seq<char>, rest: Seq<char>)
    requires
        l.len() > 0,
        !text::is_white(l[0]),
        l[0] != '⨯',
        l[0] != '▶',
        !"error:"@.is_prefix_of(text::lowered(l)),
        !text::has_text(l, "FAILED"@),
        l[0] == '•' ==> {
            &&& l == seq!['•'] + gap + rest
            &&& gap.len() > 0
            &&& forall|k: int| 0 <= k < gap.len() ==> text::is_white(#[trigger] gap[k])
            &&& rest.len() > 0
            &&& !text::is_white(rest[0])
            &&& !text::is_white(rest.last())
            &&& !has_words_of_completion(text::lowered(rest))
        },
    ensures
        said(l) is Noise,
{
    let none = Seq::<char>::empty();
    if l[0] == '•' {
        phrases_tell_of_completion(none, seq!['•'], gap, rest, none);
        assert(none + seq!['•'] + gap + rest + none =~= l);
    }
}

/// The report is the outcome, then the section headers, then the failures, then the
/// last summary, each line in a row of its own.
pub proof fn the_report_lists_sections_before_failures(ls: Seq<ReleaseView>, sub: Seq<char>)
    ensures
        ({
            let row = |l: Seq<char>| "  "@ + l + "\n"@;
            let sections = ls.filter_map(
                |l: ReleaseView|
                    match l {
                        ReleaseView::Section(t) => Some(t),
                        _ => None,
                    },
            );
            let failures = ls.filter_map(
                |l: ReleaseView|
                    match l {
                        ReleaseView::Failure(t) => Some(t),
                        _ => None,
                    },
            );
            let title = "goreleaser: "@ + sub + if failures.len() > 0 {
                " FAILED\n"@
            } else {
                " succeeded\n"@
            };
            let closing = match last_summary(ls) {
                Some(t) => "  "@ + t + "\n"@,
                None => Seq::empty(),
            };
            release_report(ls, sub) == text::trimmed_end(
                title + sections.flat_map(row) + failures.flat_map(row) + closing,
            )
        }),
{
    let f = |l: Seq<char>| row(l);
    let g = |l: Seq<char>| "  "@ + l + "\n"@;
    let section = |l: ReleaseView|
        match l {
            ReleaseView::Section(t) => Some(t),
            _ => None,
        };
    let failure = |l: ReleaseView|
        match l {
            ReleaseView::Failure(t) => Some(t),
            _ => None,
        };
    assert(f =~= g);
    assert(section_header() =~= section);
    assert(reported_failure() =~= failure);
    reveal_strlit(" FAILED");
    reveal_strlit(" succeeded");
    reveal_strlit("\n");
    reveal_strlit(" FAILED\n");
    reveal_strlit(" succeeded\n");
    let failed = failures_in(ls).len() > 0;
    let title = if failed {
        " FAILED\n"@
    } else {
        " succeeded\n"@
    };
    assert("goreleaser: "@ + sub + outcome_of(failed) + "\n"@ =~= "goreleaser: "@ + sub + title);
}

/// The subcommand is the first argument that does not begin with a dash; a run
/// without one is a release.
pub proof fn the_first_word_is_the_subcommand(args: Seq<Seq<char>>, k: int)
    requires
        0 <= k <= args.len(),
        forall|i: int| 0 <= i < k ==> "-"@.is_prefix_of(#[trigger] args[i]),
        k < args.len() ==> !"-"@.is_prefix_of(args[k]),
    ensures
        subcommand_of(args) == if k < args.len() {
            args[k]
        } else {
            "release"@
        },
    decreases k,
{
    reveal_strlit("-");
    if k < args.len() {
        lemma_dash(args[k]);
    }
    if k > 0 {
        let rest = args.skip(1);
        assert("-"@.is_prefix_of(args[0]));
        lemma_dash(args[0]);
        assert forall|i: int| 0 <= i < k - 1 implies "-"@.is_prefix_of(#[trigger] rest[i]) by {
            assert(rest[i] == args[i + 1]);
        }
        the_first_word_is_the_subcommand(rest, k - 1);
    }
}

/// A text begins with a dash where its first character is one.
proof fn lemma_dash(a: Seq<char>)
    ensures
        "-"@.is_prefix_of(a) <==> a.len() > 0 && a[0] == '-',
{
    reveal_strlit("-");
    if a.len() > 0 {
        assert(a.subrange(0, 1)[0] == a[0]);
        if a[0] == '-' {
            assert(a.subrange(0, 1) =~= "-"@);
        }
    }
}

/// `goreleaser` runs with exactly the given arguments, and both of its streams go
/// through the filter for its subcommand.
pub proof fn arguments_are_handed_on(args: Seq<Seq<char>>, verbose: u8)
    ensures
        match planned(args, verbose) {
            plan::PlanView::Filtered(f) => {
                &&& f.program == "goreleaser"@
                &&& f.args == args
                &&& f.filter == plan::FilterView::Goreleaser(subcommand_of(args))
                &&& !f.stdout_only
                &&& f.tool == "goreleaser"@
                &&& f.tee == "goreleaser"@
                &&& f.shown_args == text::joined(args, " "@)
                &&& f.announcement == if verbose == 0 {
                    None
                } else {
                    Some("Running: goreleaser "@ + text::joined(args, " "@))
                }
            },
            plan::PlanView::Passthrough(_) => false,
        },
{
}

/// White space before a line makes no difference to what it tells.
pub proof fn indentation_makes_no_difference(indent: Seq<char>, l: Seq<char>)
    requires
        forall|i: int| 0 <= i < indent.len() ==> text::is_white(#[trigger] indent[i]),
        l.len() == 0 || !text::is_white(l[0]),
    ensures
        is_failure(indent + l) == (l.len() > 0 && l[0] == '⨯' || "error:"@.is_prefix_of(
            text::lowered(l),
        ) || text::has_text(l, "FAILED"@)),
        is_header(indent + l) == (l.len() > 0 && l[0] == '▶'),
        is_progress(indent + l) == is_progress(l),
        is_summary(indent + l) == is_summary(l),
{
    text::only_outer_characters_are_dropped(indent, l, text::whites());
}

/// Each line is taken by itself, in the order of the lines: as a failure, else as a
/// summary, else as a section header, else as noise. What texts in a row say is what the
/// one says and then what the other says.
pub proof fn lines_are_taken_one_by_one(a: Seq<char>, b: Seq<char>, i: int)
    requires
        0 <= i < plain_lines(a).len(),
    ensures
        release_lines(a).len() == plain_lines(a).len(),
        ({
            let l = plain_lines(a)[i];
            release_lines(a)[i] == if is_failure(l) {
                ReleaseView::Failure(l)
            } else if is_summary(l) {
                ReleaseView::Summary(l)
            } else if is_header(l) {
                ReleaseView::Section(l)
            } else {
                ReleaseView::Noise
            }
        }),
        release_lines(a + "\n"@ + b) == release_lines(a) + release_lines(b),
{
    ansi::texts_in_a_row_are_stripped_apart(a, b);
    lines::content_of_texts_in_a_row(ansi::without_escapes(a), ansi::without_escapes(b));
    assert(release_lines(a + "\n"@ + b) =~= release_lines(a) + release_lines(b));
}

/// A classified line is seen with its text.
pub proof fn fields_are_seen_as_texts(k: ReleaseLine)
    ensures
        match k {
            ReleaseLine::Failure(l) => k@ == ReleaseView::Failure(l@),
            ReleaseLine::Summary(l) => k@ == ReleaseView::Summary(l@),
            ReleaseLine::Section(l) => k@ == ReleaseView::Section(l@),
            ReleaseLine::Noise => k@ is Noise,
        },
{
}

} // verus!
