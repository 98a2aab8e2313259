//! `staticcheck`: findings clustered by the code of the check.

use crate::decode;
use crate::lines;
use crate::plan;
use crate::plan::{Filter, Filtered, Plan};
use crate::ranking;
use crate::report;
use crate::report::TeeRequest;
use crate::seqs;
use crate::text;
use vstd::prelude::*;

verus! {

/// How many codes a report shows.
pub const MAX_RULES: usize = 5;

/// How many findings a report shows of one code.
pub const MAX_SAMPLES_PER_RULE: usize = 3;

/// With more findings than this, the report points to the raw output.
pub const TEE_HINT_THRESHOLD: usize = 50;

/// How wide a message of a report may be.
pub const MAX_MESSAGE_WIDTH: usize = 120;

// ---------------------------------------------------------------------------
// What to run
// ---------------------------------------------------------------------------

/// Whether an argument sets the output format.
pub open spec fn sets_format(a: Seq<char>) -> bool {
    ||| a == "-f"@
    ||| a == "-format"@
    ||| "-f="@.is_prefix_of(a)
    ||| "-format="@.is_prefix_of(a)
}

/// The arguments of `staticcheck`: the given ones, after a request for JSON where
/// they set no format.
pub open spec fn format_args(args: Seq<Seq<char>>) -> Seq<Seq<char>> {
    if exists|i: int| 0 <= i < args.len() && sets_format(#[trigger] args[i]) {
        args
    } else {
        seq!["-f"@, "json"@] + args
    }
}

/// Adds `-f json` unless the arguments already set a format.
pub fn inject_format_flag(args: &[String]) -> (r: Vec<String>)
    ensures
        text::texts(r@) == format_args(text::texts(args@)),
{
    let n: usize = args.len();
    let ghost all = text::texts(args@);
    for i in 0..n
        invariant
            n == args@.len(),
            all == text::texts(args@),
            forall|j: int| 0 <= j < i ==> !sets_format(#[trigger] all[j]),
    {
        let a = args[i].as_str();
        assert(all[i as int] == a@);
        if text::same_text(a, "-f") || text::same_text(a, "-format") || text::starts_with(a, "-f=")
            || text::starts_with(a, "-format=") {
            return text::copy_all(args);
        }
    }
    plan::after_words("-f", "json", args)
}

/// What `staticcheck` with the given arguments runs.
pub open spec fn planned(args: Seq<Seq<char>>, verbose: u8) -> plan::PlanView {
    plan::PlanView::Filtered(
        plan::FilteredView {
            program: "staticcheck"@,
            args: format_args(args),
            announcement: plan::announced(
                verbose,
                "Running: staticcheck "@ + text::joined(format_args(args), " "@),
            ),
            tool: "staticcheck"@,
            shown_args: text::joined(args, " "@),
            filter: plan::FilterView::Staticcheck,
            stdout_only: true,
            tee: "staticcheck"@,
        },
    )
}

/// Plans what `staticcheck` with the given arguments runs.
pub fn run(args: &[String], verbose: u8) -> (r: Plan)
    ensures
        r@ == planned(text::texts(args@), verbose),
{
    let command = inject_format_flag(args);
    let said = text::join(command.as_slice(), " ");
    Plan::Filtered(
        Filtered {
            program: "staticcheck".to_owned(),
            args: command,
            announcement: plan::announce(verbose, "Running: staticcheck ", said.as_str()),
            tool: "staticcheck".to_owned(),
            shown_args: text::join(args, " "),
            filter: Filter::Staticcheck,
            stdout_only: true,
            tee: "staticcheck".to_owned(),
        },
    )
}

/// The exit code to report. That there are findings (1) is no failure; other
/// codes are handed on.
pub fn settle_exit_code(code: i32) -> (r: i32)
    ensures
        r == if code == 1 {
            0
        } else {
            code as int
        },
{
    if code == 1 {
        0
    } else {
        code
    }
}

/// The given arguments are handed on, in their order and at the end. Adding the
/// format to arguments that already went through it changes nothing.
pub proof fn format_is_added_once(args: Seq<Seq<char>>)
    ensures
        args.is_suffix_of(format_args(args)),
        format_args(format_args(args)) == format_args(args),
{
    let once = format_args(args);
    assert(once.subrange(once.len() - args.len(), once.len() as int) =~= args);
    if !(exists|i: int| 0 <= i < args.len() && sets_format(#[trigger] args[i])) {
        assert(sets_format(once[0]));
    }
}

// ---------------------------------------------------------------------------
// The report
// ---------------------------------------------------------------------------

/// Where a finding is.
pub struct Location {
    pub file: String,
    pub line: u64,
}

/// A finding.
pub struct Issue {
    pub code: String,
    pub location: Location,
    pub message: String,
}

/// A finding, as texts.
pub struct IssueView {
    pub code: Seq<char>,
    pub file: Seq<char>,
    pub line: u64,
    pub message: Seq<char>,
}

impl View for Issue {
    type V = IssueView;

    open spec fn view(&self) -> IssueView {
        IssueView {
            code: self.code@,
            file: self.location.file@,
            line: self.location.line,
            message: self.message@,
        }
    }
}

/// The findings of a sequence.
pub open spec fn issue_views(v: Seq<Issue>) -> Seq<IssueView> {
    v.map_values(|i: Issue| i@)
}

/// The finding that a decoded record gives, if it does, as a mapping.
pub open spec fn seen_issue() -> spec_fn(Option<Issue>) -> Option<IssueView> {
    |r: Option<Issue>|
        match r {
            Some(i) => Some(i@),
            None => None,
        }
}

/// The findings among the decoded records; a record that could not be decoded is
/// none.
pub open spec fn issues_of(records: Seq<Option<Issue>>) -> Seq<IssueView> {
    records.filter_map(seen_issue())
}

/// The codes of the findings, finding by finding.
pub open spec fn codes_of(issues: Seq<IssueView>) -> Seq<Seq<char>> {
    issues.map_values(|i: IssueView| i.code)
}

/// The findings with one code.
pub open spec fn with_code(issues: Seq<IssueView>, code: Seq<char>) -> Seq<IssueView> {
    issues.filter(|i: IssueView| i.code == code)
}

/// A message cut to the width of a report.
pub open spec fn cut_message(m: Seq<char>) -> Seq<char> {
    text::truncated(m, MAX_MESSAGE_WIDTH as nat)
}

/// The row of one finding.
pub open spec fn sample_row(i: IssueView) -> Seq<char> {
    "  "@ + i.file + ":"@ + text::decimal(i.line as nat) + "  "@ + cut_message(i.message) + "\n"@
}

/// The row of a code with the given findings: the code, its count and first
/// message.
pub open spec fn code_head(code: Seq<char>, group: Seq<IssueView>) -> Seq<char> {
    code + " ("@ + text::decimal(group.len()) + "): "@ + cut_message(group[0].message) + "\n"@
}

/// How many findings are left out of so many with one code.
pub open spec fn code_ending(findings: nat) -> Seq<char> {
    if findings > MAX_SAMPLES_PER_RULE {
        "  ... +"@ + text::decimal((findings - MAX_SAMPLES_PER_RULE) as nat) + " more\n"@
    } else {
        Seq::empty()
    }
}

/// The rows of one code: the code, its count and first message, then the first
/// few findings.
pub open spec fn code_rows(issues: Seq<IssueView>, code: Seq<char>) -> Seq<char> {
    let group = with_code(issues, code);
    let samples = seqs::first(group, MAX_SAMPLES_PER_RULE as nat).flat_map(
        |i: IssueView| sample_row(i),
    );
    code_head(code, group) + samples + code_ending(group.len())
}

/// The heading of the report of so many findings with so many codes.
pub open spec fn issue_head(issues: nat, codes: nat) -> Seq<char> {
    "staticcheck: "@ + text::decimal(issues) + " issue"@ + report::plural(issues) + " across "@
        + text::decimal(codes) + " rule"@ + report::plural(codes) + "\n"@ + report::rule_line()
}

/// How many codes are left out of a report on so many.
pub open spec fn issue_ending(codes: nat) -> Seq<char> {
    if codes > MAX_RULES {
        "\n... +"@ + text::decimal((codes - MAX_RULES) as nat) + " more rules\n"@
    } else {
        Seq::empty()
    }
}

/// The pointer to the raw output, where there are many findings and it is known.
pub open spec fn issue_pointer(issues: nat, hint: Option<Seq<char>>) -> Seq<char> {
    if issues > TEE_HINT_THRESHOLD && hint is Some {
        "\n"@ + hint->0 + "\n"@
    } else {
        Seq::empty()
    }
}

/// The report of the given findings. `hint` points to the raw output on disk; it
/// is shown where there are many findings.
pub open spec fn issue_report(issues: Seq<IssueView>, hint: Option<Seq<char>>) -> Seq<char> {
    let codes = ranking::ranked(codes_of(issues));
    let head = issue_head(issues.len(), codes.len());
    let rows = seqs::first(codes, MAX_RULES as nat).flat_map(|c: Seq<char>| code_rows(issues, c));
    let more = issue_ending(codes.len());
    let pointer = issue_pointer(issues.len(), hint);
    if issues.len() == 0 {
        "staticcheck: clean (0 issues)"@
    } else {
        text::trimmed(head + rows + more + pointer)
    }
}

/// What is to be kept on disk: the raw output, where there are many findings.
pub open spec fn issue_tee(input: Seq<char>, findings: nat) -> Option<report::TeeView> {
    if findings > TEE_HINT_THRESHOLD {
        Some(report::TeeView { content: input, slug: "staticcheck"@, from_line: 1 })
    } else {
        None
    }
}

/// What is to be kept on disk before the findings in an output are reported.
pub fn tee_request(input: &str, findings: usize) -> (r: Option<TeeRequest>)
    ensures
        report::tee_view(r) == issue_tee(input@, findings as nat),
{
    if findings > TEE_HINT_THRESHOLD {
        Some(
            TeeRequest {
                content: input.to_owned(),
                slug: "staticcheck".to_owned(),
                from_line: 1,
            },
        )
    } else {
        None
    }
}

fn copy_issue(i: &Issue) -> (r: Issue)
    ensures
        r@ == i@,
{
    Issue {
        code: i.code.clone(),
        location: Location { file: i.location.file.clone(), line: i.location.line },
        message: i.message.clone(),
    }
}

/// Picks the findings out of the decoded records.
pub fn collect_issues(records: &Vec<Option<Issue>>) -> (r: Vec<Issue>)
    ensures
        issue_views(r@) == issues_of(records@),
{
    let mut out: Vec<Issue> = Vec::new();
    let ghost f = seen_issue();
    assert(issue_views(out@) =~= records@.take(0).filter_map(f));
    for i in 0..records.len()
        invariant
            f == seen_issue(),
            issue_views(out@) == records@.take(i as int).filter_map(f),
    {
        let ghost done = issue_views(out@);
        proof {
            records@.lemma_filter_map_take_succ(f, i as int);
            assert(done + Seq::<IssueView>::empty() =~= done);
        }
        if let Some(issue) = &records[i] {
            out.push(copy_issue(issue));
            assert(issue_views(out@) =~= done + seq![issue@]);
        }
    }
    proof {
        seqs::lemma_take_all(records@);
    }
    out
}

fn push_sample_row(out: &mut String, i: &Issue)
    ensures
        final(out)@ == old(out)@ + sample_row(i@),
{
    let ghost before = out@;
    let message = text::truncate(i.message.as_str(), MAX_MESSAGE_WIDTH);
    out.append("  ");
    out.append(i.location.file.as_str());
    out.append(":");
    text::push_decimal(out, i.location.line as u128);
    out.append("  ");
    out.append(message.as_str());
    out.append("\n");
    assert(out@ =~= before + sample_row(i@));
}

/// The positions of the findings with one code.
fn group_of(issues: &Vec<Issue>, code: &str) -> (r: Vec<usize>)
    ensures
        forall|j: int| 0 <= j < r@.len() ==> #[trigger] r@[j] < issues@.len(),
        with_code(issue_views(issues@), code@) == r@.map_values(|k: usize| issues@[k as int]@),
{
    let mut out: Vec<usize> = Vec::new();
    let ghost all = issue_views(issues@);
    let ghost p = |i: IssueView| i.code == code@;
    let sought = code.to_owned();
    proof {
        seqs::lemma_filter_none(all, p);
        assert(out@.map_values(|k: usize| issues@[k as int]@) =~= all.take(0).filter(p));
    }
    for i in 0..issues.len()
        invariant
            all == issue_views(issues@),
            sought@ == code@,
            p == (|i: IssueView| i.code == code@),
            forall|j: int| 0 <= j < out@.len() ==> #[trigger] out@[j] < issues@.len(),
            all.take(i as int).filter(p) == out@.map_values(|k: usize| issues@[k as int]@),
    {
        let ghost done = out@.map_values(|k: usize| issues@[k as int]@);
        proof {
            seqs::lemma_filter_step(all, p, i as int);
        }
        if issues[i].code == sought {
            out.push(i);
            assert(out@.map_values(|k: usize| issues@[k as int]@) =~= done.push(
                issues@[i as int]@,
            ));
        }
    }
    proof {
        seqs::lemma_take_all(all);
    }
    out
}

fn push_code_rows(out: &mut String, issues: &Vec<Issue>, code: &str)
    requires
        codes_of(issue_views(issues@)).contains(code@),
    ensures
        final(out)@ == old(out)@ + code_rows(issue_views(issues@), code@),
{
    let ghost start = out@;
    let ghost all = issue_views(issues@);
    let ghost group = with_code(all, code@);
    let places = group_of(issues, code);
    let n: usize = places.len();
    proof {
        let k = codes_of(all).index_of(code@);
        let p = |i: IssueView| i.code == code@;
        assert(p(all[k]));
        all.lemma_filter_contains(p, k);
        assert(group.len() > 0);
        assert(group[0] == issues@[places@[0] as int]@);
    }
    let headline = text::truncate(issues[places[0]].message.as_str(), MAX_MESSAGE_WIDTH);
    out.append(code);
    out.append(" (");
    text::push_count(out, n);
    out.append("): ");
    out.append(headline.as_str());
    out.append("\n");
    let ghost head = out@;
    let ghost kept = seqs::first(group, MAX_SAMPLES_PER_RULE as nat);
    let ghost f = |i: IssueView| sample_row(i);
    let stop: usize = if n > MAX_SAMPLES_PER_RULE {
        MAX_SAMPLES_PER_RULE
    } else {
        n
    };
    proof {
        seqs::lemma_rows_none(kept, f);
        assert(out@ =~= head + kept.take(0).flat_map(f));
    }
    for i in 0..stop
        invariant
            n == places@.len(),
            forall|j: int| 0 <= j < places@.len() ==> #[trigger] places@[j] < issues@.len(),
            group == places@.map_values(|k: usize| issues@[k as int]@),
            kept == seqs::first(group, MAX_SAMPLES_PER_RULE as nat),
            stop <= n,
            stop == kept.len(),
            f == (|i: IssueView| sample_row(i)),
            out@ == head + kept.take(i as int).flat_map(f),
    {
        push_sample_row(out, &issues[places[i]]);
        proof {
            assert(kept[i as int] == issues@[places@[i as int] as int]@);
            seqs::lemma_rows_step(kept, f, i as int);
            assert(out@ =~= head + kept.take(i + 1).flat_map(f));
        }
    }
    proof {
        seqs::lemma_take_all(kept);
    }
    if n > MAX_SAMPLES_PER_RULE {
        out.append("  ... +");
        text::push_count(out, n - MAX_SAMPLES_PER_RULE);
        out.append(" more\n");
    }
    assert(out@ =~= start + code_rows(all, code@));
}

/// Reports findings, clustered by code. `hint` points to the raw output on disk.
pub fn summarize_issues(issues: &Vec<Issue>, hint: Option<&str>) -> (r: String)
    ensures
        r@ == issue_report(issue_views(issues@), text::opt_str(hint)),
{
    let total: usize = issues.len();
    if total == 0 {
        return "staticcheck: clean (0 issues)".to_owned();
    }
    let ghost all = issue_views(issues@);
    let mut keys: Vec<String> = Vec::new();
    for i in 0..total
        invariant
            total == issues@.len(),
            all == issue_views(issues@),
            text::texts(keys@) == codes_of(all).take(i as int),
    {
        let ghost done = text::texts(keys@);
        keys.push(issues[i].code.clone());
        proof {
            assert(text::texts(keys@) =~= done.push(all[i as int].code));
            assert(codes_of(all).take(i + 1) =~= codes_of(all).take(i as int).push(
                all[i as int].code,
            ));
        }
    }
    proof {
        seqs::lemma_take_all(codes_of(all));
    }
    let ranked = ranking::rank_rules(&keys);
    let ghost codes = ranking::ranked(codes_of(all));
    let n: usize = ranked.len();
    let mut out = "staticcheck: ".to_owned();
    text::push_count(&mut out, total);
    out.append(" issue");
    report::push_plural(&mut out, total);
    out.append(" across ");
    text::push_count(&mut out, n);
    out.append(" rule");
    report::push_plural(&mut out, n);
    out.append("\n");
    report::push_rule_line(&mut out);
    let ghost head = out@;
    let ghost kept = seqs::first(codes, MAX_RULES as nat);
    let ghost f = |c: Seq<char>| code_rows(all, c);
    let stop: usize = if n > MAX_RULES {
        MAX_RULES
    } else {
        n
    };
    proof {
        ranking::ranking_is_ordered(codes_of(all));
        seqs::lemma_rows_none(kept, f);
        assert(out@ =~= head + kept.take(0).flat_map(f));
    }
    for i in 0..stop
        invariant
            n == ranked@.len(),
            all == issue_views(issues@),
            codes == ranking::rules(ranked@),
            forall|k: Seq<char>| codes.contains(k) <==> codes_of(all).contains(k),
            kept == seqs::first(codes, MAX_RULES as nat),
            stop <= n,
            stop == kept.len(),
            f == (|c: Seq<char>| code_rows(all, c)),
            out@ == head + kept.take(i as int).flat_map(f),
    {
        proof {
            assert(kept[i as int] == ranked@[i as int].rule@);
            assert(codes.contains(codes[i as int]));
        }
        push_code_rows(&mut out, issues, ranked[i].rule.as_str());
        proof {
            seqs::lemma_rows_step(kept, f, i as int);
            assert(out@ =~= head + kept.take(i + 1).flat_map(f));
        }
    }
    proof {
        seqs::lemma_take_all(kept);
    }
    let ghost shown = out@;
    if n > MAX_RULES {
        out.append("\n... +");
        text::push_count(&mut out, n - MAX_RULES);
        out.append(" more rules\n");
        assert(out@ =~= shown + ("\n... +"@ + text::decimal((n - MAX_RULES) as nat)
            + " more rules\n"@));
    } else {
        assert(out@ =~= shown + Seq::<char>::empty());
    }
    let ghost summed = out@;
    if total > TEE_HINT_THRESHOLD {
        if let Some(h) = hint {
            out.append("\n");
            out.append(h);
            out.append("\n");
            assert(out@ =~= summed + ("\n"@ + h@ + "\n"@));
        } else {
            assert(out@ =~= summed + Seq::<char>::empty());
        }
    } else {
        assert(out@ =~= summed + Seq::<char>::empty());
    }
    text::trim(out.as_str())
}

/// The findings that a decoder that always answers the same tells of in an output.
pub open spec fn told_issues<D: Fn(&str) -> Option<Issue>>(decode: D, input: Seq<char>) -> Seq<
    IssueView,
> {
    lines::object_lines_of(input).filter_map(decode::answer(decode, seen_issue()))
}

/// The findings in an output: the lines that may hold one, decoded. Lines that
/// cannot be decoded are passed over.
pub fn decode_issues<D: Fn(&str) -> Option<Issue>>(input: &str, decode: D) -> (r: Vec<Issue>)
    requires
        forall|s: &str| call_requires(decode, (s,)),
    ensures
        exists|records: Seq<Option<Issue>>|
            #![trigger issues_of(records)]
            decode::decodes(decode, lines::object_lines_of(input@), records) && issue_views(r@)
                == issues_of(records),
        decode::determinate(decode, seen_issue()) ==> issue_views(r@) == told_issues(
            decode,
            input@,
        ),
{
    let candidates = lines::object_lines(input);
    let ghost by = decode;
    let records = decode::decode_all(&candidates, decode);
    proof {
        if decode::determinate(by, seen_issue()) {
            decode::lemma_answers(by, seen_issue(), lines::object_lines_of(input@), records@);
        }
    }
    collect_issues(&records)
}

/// Filters the output of `staticcheck`: reports the findings, clustered by code.
/// `hint` points to the raw output on disk.
pub fn filter_staticcheck_json<D: Fn(&str) -> Option<Issue>>(
    input: &str,
    decode: D,
    hint: Option<&str>,
) -> (r: String)
    requires
        forall|s: &str| call_requires(decode, (s,)),
    ensures
        exists|records: Seq<Option<Issue>>|
            #![trigger issues_of(records)]
            decode::decodes(decode, lines::object_lines_of(input@), records) && r@ == issue_report(
                issues_of(records),
                text::opt_str(hint),
            ),
        decode::determinate(decode, seen_issue()) ==> r@ == issue_report(
            told_issues(decode, input@),
            text::opt_str(hint),
        ),
{
    let issues = decode_issues(input, decode);
    summarize_issues(&issues, hint)
}

/// A record that could not be decoded makes no difference to the findings.
pub proof fn malformed_records_are_skipped(before: Seq<Option<Issue>>, after: Seq<Option<Issue>>)
    ensures
        issues_of(before.push(None) + after) == issues_of(before + after),
{
    seqs::lemma_filter_map_skips(before, None, after, seen_issue());
}

/// Lines that hold no finding, put in anywhere among the lines of an output, make no
/// difference to the report, for a decoder that always answers the same: lines that
/// do not begin with an opening brace, and lines that it cannot decode.
pub proof fn noise_makes_no_difference<D: Fn(&str) -> Option<Issue>>(
    decode: D,
    plain: Seq<char>,
    noise: Seq<char>,
    noisy: Seq<char>,
    plain_records: Seq<Option<Issue>>,
    noisy_records: Seq<Option<Issue>>,
    hint: Option<Seq<char>>,
)
    requires
        decode::determinate(decode, seen_issue()),
        lines::lines_inserted(plain, noise, noisy),
        forall|i: int|
            0 <= i < lines::object_lines_of(noise).len() ==> decode::meaningless(
                decode,
                seen_issue(),
                #[trigger] lines::object_lines_of(noise)[i],
            ),
        decode::decodes(decode, lines::object_lines_of(plain), plain_records),
        decode::decodes(decode, lines::object_lines_of(noisy), noisy_records),
    ensures
        issue_report(issues_of(noisy_records), hint) == issue_report(
            issues_of(plain_records),
            hint,
        ),
{
    decode::lemma_noise_lines(
        decode,
        seen_issue(),
        plain,
        noise,
        noisy,
        plain_records,
        noisy_records,
    );
}

/// The code of a finding, as a mapping.
pub open spec fn code_key() -> spec_fn(IssueView) -> Seq<char> {
    |i: IssueView| i.code
}

/// Where findings with different codes stand relative to each other makes no
/// difference to the report, as long as the findings with each code keep their
/// order.
pub proof fn order_of_codes_makes_no_difference(
    a: Seq<IssueView>,
    b: Seq<IssueView>,
    hint: Option<Seq<char>>,
)
    requires
        forall|c: Seq<char>| #[trigger] with_code(a, c) == with_code(b, c),
    ensures
        issue_report(a, hint) == issue_report(b, hint),
{
    let key = code_key();
    assert forall|c: Seq<char>| #[trigger] seqs::group(a, key, c) == seqs::group(b, key, c) by {
        lemma_group_by_key(a, c);
        lemma_group_by_key(b, c);
        assert(with_code(a, c) == with_code(b, c));
    }
    seqs::lemma_same_groups_same_len(a, b, key);
    assert forall|c: Seq<char>| #[trigger]
        ranking::occurrences(codes_of(a), c) == ranking::occurrences(codes_of(b), c) by {
        seqs::lemma_group_len(a, key, c, ranking::is_rule(c));
        seqs::lemma_group_len(b, key, c, ranking::is_rule(c));
        lemma_group_by_key(a, c);
        lemma_group_by_key(b, c);
        assert(with_code(a, c) == with_code(b, c));
        assert(codes_of(a) =~= a.map_values(key));
        assert(codes_of(b) =~= b.map_values(key));
    }
    ranking::ranking_depends_on_counts(codes_of(a), codes_of(b));
    let f = |c: Seq<char>| code_rows(a, c);
    let g = |c: Seq<char>| code_rows(b, c);
    assert forall|c: Seq<char>| #[trigger] f(c) == g(c) by {
        assert(with_code(a, c) == with_code(b, c));
    }
    assert(f =~= g);
}

/// The findings with one code, picked by a mapping to the code.
proof fn lemma_group_by_key(issues: Seq<IssueView>, c: Seq<char>)
    ensures
        seqs::group(issues, code_key(), c) == with_code(issues, c),
{
    let p = seqs::with_key(code_key(), c);
    let q = |i: IssueView| i.code == c;
    assert(p =~= q);
}

/// The lines in which a finding with the given code is seen, as a predicate.
pub open spec fn tells_of<D: Fn(&str) -> Option<Issue>>(
    decode: D,
    code: Seq<char>,
) -> spec_fn(Seq<char>) -> bool {
    |l: Seq<char>|
        decode::answer(decode, seen_issue())(l) is Some && decode::answer(decode, seen_issue())(
            l,
        )->0.code == code
}

/// The order of the lines of an output makes no difference to the report, nor do
/// lines without a finding, as long as the lines of each code keep their order; for
/// a decoder that always answers the same.
pub proof fn order_of_lines_makes_no_difference<D: Fn(&str) -> Option<Issue>>(
    decode: D,
    p: Seq<char>,
    q: Seq<char>,
    p_records: Seq<Option<Issue>>,
    q_records: Seq<Option<Issue>>,
    hint: Option<Seq<char>>,
)
    requires
        decode::determinate(decode, seen_issue()),
        decode::decodes(decode, lines::object_lines_of(p), p_records),
        decode::decodes(decode, lines::object_lines_of(q), q_records),
        forall|c: Seq<char>| #[trigger]
            lines::object_lines_of(p).filter(tells_of(decode, c)) == lines::object_lines_of(
                q,
            ).filter(tells_of(decode, c)),
    ensures
        issue_report(issues_of(p_records), hint) == issue_report(issues_of(q_records), hint),
{
    let a = issues_of(p_records);
    let b = issues_of(q_records);
    let f = decode::answer(decode, seen_issue());
    decode::lemma_answers(decode, seen_issue(), lines::object_lines_of(p), p_records);
    decode::lemma_answers(decode, seen_issue(), lines::object_lines_of(q), q_records);
    assert forall|c: Seq<char>| #[trigger] with_code(a, c) == with_code(b, c) by {
        let wanted = |i: IssueView| i.code == c;
        let lines_p = lines::object_lines_of(p);
        let lines_q = lines::object_lines_of(q);
        seqs::lemma_filter_of_filter_map(lines_p, f, wanted, tells_of(decode, c));
        seqs::lemma_filter_of_filter_map(lines_q, f, wanted, tells_of(decode, c));
        assert(lines_p.filter(tells_of(decode, c)) == lines_q.filter(tells_of(decode, c)));
    }
    order_of_codes_makes_no_difference(a, b, hint);
}

/// The first codes of the ranking are shown, each with the number of its findings.
pub proof fn ranked_codes_are_shown(issues: Seq<IssueView>, hint: Option<Seq<char>>, i: int)
    requires
        0 <= i < ranking::ranked(codes_of(issues)).len(),
        i < MAX_RULES,
    ensures
        ({
            let code = ranking::ranked(codes_of(issues))[i];
            text::has_text(
                issue_report(issues, hint),
                code + " ("@ + text::decimal(with_code(issues, code).len()) + "):"@,
            )
        }),
{
    let codes = ranking::ranked(codes_of(issues));
    let code = codes[i];
    let kept = seqs::first(codes, MAX_RULES as nat);
    let f = |c: Seq<char>| code_rows(issues, c);
    let head = issue_head(issues.len(), codes.len());
    let more = issue_ending(codes.len());
    let pointer = issue_pointer(issues.len(), hint);
    let t = code + " ("@ + text::decimal(with_code(issues, code).len()) + "):"@;
    ranking::ranking_is_ordered(codes_of(issues));
    assert(codes.contains(code));
    assert(codes_of(issues).contains(code));
    assert(issues.len() > 0);
    assert(text::has_text(code_rows(issues, code), t) && !text::is_white(t.last())) by {
        reveal_strlit("):");
        reveal_strlit("): ");
        assert(code_rows(issues, code).subrange(0, t.len() as int) =~= t);
        assert(text::occurs_at(code_rows(issues, code), t, 0));
    }
    assert(kept[i] == code);
    report::lemma_row_is_shown(head, kept, f, more + pointer, i, t);
    let whole = head + kept.flat_map(f) + more + pointer;
    assert(head + kept.flat_map(f) + (more + pointer) =~= whole);
    reveal_strlit("staticcheck: ");
    assert(whole[0] == 's');
    text::lemma_trimmed_at_end(whole);
}

/// Of each code that is shown, the first findings are shown.
pub proof fn first_findings_are_shown(
    issues: Seq<IssueView>,
    hint: Option<Seq<char>>,
    i: int,
    j: int,
)
    requires
        0 <= i < ranking::ranked(codes_of(issues)).len(),
        i < MAX_RULES,
        0 <= j < with_code(issues, ranking::ranked(codes_of(issues))[i]).len(),
        j < MAX_SAMPLES_PER_RULE,
    ensures
        ({
            let code = ranking::ranked(codes_of(issues))[i];
            text::has_text(
                issue_report(issues, hint),
                text::trimmed_end(sample_row(with_code(issues, code)[j])),
            )
        }),
{
    let codes = ranking::ranked(codes_of(issues));
    let code = codes[i];
    let kept = seqs::first(codes, MAX_RULES as nat);
    let f = |c: Seq<char>| code_rows(issues, c);
    let head = issue_head(issues.len(), codes.len());
    let more = issue_ending(codes.len());
    let pointer = issue_pointer(issues.len(), hint);
    let group = with_code(issues, code);
    let sample = sample_row(group[j]);
    let t = text::trimmed_end(sample);
    issues.lemma_filter_len(|i: IssueView| i.code == code);
    assert(issues.len() > 0);
    text::lemma_trimmed_part(sample);
    assert(text::has_text(code_rows(issues, code), t)) by {
        let shown = seqs::first(group, MAX_SAMPLES_PER_RULE as nat);
        let g = |i: IssueView| sample_row(i);
        assert(shown[j] == group[j]);
        report::lemma_row_in_block(
            code_head(code, group),
            shown,
            g,
            code_ending(group.len()),
            j,
        );
        text::lemma_part_of_part(code_rows(issues, code), sample, t);
    }
    assert(kept[i] == code);
    report::lemma_row_is_shown(head, kept, f, more + pointer, i, t);
    let whole = head + kept.flat_map(f) + more + pointer;
    assert(head + kept.flat_map(f) + (more + pointer) =~= whole);
    reveal_strlit("staticcheck: ");
    assert(whole[0] == 's');
    text::lemma_trimmed_at_end(whole);
}

/// A pointer to the raw output is shown exactly where something is kept on disk
/// for it: where there are many findings.
pub proof fn issue_hint_needs_a_request(
    input: Seq<char>,
    issues: Seq<IssueView>,
    hint: Seq<char>,
)
    ensures
        issue_tee(input, issues.len()) is None ==> issue_report(issues, Some(hint))
            == issue_report(issues, None),
        issue_tee(input, issues.len()) is Some ==> text::has_text(
            issue_report(issues, Some(hint)),
            text::trimmed_end(hint),
        ),
{
    if issues.len() > TEE_HINT_THRESHOLD {
        let codes = ranking::ranked(codes_of(issues));
        let kept = seqs::first(codes, MAX_RULES as nat);
        let f = |c: Seq<char>| code_rows(issues, c);
        let head = issue_head(issues.len(), codes.len());
        let more = issue_ending(codes.len());
        let pointer = issue_pointer(issues.len(), Some(hint));
        let t = text::trimmed_end(hint);
        text::lemma_trimmed_end(hint);
        let rest = hint.skip(t.len() as int);
        text::lemma_middle_part("\n"@, t, rest + "\n"@);
        assert("\n"@ + t + (rest + "\n"@) =~= pointer);
        report::lemma_ending_is_shown(head + kept.flat_map(f) + more, pointer, t);
        let whole = head + kept.flat_map(f) + more + pointer;
        reveal_strlit("staticcheck: ");
        assert(whole[0] == 's');
        text::lemma_trimmed_at_end(whole);
    }
}

/// A blank output has no lines to decode, and without findings the report says
/// so.
pub proof fn blank_output_is_clean(input: Seq<char>, hint: Option<Seq<char>>)
    requires
        text::every(input, text::whites()),
    ensures
        lines::object_lines_of(input).len() == 0,
        issue_report(issues_of(Seq::empty()), hint) == "staticcheck: clean (0 issues)"@,
{
    lines::blank_text_has_no_content(input);
}

// ---------------------------------------------------------------------------
// What the findings decide
// ---------------------------------------------------------------------------

/// The codes are reported by how many findings they have: a code that is reported
/// earlier has at least as many as one that is reported later, and where the two have
/// equally many its name is the lesser one.
pub proof fn frequent_codes_come_first(issues: Seq<IssueView>, i: int, j: int)
    requires
        0 <= i < j < ranking::ranked(codes_of(issues)).len(),
    ensures
        ({
            let a = ranking::ranked(codes_of(issues))[i];
            let b = ranking::ranked(codes_of(issues))[j];
            let many_a = issues.filter(|x: IssueView| x.code == a).len();
            let many_b = issues.filter(|x: IssueView| x.code == b).len();
            &&& many_a >= many_b > 0
            &&& many_a == many_b ==> ranking::text_le(a, b) && a != b
        }),
{
    let keys = codes_of(issues);
    let a = ranking::ranked(keys)[i];
    let b = ranking::ranked(keys)[j];
    ranking::frequent_rules_come_first(keys, i, j);
    lemma_number_of_findings(issues, a);
    lemma_number_of_findings(issues, b);
}

/// A code occurs as often as there are findings with it.
proof fn lemma_number_of_findings(issues: Seq<IssueView>, c: Seq<char>)
    ensures
        codes_of(issues).filter(|k: Seq<char>| k == c).len() == issues.filter(
            |x: IssueView| x.code == c,
        ).len(),
{
    let key = code_key();
    seqs::lemma_group_len(issues, key, c, |k: Seq<char>| k == c);
    assert(codes_of(issues) =~= issues.map_values(key));
    assert(seqs::with_key(key, c) =~= (|x: IssueView| x.code == c));
}

/// Each code that a finding has is reported on once, and no other is.
pub proof fn every_code_is_ranked(issues: Seq<IssueView>, c: Seq<char>)
    ensures
        ranking::ranked(codes_of(issues)).contains(c) <==> exists|i: int|
            0 <= i < issues.len() && (#[trigger] issues[i]).code == c,
        ranking::ranked(codes_of(issues)).no_duplicates(),
{
    let keys = codes_of(issues);
    ranking::occurring_rules_are_ranked(keys, c);
    if exists|i: int| 0 <= i < issues.len() && (#[trigger] issues[i]).code == c {
        let i = choose|i: int| 0 <= i < issues.len() && (#[trigger] issues[i]).code == c;
        assert(keys[i] == c);
    }
    if exists|i: int| 0 <= i < keys.len() && keys[i] == c {
        let i = choose|i: int| 0 <= i < keys.len() && keys[i] == c;
        assert(issues[i].code == c);
    }
}

/// The rows of a code are its name with the number of its findings and the message of
/// the first, then the places and messages of the first three, then how many more
/// there are.
pub proof fn a_code_is_shown_with_three_findings(issues: Seq<IssueView>, c: Seq<char>)
    ensures
        ({
            let group = issues.filter(|x: IssueView| x.code == c);
            code_rows(issues, c) == c + " ("@ + text::decimal(group.len()) + "): "@
                + text::truncated(group[0].message, 120) + "\n"@ + seqs::first(group, 3).flat_map(
                |x: IssueView|
                    "  "@ + x.file + ":"@ + text::decimal(x.line as nat) + "  "@ + text::truncated(
                        x.message,
                        120,
                    ) + "\n"@,
            ) + if group.len() > 3 {
                "  ... +"@ + text::decimal((group.len() - 3) as nat) + " more\n"@
            } else {
                Seq::empty()
            }
        }),
{
    assert((|x: IssueView| sample_row(x)) =~= (|x: IssueView|
        "  "@ + x.file + ":"@ + text::decimal(x.line as nat) + "  "@ + text::truncated(
            x.message,
            120,
        ) + "\n"@));
}

/// The report is the number of findings and of codes, then the rows of the five codes
/// with the most findings, then how many more codes there are. With more than fifty
/// findings it ends with the pointer to the raw output.
pub proof fn the_report_shows_five_codes(issues: Seq<IssueView>, hint: Option<Seq<char>>)
    ensures
        issues.len() == 0 ==> issue_report(issues, hint) == "staticcheck: clean (0 issues)"@,
        issues.len() > 0 ==> ({
            let codes = ranking::ranked(codes_of(issues));
            issue_report(issues, hint) == text::trimmed(
                "staticcheck: "@ + text::decimal(issues.len()) + if issues.len() == 1 {
                    " issue across "@
                } else {
                    " issues across "@
                } + text::decimal(codes.len()) + if codes.len() == 1 {
                    " rule\n"@
                } else {
                    " rules\n"@
                } + "═══════════════════════════════════════\n"@ + seqs::first(codes, 5).flat_map(
                    |c: Seq<char>| code_rows(issues, c),
                ) + if codes.len() > 5 {
                    "\n... +"@ + text::decimal((codes.len() - 5) as nat) + " more rules\n"@
                } else {
                    Seq::empty()
                } + if issues.len() > 50 && hint is Some {
                    "\n"@ + hint->0 + "\n"@
                } else {
                    Seq::empty()
                },
            )
        }),
{
    let n = issues.len();
    let m = ranking::ranked(codes_of(issues)).len();
    reveal_strlit(" issue");
    reveal_strlit(" across ");
    reveal_strlit(" rule");
    reveal_strlit("s");
    reveal_strlit("");
    reveal_strlit("\n");
    reveal_strlit(" issue across ");
    reveal_strlit(" issues across ");
    reveal_strlit(" rule\n");
    reveal_strlit(" rules\n");
    let across = if n == 1 {
        " issue across "@
    } else {
        " issues across "@
    };
    let rules = if m == 1 {
        " rule\n"@
    } else {
        " rules\n"@
    };
    assert(" issue"@ + report::plural(n) + " across "@ =~= across);
    assert(" rule"@ + report::plural(m) + "\n"@ =~= rules);
    assert(issue_head(n, m) =~= "staticcheck: "@ + text::decimal(n) + across + text::decimal(m)
        + rules + "═══════════════════════════════════════\n"@);
}

/// Of two codes that are shown, the one with more findings comes before the other, each
/// with the number of its findings.
pub proof fn codes_are_shown_in_order(
    issues: Seq<IssueView>,
    hint: Option<Seq<char>>,
    i: int,
    j: int,
)
    requires
        0 <= i < j < ranking::ranked(codes_of(issues)).len(),
        j < 5,
    ensures
        ({
            let a = ranking::ranked(codes_of(issues))[i];
            let b = ranking::ranked(codes_of(issues))[j];
            let many_a = issues.filter(|x: IssueView| x.code == a).len();
            let many_b = issues.filter(|x: IssueView| x.code == b).len();
            exists|before: Seq<char>, after: Seq<char>| #[trigger]
                (before + after) == issue_report(issues, hint) && text::has_text(
                    before,
                    a + " ("@ + text::decimal(many_a) + "):"@,
                ) && text::has_text(after, b + " ("@ + text::decimal(many_b) + "):"@)
        }),
{
    let codes = ranking::ranked(codes_of(issues));
    let kept = seqs::first(codes, 5);
    let f = |c: Seq<char>| code_rows(issues, c);
    let head = issue_head(issues.len(), codes.len());
    let more = issue_ending(codes.len()) + issue_pointer(issues.len(), hint);
    let a = codes[i] + " ("@ + text::decimal(with_code(issues, codes[i]).len()) + "):"@;
    let b = codes[j] + " ("@ + text::decimal(with_code(issues, codes[j]).len()) + "):"@;
    every_code_is_ranked(issues, codes[i]);
    assert(codes.contains(codes[i]));
    assert(issues.len() > 0);
    assert(kept[i] == codes[i] && kept[j] == codes[j]);
    reveal_strlit("):");
    reveal_strlit("): ");
    assert(code_rows(issues, codes[i]).subrange(0, a.len() as int) =~= a);
    assert(text::occurs_at(code_rows(issues, codes[i]), a, 0));
    assert(code_rows(issues, codes[j]).subrange(0, b.len() as int) =~= b);
    assert(text::occurs_at(code_rows(issues, codes[j]), b, 0));
    let whole = head + kept.flat_map(f) + more;
    assert(whole =~= head + kept.flat_map(f) + issue_ending(codes.len()) + issue_pointer(
        issues.len(),
        hint,
    ));
    reveal_strlit("staticcheck: ");
    assert(whole[0] == 's');
    text::lemma_trimmed_at_end(whole);
    let (before, after) = report::lemma_rows_keep_their_order(head, kept, f, more, i, j, a, b);
    assert(before + after == issue_report(issues, hint));
}

/// A decoded finding is reported with its code, file, line and message, in the order
/// of the records; a record that could not be decoded is passed over.
pub proof fn decoded_findings_are_gathered(records: Seq<Option<Issue>>, r: Option<Issue>)
    ensures
        issues_of(records.push(r)) == match r {
            Some(i) => issues_of(records).push(
                IssueView {
                    code: i.code@,
                    file: i.location.file@,
                    line: i.location.line,
                    message: i.message@,
                },
            ),
            None => issues_of(records),
        },
        issues_of(Seq::empty()).len() == 0,
{
    let all = records.push(r);
    let k = records.len() as int;
    all.lemma_filter_map_take_succ(seen_issue(), k);
    assert(all.take(k) =~= records);
    assert(all.take(k + 1) =~= all);
    let done = issues_of(records);
    assert(done + Seq::<IssueView>::empty() =~= done);
    if let Some(i) = r {
        assert(done + seq![i@] =~= done.push(i@));
    }
}

// ---------------------------------------------------------------------------
// What the arguments decide
// ---------------------------------------------------------------------------

/// A format is asked for before the given arguments, exactly where none of them is
/// `-f` or `-format`, alone or with a value after an equals sign.
pub proof fn json_is_asked_for_where_no_format_is(args: Seq<Seq<char>>, k: int)
    requires
        0 <= k <= args.len(),
        k < args.len() ==> args[k] == "-f"@ || args[k] == "-format"@ || "-f="@.is_prefix_of(args[k])
            || "-format="@.is_prefix_of(args[k]),
        k == args.len() ==> forall|i: int|
            0 <= i < args.len() ==> #[trigger] args[i] != "-f"@ && args[i] != "-format"@
                && !"-f="@.is_prefix_of(args[i]) && !"-format="@.is_prefix_of(args[i]),
    ensures
        format_args(args) == if k < args.len() {
            args
        } else {
            seq!["-f"@, "json"@] + args
        },
{
    if k < args.len() {
        assert(sets_format(args[k]));
    }
}

/// `staticcheck` runs with the given arguments, after a request for JSON where they
/// set no format; the standard output alone goes through the filter.
pub proof fn arguments_are_handed_on(args: Seq<Seq<char>>, verbose: u8)
    ensures
        match planned(args, verbose) {
            plan::PlanView::Filtered(f) => {
                &&& f.program == "staticcheck"@
                &&& f.args == format_args(args)
                &&& f.filter == plan::FilterView::Staticcheck
                &&& f.stdout_only
                &&& f.tool == "staticcheck"@
                &&& f.tee == "staticcheck"@
                &&& f.shown_args == text::joined(args, " "@)
                &&& f.announcement == if verbose == 0 {
                    None
                } else {
                    Some("Running: staticcheck "@ + text::joined(f.args, " "@))
                }
            },
            plan::PlanView::Passthrough(_) => false,
        },
{
}

/// The whole output is kept on disk exactly where it holds more than fifty findings.
pub proof fn a_long_output_is_kept(input: Seq<char>, findings: nat)
    ensures
        issue_tee(input, findings) == if findings > 50 {
            Some(report::TeeView { content: input, slug: "staticcheck"@, from_line: 1 })
        } else {
            None
        },
{
}

} // verus!
