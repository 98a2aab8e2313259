//! `govulncheck`: findings gathered by vulnerability, with the modules that are
//! affected, the fix and a call site.

use crate::decode;
use crate::json;
use crate::lines;
use crate::plan;
use crate::plan::{Filter, Filtered, Plan};
use crate::report;
use crate::report::TeeRequest;
use crate::seqs;
use crate::text;
use vstd::prelude::*;

verus! {

/// How many vulnerabilities a report shows.
pub const MAX_FINDINGS: usize = 20;

/// How wide the row of a vulnerability may be.
pub const MAX_HEAD_WIDTH: usize = 160;

/// How wide the function of a call site may be.
pub const MAX_FUNCTION_WIDTH: usize = 100;

// ---------------------------------------------------------------------------
// What to run
// ---------------------------------------------------------------------------

/// The arguments of `govulncheck`: the given ones, after a request for JSON where
/// they make none.
pub open spec fn json_args(args: Seq<Seq<char>>) -> Seq<Seq<char>> {
    if args.contains("-json"@) || args.contains("--json"@) {
        args
    } else {
        seq!["-json"@] + args
    }
}

/// Adds `-json` unless the arguments already ask for JSON.
pub fn inject_json_flag(args: &[String]) -> (r: Vec<String>)
    ensures
        text::texts(r@) == json_args(text::texts(args@)),
{
    if text::holds(args, "-json") || text::holds(args, "--json") {
        text::copy_all(args)
    } else {
        plan::after_word("-json", args)
    }
}

/// Takes the private flag `--full` out of the arguments and tells whether it was
/// there.
pub fn strip_full_flag(args: &[String]) -> (r: (Vec<String>, bool))
    ensures
        text::texts(r.0@) == plan::without_flag(text::texts(args@), "--full"@),
        r.1 == text::texts(args@).contains("--full"@),
{
    plan::take_flag(args, "--full")
}

/// What `govulncheck` with the given arguments runs: `--full` is kept back and
/// asks for the output as it is.
pub open spec fn planned(args: Seq<Seq<char>>, verbose: u8) -> plan::PlanView {
    let command = json_args(plan::without_flag(args, "--full"@));
    plan::PlanView::Filtered(
        plan::FilteredView {
            program: "govulncheck"@,
            args: command,
            announcement: plan::announced(
                verbose,
                "Running: govulncheck "@ + text::joined(command, " "@),
            ),
            tool: "govulncheck"@,
            shown_args: text::joined(args, " "@),
            filter: if args.contains("--full"@) {
                plan::FilterView::Verbatim
            } else {
                plan::FilterView::Govulncheck
            },
            stdout_only: true,
            tee: "govulncheck"@,
        },
    )
}

/// Plans what `govulncheck` with the given arguments runs.
pub fn run(args: &[String], verbose: u8) -> (r: Plan)
    ensures
        r@ == planned(text::texts(args@), verbose),
{
    let (rest, full) = strip_full_flag(args);
    let command = inject_json_flag(rest.as_slice());
    let said = text::join(command.as_slice(), " ");
    let filter = if full {
        Filter::Verbatim
    } else {
        Filter::Govulncheck
    };
    Plan::Filtered(
        Filtered {
            program: "govulncheck".to_owned(),
            args: command,
            announcement: plan::announce(verbose, "Running: govulncheck ", said.as_str()),
            tool: "govulncheck".to_owned(),
            shown_args: text::join(args, " "),
            filter,
            stdout_only: true,
            tee: "govulncheck".to_owned(),
        },
    )
}

/// The given arguments are handed on, in their order and at the end. Asking for
/// JSON a second time changes nothing.
pub proof fn json_is_asked_for_once(args: Seq<Seq<char>>)
    ensures
        args.is_suffix_of(json_args(args)),
        json_args(json_args(args)) == json_args(args),
{
    let once = json_args(args);
    assert(once.subrange(once.len() - args.len(), once.len() as int) =~= args);
    if !(args.contains("-json"@) || args.contains("--json"@)) {
        assert(once[0] == "-json"@);
        assert(once.contains("-json"@));
    }
}

/// `govulncheck` never sees the private flag `--full`, which alone decides whether
/// its output is filtered.
pub proof fn full_flag_stays_private(args: Seq<Seq<char>>, verbose: u8)
    ensures
        match planned(args, verbose) {
            plan::PlanView::Filtered(f) => {
                &&& !f.args.contains("--full"@)
                &&& f.filter == if args.contains("--full"@) {
                    plan::FilterView::Verbatim
                } else {
                    plan::FilterView::Govulncheck
                }
            },
            plan::PlanView::Passthrough(_) => false,
        },
{
    let rest = plan::without_flag(args, "--full"@);
    let all = json_args(rest);
    plan::flag_is_taken_out(args, "--full"@);
    reveal_strlit("--full");
    reveal_strlit("-json");
    assert("-json"@.len() != "--full"@.len());
    if all.contains("--full"@) && all.len() > rest.len() {
        let k = all.index_of("--full"@);
        assert(all[k] == "--full"@);
        assert(k >= 1);
        assert(rest[k - 1] == "--full"@);
    }
}

// ---------------------------------------------------------------------------
// Records
// ---------------------------------------------------------------------------

/// A place in a source file.
pub struct Position {
    pub filename: Option<String>,
    pub line: Option<u64>,
}

/// One call on the way to a vulnerable function.
pub struct TraceFrame {
    pub module: Option<String>,
    pub version: Option<String>,
    pub function: Option<String>,
    pub position: Option<Position>,
}

/// A vulnerability found in the scanned code.
pub struct Finding {
    /// The id of the vulnerability.
    pub osv: String,
    pub fixed_version: Option<String>,
    /// The calls, from the vulnerable function outwards.
    pub trace: Vec<TraceFrame>,
}

/// A vulnerability as the database describes it.
pub struct OsvEntry {
    pub id: String,
}

/// What a line of the output tells.
pub enum Message {
    Osv(OsvEntry),
    Finding(Finding),
}

/// A place in a source file, as texts.
pub struct PositionView {
    pub filename: Option<Seq<char>>,
    pub line: Option<u64>,
}

impl View for Position {
    type V = PositionView;

    open spec fn view(&self) -> PositionView {
        PositionView { filename: text::opt_text(self.filename), line: self.line }
    }
}

/// One call on the way to a vulnerable function, as texts.
pub struct FrameView {
    pub module: Option<Seq<char>>,
    pub version: Option<Seq<char>>,
    pub function: Option<Seq<char>>,
    pub position: Option<PositionView>,
}

impl View for TraceFrame {
    type V = FrameView;

    open spec fn view(&self) -> FrameView {
        FrameView {
            module: text::opt_text(self.module),
            version: text::opt_text(self.version),
            function: text::opt_text(self.function),
            position: match self.position {
                Some(p) => Some(p@),
                None => None,
            },
        }
    }
}

/// A vulnerability found in the scanned code, as texts.
pub struct FindingView {
    pub osv: Seq<char>,
    pub fixed_version: Option<Seq<char>>,
    pub trace: Seq<FrameView>,
}

impl View for Finding {
    type V = FindingView;

    open spec fn view(&self) -> FindingView {
        FindingView {
            osv: self.osv@,
            fixed_version: text::opt_text(self.fixed_version),
            trace: self.trace@.map_values(|f: TraceFrame| f@),
        }
    }
}

/// What a line of the output tells, as texts.
pub enum MessageView {
    /// The id of a vulnerability that the database describes.
    Osv(Seq<char>),
    Finding(FindingView),
}

impl View for Message {
    type V = MessageView;

    open spec fn view(&self) -> MessageView {
        match self {
            Message::Osv(o) => MessageView::Osv(o.id@),
            Message::Finding(f) => MessageView::Finding(f@),
        }
    }
}

/// What the messages tell.
pub open spec fn message_views(v: Seq<Message>) -> Seq<MessageView> {
    v.map_values(|m: Message| m@)
}

// ---------------------------------------------------------------------------
// What is known of a vulnerability
// ---------------------------------------------------------------------------

/// The vulnerability that a message is about.
pub open spec fn id_of(m: MessageView) -> Seq<char> {
    match m {
        MessageView::Osv(id) => id,
        MessageView::Finding(f) => f.osv,
    }
}

/// The vulnerabilities that the messages are about, in the order in which they are
/// first mentioned.
pub open spec fn ids_in(ms: Seq<MessageView>) -> Seq<Seq<char>> {
    seqs::distinct(ms.map_values(|m: MessageView| id_of(m)))
}

/// The findings of one vulnerability.
pub open spec fn findings_of(ms: Seq<MessageView>, id: Seq<char>) -> Seq<FindingView> {
    ms.filter_map(
        |m: MessageView|
            match m {
                MessageView::Finding(f) => if f.osv == id {
                    Some(f)
                } else {
                    None
                },
                MessageView::Osv(_) => None,
            },
    )
}

/// A text that may be missing; the empty text then.
pub open spec fn or_empty(t: Option<Seq<char>>) -> Seq<char> {
    match t {
        Some(s) => s,
        None => Seq::empty(),
    }
}

/// The first fix that a finding names.
pub open spec fn first_fix(fs: Seq<FindingView>) -> Option<Seq<char>>
    decreases fs.len(),
{
    if fs.len() == 0 {
        None
    } else {
        let before = first_fix(fs.drop_last());
        if before is Some {
            before
        } else {
            fs.last().fixed_version
        }
    }
}

/// A module and its version.
pub struct AffectedView {
    pub module: Seq<char>,
    pub version: Seq<char>,
}

/// The module that a finding tells of: that of the first call, where it has a name.
pub open spec fn affected_by(f: FindingView) -> Option<AffectedView> {
    if f.trace.len() > 0 && or_empty(f.trace[0].module).len() > 0 {
        Some(
            AffectedView {
                module: or_empty(f.trace[0].module),
                version: or_empty(f.trace[0].version),
            },
        )
    } else {
        None
    }
}

/// The modules that the findings tell of, each once.
pub open spec fn affected_in(fs: Seq<FindingView>) -> Seq<AffectedView> {
    seqs::distinct(fs.filter_map(|f: FindingView| affected_by(f)))
}

/// A call in a source file.
pub struct SiteView {
    pub file: Seq<char>,
    pub line: u64,
    pub function: Seq<char>,
}

/// Where a call is, if both file and line are known.
pub open spec fn site_of(f: FrameView) -> Option<SiteView> {
    match f.position {
        Some(p) => match (p.filename, p.line) {
            (Some(file), Some(line)) => Some(
                SiteView { file, line, function: or_empty(f.function) },
            ),
            _ => None,
        },
        None => None,
    }
}

/// The first call of which it is known where it is.
pub open spec fn site_in(trace: Seq<FrameView>) -> Option<SiteView>
    decreases trace.len(),
{
    if trace.len() == 0 {
        None
    } else if site_of(trace[0]) is Some {
        site_of(trace[0])
    } else {
        site_in(trace.skip(1))
    }
}

/// The first call site that a finding names.
pub open spec fn first_site(fs: Seq<FindingView>) -> Option<SiteView>
    decreases fs.len(),
{
    if fs.len() == 0 {
        None
    } else {
        let before = first_site(fs.drop_last());
        if before is Some {
            before
        } else {
            site_in(fs.last().trace)
        }
    }
}

/// What is known of a vulnerability.
pub struct VulnView {
    pub id: Seq<char>,
    pub affected: Seq<AffectedView>,
    pub fix: Option<Seq<char>>,
    pub site: Option<SiteView>,
}

/// What the messages tell of a vulnerability.
pub open spec fn known(ms: Seq<MessageView>, id: Seq<char>) -> VulnView {
    let fs = findings_of(ms, id);
    VulnView { id, affected: affected_in(fs), fix: first_fix(fs), site: first_site(fs) }
}

/// Whether a vulnerability was found, rather than just described.
pub open spec fn is_real(v: VulnView) -> bool {
    v.affected.len() > 0 || v.fix is Some || v.site is Some
}

/// The vulnerabilities that were found, in the order in which they are first
/// mentioned.
pub open spec fn found_in(ms: Seq<MessageView>) -> Seq<VulnView> {
    ids_in(ms).map_values(|id: Seq<char>| known(ms, id)).filter(|v: VulnView| is_real(v))
}

// ---------------------------------------------------------------------------
// The report
// ---------------------------------------------------------------------------

/// A module with its version, where it has one.
pub open spec fn affected_text(a: AffectedView) -> Seq<char> {
    if a.version.len() == 0 {
        a.module
    } else {
        a.module + "@"@ + a.version
    }
}

/// What a vulnerability affects.
pub open spec fn all_affected(v: VulnView) -> Seq<char> {
    text::joined(v.affected.map_values(|a: AffectedView| affected_text(a)), ", "@)
}

/// The fix of a vulnerability, where one is named.
pub open spec fn fix_text(v: VulnView) -> Seq<char> {
    match v.fix {
        Some(f) => if f.len() > 0 {
            " → "@ + f
        } else {
            Seq::empty()
        },
        None => Seq::empty(),
    }
}

/// The first row of a vulnerability.
pub open spec fn head_row(v: VulnView) -> Seq<char> {
    if all_affected(v).len() == 0 {
        "  "@ + v.id + fix_text(v)
    } else {
        "  "@ + v.id + "  "@ + all_affected(v) + fix_text(v)
    }
}

/// The row of a call site, where one is known.
pub open spec fn site_row(site: Option<SiteView>) -> Seq<char> {
    match site {
        Some(s) => {
            let function = if s.function.len() == 0 {
                Seq::empty()
            } else {
                "  "@ + s.function
            };
            "    "@ + s.file + ":"@ + text::decimal(s.line as nat) + text::truncated(
                function,
                MAX_FUNCTION_WIDTH as nat,
            ) + "\n"@
        },
        None => Seq::empty(),
    }
}

/// The rows of a vulnerability.
pub open spec fn vuln_rows(v: VulnView) -> Seq<char> {
    text::truncated(head_row(v), MAX_HEAD_WIDTH as nat) + "\n"@ + site_row(v.site)
}

/// The heading of the report of so many vulnerabilities.
pub open spec fn vuln_head(found: nat) -> Seq<char> {
    "govulncheck: "@ + text::decimal(found) + " finding"@ + report::plural(found) + "\n"@
        + report::rule_line()
}

/// How many vulnerabilities are left out of so many.
pub open spec fn vulns_left_out(found: nat) -> Seq<char> {
    "\n… +"@ + text::decimal((found - MAX_FINDINGS) as nat) + " more findings\n"@
}

/// The end of the report of so many vulnerabilities: how many are left out, if any
/// are, and the pointer to the raw output.
pub open spec fn vuln_ending(found: nat, hint: Option<Seq<char>>) -> Seq<char> {
    if found > MAX_FINDINGS {
        vulns_left_out(found) + report::hint_line(hint)
    } else {
        Seq::empty()
    }
}

/// The report of the vulnerabilities that were found. `hint` points to the raw
/// output on disk; it is shown where not all vulnerabilities are.
pub open spec fn vuln_report(vs: Seq<VulnView>, hint: Option<Seq<char>>) -> Seq<char> {
    let head = vuln_head(vs.len());
    let rows = seqs::first(vs, MAX_FINDINGS as nat).flat_map(|v: VulnView| vuln_rows(v));
    let more = vuln_ending(vs.len(), hint);
    if vs.len() == 0 {
        "govulncheck: clean (no vulnerabilities found)"@
    } else {
        text::trimmed(head + rows + more)
    }
}

/// What is to be kept on disk: the raw output, where not all vulnerabilities are
/// shown.
pub open spec fn vuln_tee(input: Seq<char>, found: nat) -> Option<report::TeeView> {
    if found > MAX_FINDINGS {
        Some(report::TeeView { content: input, slug: "govulncheck"@, from_line: 1 })
    } else {
        None
    }
}

/// What is to be kept on disk before the vulnerabilities in an output are
/// reported.
pub fn tee_request(input: &str, found: usize) -> (r: Option<TeeRequest>)
    ensures
        report::tee_view(r) == vuln_tee(input@, found as nat),
{
    if found > MAX_FINDINGS {
        Some(
            TeeRequest {
                content: input.to_owned(),
                slug: "govulncheck".to_owned(),
                from_line: 1,
            },
        )
    } else {
        None
    }
}

// ---------------------------------------------------------------------------
// Gathering
// ---------------------------------------------------------------------------

/// A module and its version.
pub struct Affected {
    pub module: String,
    pub version: String,
}

impl View for Affected {
    type V = AffectedView;

    open spec fn view(&self) -> AffectedView {
        AffectedView { module: self.module@, version: self.version@ }
    }
}

/// A call in a source file.
pub struct Site {
    pub file: String,
    pub line: u64,
    pub function: String,
}

impl View for Site {
    type V = SiteView;

    open spec fn view(&self) -> SiteView {
        SiteView { file: self.file@, line: self.line, function: self.function@ }
    }
}

/// What a call site that may be missing tells.
pub open spec fn opt_site(v: Option<Site>) -> Option<SiteView> {
    match v {
        Some(s) => Some(s@),
        None => None,
    }
}

/// What modules with their versions tell.
pub open spec fn affected_views(v: Seq<Affected>) -> Seq<AffectedView> {
    v.map_values(|a: Affected| a@)
}

/// What is known of a vulnerability.
pub struct Vuln {
    pub id: String,
    pub affected: Vec<Affected>,
    pub fix: Option<String>,
    pub site: Option<Site>,
}

impl View for Vuln {
    type V = VulnView;

    open spec fn view(&self) -> VulnView {
        VulnView {
            id: self.id@,
            affected: affected_views(self.affected@),
            fix: text::opt_text(self.fix),
            site: opt_site(self.site),
        }
    }
}

/// What is known of each of several vulnerabilities.
pub open spec fn vuln_views(v: Seq<Vuln>) -> Seq<VulnView> {
    v.map_values(|x: Vuln| x@)
}

fn text_or_empty(t: &Option<String>) -> (r: String)
    ensures
        r@ == or_empty(text::opt_text(*t)),
{
    match t {
        Some(s) => s.clone(),
        None => String::new(),
    }
}

fn affects(f: &Finding) -> (r: Option<Affected>)
    ensures
        match r {
            Some(a) => affected_by(f@) == Some(a@),
            None => affected_by(f@) is None,
        },
{
    if f.trace.len() == 0 {
        return None;
    }
    assert(f@.trace[0] == f.trace@[0]@);
    let module = text_or_empty(&f.trace[0].module);
    let version = text_or_empty(&f.trace[0].version);
    if module.as_str().is_empty() {
        None
    } else {
        Some(Affected { module, version })
    }
}

fn frame_site(f: &TraceFrame) -> (r: Option<Site>)
    ensures
        opt_site(r) == site_of(f@),
{
    match &f.position {
        Some(p) => {
            match &p.filename {
                Some(file) => {
                    match p.line {
                        Some(line) => Some(
                            Site {
                                file: file.clone(),
                                line,
                                function: text_or_empty(&f.function),
                            },
                        ),
                        None => None,
                    }
                },
                None => None,
            }
        },
        None => None,
    }
}

fn call_site(f: &Finding) -> (r: Option<Site>)
    ensures
        opt_site(r) == site_in(f@.trace),
{
    let ghost all = f@.trace;
    let n: usize = f.trace.len();
    let mut i: usize = 0;
    assert(all.skip(0) =~= all);
    while i < n
        invariant
            n == f.trace@.len(),
            i <= n,
            all == f@.trace,
            site_in(all) == site_in(all.skip(i as int)),
        decreases n - i,
    {
        assert(all.skip(i as int)[0] == f.trace@[i as int]@);
        let site = frame_site(&f.trace[i]);
        if site.is_some() {
            return site;
        }
        assert(all.skip(i as int).skip(1) =~= all.skip(i + 1));
        i += 1;
    }
    None
}

fn lists(v: &Vec<Affected>, a: &Affected) -> (r: bool)
    ensures
        r == affected_views(v@).contains(a@),
{
    let n: usize = v.len();
    for i in 0..n
        invariant
            n == v@.len(),
            forall|j: int| 0 <= j < i ==> affected_views(v@)[j] != a@,
    {
        if v[i].module == a.module && v[i].version == a.version {
            assert(affected_views(v@)[i as int] == a@);
            return true;
        }
    }
    false
}

/// One message further, the findings of a vulnerability are the same or one more.
proof fn lemma_findings_step(ms: Seq<MessageView>, id: Seq<char>, i: int)
    requires
        0 <= i < ms.len(),
    ensures
        findings_of(ms.take(i + 1), id) == match ms[i] {
            MessageView::Finding(f) => if f.osv == id {
                findings_of(ms.take(i), id).push(f)
            } else {
                findings_of(ms.take(i), id)
            },
            MessageView::Osv(_) => findings_of(ms.take(i), id),
        },
{
    let g = |m: MessageView|
        match m {
            MessageView::Finding(f) => if f.osv == id {
                Some(f)
            } else {
                None
            },
            MessageView::Osv(_) => None,
        };
    ms.lemma_filter_map_take_succ(g, i);
    let done = findings_of(ms.take(i), id);
    assert(done + Seq::<FindingView>::empty() =~= done);
    if let MessageView::Finding(f) = ms[i] {
        assert(done + seq![f] =~= done.push(f));
    }
}

/// What one finding more adds to what is known.
proof fn lemma_known_step(fs: Seq<FindingView>, f: FindingView)
    ensures
        first_fix(fs.push(f)) == if first_fix(fs) is Some {
            first_fix(fs)
        } else {
            f.fixed_version
        },
        first_site(fs.push(f)) == if first_site(fs) is Some {
            first_site(fs)
        } else {
            site_in(f.trace)
        },
        affected_in(fs.push(f)) == match affected_by(f) {
            Some(a) => if affected_in(fs).contains(a) {
                affected_in(fs)
            } else {
                affected_in(fs).push(a)
            },
            None => affected_in(fs),
        },
{
    let g = |x: FindingView| affected_by(x);
    let gs = fs.push(f);
    let k = fs.len() as int;
    assert(gs.drop_last() =~= fs);
    gs.lemma_filter_map_take_succ(g, k);
    assert(gs.take(k) =~= fs);
    assert(gs.take(k + 1) =~= gs);
    let done = fs.filter_map(g);
    assert(done + Seq::<AffectedView>::empty() =~= done);
    if let Some(a) = affected_by(f) {
        assert(done + seq![a] =~= done.push(a));
        seqs::lemma_distinct_push(done, a);
    }
}

/// Gathers what the messages tell of one vulnerability.
fn describe(messages: &Vec<Message>, id: &str) -> (r: Vuln)
    ensures
        r@ == known(message_views(messages@), id@),
{
    let ghost ms = message_views(messages@);
    let sought = id.to_owned();
    let mut affected: Vec<Affected> = Vec::new();
    let mut fix: Option<String> = None;
    let mut site: Option<Site> = None;
    proof {
        let none = findings_of(ms.take(0), id@);
        assert(none =~= Seq::<FindingView>::empty());
        assert(none.filter_map(|f: FindingView| affected_by(f)) =~= Seq::empty());
        assert(affected_views(affected@) =~= affected_in(none));
    }
    for i in 0..messages.len()
        invariant
            ms == message_views(messages@),
            sought@ == id@,
            affected_views(affected@) == affected_in(findings_of(ms.take(i as int), id@)),
            text::opt_text(fix) == first_fix(findings_of(ms.take(i as int), id@)),
            opt_site(site) == first_site(findings_of(ms.take(i as int), id@)),
    {
        let ghost fs = findings_of(ms.take(i as int), id@);
        proof {
            assert(ms[i as int] == messages@[i as int]@);
            lemma_findings_step(ms, id@, i as int);
        }
        if let Message::Finding(f) = &messages[i] {
            if f.osv == sought {
                proof {
                    lemma_known_step(fs, f@);
                }
                if fix.is_none() {
                    fix = match &f.fixed_version {
                        Some(v) => Some(v.clone()),
                        None => None,
                    };
                }
                if let Some(a) = affects(f) {
                    if !lists(&affected, &a) {
                        let ghost done = affected_views(affected@);
                        affected.push(a);
                        assert(affected_views(affected@) =~= done.push(a@));
                    }
                }
                if site.is_none() {
                    site = call_site(f);
                }
            }
        }
    }
    proof {
        seqs::lemma_take_all(ms);
    }
    Vuln { id: sought, affected, fix, site }
}

/// The vulnerabilities that the messages are about.
fn mentioned(messages: &Vec<Message>) -> (r: Vec<String>)
    ensures
        text::texts(r@) == ids_in(message_views(messages@)),
{
    let ghost ms = message_views(messages@);
    let ghost all = ms.map_values(|m: MessageView| id_of(m));
    let mut ids: Vec<String> = Vec::new();
    assert(text::texts(ids@) =~= all.take(0));
    for i in 0..messages.len()
        invariant
            ms == message_views(messages@),
            all == ms.map_values(|m: MessageView| id_of(m)),
            text::texts(ids@) == all.take(i as int),
    {
        let ghost done = text::texts(ids@);
        let id = match &messages[i] {
            Message::Osv(o) => o.id.clone(),
            Message::Finding(f) => f.osv.clone(),
        };
        ids.push(id);
        proof {
            assert(ms[i as int] == messages@[i as int]@);
            assert(text::texts(ids@) =~= done.push(id@));
            assert(all.take(i + 1) =~= all.take(i as int).push(all[i as int]));
        }
    }
    proof {
        seqs::lemma_take_all(all);
    }
    text::distinct_texts(&ids)
}

/// Gathers the vulnerabilities that were found, each with what the messages tell
/// of it.
pub fn collect_vulns(messages: &Vec<Message>) -> (r: Vec<Vuln>)
    ensures
        vuln_views(r@) == found_in(message_views(messages@)),
{
    let ghost ms = message_views(messages@);
    let ids = mentioned(messages);
    let ghost all = ids_in(ms).map_values(|id: Seq<char>| known(ms, id));
    let ghost p = |v: VulnView| is_real(v);
    let mut out: Vec<Vuln> = Vec::new();
    proof {
        seqs::lemma_filter_none(all, p);
        assert(vuln_views(out@) =~= all.take(0).filter(p));
    }
    for i in 0..ids.len()
        invariant
            ms == message_views(messages@),
            text::texts(ids@) == ids_in(ms),
            all == ids_in(ms).map_values(|id: Seq<char>| known(ms, id)),
            p == (|v: VulnView| is_real(v)),
            vuln_views(out@) == all.take(i as int).filter(p),
    {
        let ghost done = vuln_views(out@);
        let v = describe(messages, ids[i].as_str());
        proof {
            assert(text::texts(ids@)[i as int] == ids@[i as int]@);
            assert(all[i as int] == v@);
            seqs::lemma_filter_step(all, p, i as int);
        }
        if v.affected.len() > 0 || v.fix.is_some() || v.site.is_some() {
            out.push(v);
            assert(vuln_views(out@) =~= done.push(v@));
        }
    }
    proof {
        seqs::lemma_take_all(all);
    }
    out
}

// ---------------------------------------------------------------------------
// Reporting
// ---------------------------------------------------------------------------

fn affected_list(affected: &Vec<Affected>) -> (r: String)
    ensures
        r@ == text::joined(
            affected_views(affected@).map_values(|a: AffectedView| affected_text(a)),
            ", "@,
        ),
{
    let ghost all = affected_views(affected@).map_values(|a: AffectedView| affected_text(a));
    let mut names: Vec<String> = Vec::new();
    assert(text::texts(names@) =~= all.take(0));
    for i in 0..affected.len()
        invariant
            all == affected_views(affected@).map_values(|a: AffectedView| affected_text(a)),
            text::texts(names@) == all.take(i as int),
    {
        let ghost done = text::texts(names@);
        let mut name = affected[i].module.clone();
        if !affected[i].version.as_str().is_empty() {
            name.append("@");
            name.append(affected[i].version.as_str());
        }
        assert(name@ == affected_text(affected@[i as int]@));
        names.push(name);
        proof {
            assert(text::texts(names@) =~= done.push(name@));
            assert(all.take(i + 1) =~= all.take(i as int).push(all[i as int]));
        }
    }
    proof {
        seqs::lemma_take_all(all);
    }
    text::join(names.as_slice(), ", ")
}

fn head_of(v: &Vuln) -> (r: String)
    ensures
        r@ == head_row(v@),
{
    let affected = affected_list(&v.affected);
    let mut out = "  ".to_owned();
    out.append(v.id.as_str());
    if !affected.as_str().is_empty() {
        out.append("  ");
        out.append(affected.as_str());
    }
    let ghost named = out@;
    if let Some(f) = &v.fix {
        if !f.as_str().is_empty() {
            out.append(" → ");
            out.append(f.as_str());
            assert(out@ =~= named + (" → "@ + f@));
        } else {
            assert(out@ =~= named + Seq::<char>::empty());
        }
    } else {
        assert(out@ =~= named + Seq::<char>::empty());
    }
    out
}

fn push_site_row(out: &mut String, site: &Option<Site>)
    ensures
        final(out)@ == old(out)@ + site_row(opt_site(*site)),
{
    let ghost before = out@;
    if let Some(s) = site {
        let mut function = String::new();
        if !s.function.as_str().is_empty() {
            function.append("  ");
            function.append(s.function.as_str());
            assert(function@ =~= "  "@ + s.function@);
        }
        let function = text::truncate(function.as_str(), MAX_FUNCTION_WIDTH);
        out.append("    ");
        out.append(s.file.as_str());
        out.append(":");
        text::push_decimal(out, s.line as u128);
        out.append(function.as_str());
        out.append("\n");
        assert(out@ =~= before + site_row(opt_site(*site)));
    } else {
        assert(out@ =~= before + Seq::<char>::empty());
    }
}

fn push_vuln_rows(out: &mut String, v: &Vuln)
    ensures
        final(out)@ == old(out)@ + vuln_rows(v@),
{
    let ghost before = out@;
    let head = head_of(v);
    let head = text::truncate(head.as_str(), MAX_HEAD_WIDTH);
    out.append(head.as_str());
    out.append("\n");
    push_site_row(out, &v.site);
    assert(out@ =~= before + vuln_rows(v@));
}

/// Reports the vulnerabilities that were found. `hint` points to the raw output
/// on disk.
pub fn summarize_vulns(vulns: &Vec<Vuln>, hint: Option<&str>) -> (r: String)
    ensures
        r@ == vuln_report(vuln_views(vulns@), text::opt_str(hint)),
{
    let n: usize = vulns.len();
    if n == 0 {
        return "govulncheck: clean (no vulnerabilities found)".to_owned();
    }
    let ghost all = vuln_views(vulns@);
    let mut out = "govulncheck: ".to_owned();
    text::push_count(&mut out, n);
    out.append(" finding");
    report::push_plural(&mut out, n);
    out.append("\n");
    report::push_rule_line(&mut out);
    let ghost head = out@;
    let ghost kept = seqs::first(all, MAX_FINDINGS as nat);
    let ghost f = |v: VulnView| vuln_rows(v);
    let stop: usize = if n > MAX_FINDINGS {
        MAX_FINDINGS
    } else {
        n
    };
    proof {
        seqs::lemma_rows_none(kept, f);
        assert(out@ =~= head + kept.take(0).flat_map(f));
    }
    for i in 0..stop
        invariant
            n == vulns@.len(),
            all == vuln_views(vulns@),
            kept == seqs::first(all, MAX_FINDINGS as nat),
            stop <= n,
            stop == kept.len(),
            f == (|v: VulnView| vuln_rows(v)),
            out@ == head + kept.take(i as int).flat_map(f),
    {
        push_vuln_rows(&mut out, &vulns[i]);
        proof {
            assert(kept[i as int] == vulns@[i as int]@);
            seqs::lemma_rows_step(kept, f, i as int);
            assert(out@ =~= head + kept.take(i + 1).flat_map(f));
        }
    }
    proof {
        seqs::lemma_take_all(kept);
    }
    let ghost listed = out@;
    if n > MAX_FINDINGS {
        out.append("\n… +");
        text::push_count(&mut out, n - MAX_FINDINGS);
        out.append(" more findings\n");
        report::push_hint_line(&mut out, hint);
        assert(out@ =~= listed + ("\n… +"@ + text::decimal((n - MAX_FINDINGS) as nat)
            + " more findings\n"@ + report::hint_line(text::opt_str(hint))));
    } else {
        assert(out@ =~= listed + Seq::<char>::empty());
    }
    text::trim(out.as_str())
}

// ---------------------------------------------------------------------------
// Reading the output
// ---------------------------------------------------------------------------

/// The record that a line carries, as JSON text.
pub enum Payload {
    /// The description of a vulnerability.
    Osv(String),
    /// A finding.
    Finding(String),
}

/// The record that a line carries, as texts.
pub enum PayloadView {
    Osv(Seq<char>),
    Finding(Seq<char>),
}

impl View for Payload {
    type V = PayloadView;

    open spec fn view(&self) -> PayloadView {
        match self {
            Payload::Osv(t) => PayloadView::Osv(t@),
            Payload::Finding(t) => PayloadView::Finding(t@),
        }
    }
}

/// The records of several lines.
pub open spec fn payload_views(v: Seq<Payload>) -> Seq<PayloadView> {
    v.map_values(|p: Payload| p@)
}

/// The record that an object with the given members carries: what stands under
/// `osv`, else under `finding`. Other objects carry none.
pub open spec fn payload_of(fields: Option<Seq<(Seq<char>, Seq<char>)>>) -> Option<PayloadView> {
    match fields {
        Some(fs) => match json::value_under(fs, "osv"@) {
            Some(t) => Some(PayloadView::Osv(t)),
            None => match json::value_under(fs, "finding"@) {
                Some(t) => Some(PayloadView::Finding(t)),
                None => None,
            },
        },
        None => None,
    }
}

/// The record that a line carries, if it does, as a mapping.
pub open spec fn carried() -> spec_fn(Seq<char>) -> Option<PayloadView> {
    |l: Seq<char>| payload_of(json::object_fields(l))
}

/// The records in an output, line by line.
pub open spec fn payloads_in(input: Seq<char>) -> Seq<PayloadView> {
    lines::object_lines_of(input).filter_map(carried())
}

/// Finds the record that an object carries.
pub fn find_payload(fields: &Option<Vec<(String, String)>>) -> (r: Option<Payload>)
    ensures
        match r {
            Some(p) => payload_of(json::fields_view(*fields)) == Some(p@),
            None => payload_of(json::fields_view(*fields)) is None,
        },
{
    match fields {
        Some(fs) => {
            if let Some(t) = json::get_field(fs, "osv") {
                return Some(Payload::Osv(t));
            }
            match json::get_field(fs, "finding") {
                Some(t) => Some(Payload::Finding(t)),
                None => None,
            }
        },
        None => None,
    }
}

/// Finds the records in an output.
pub fn read_payloads(input: &str) -> (r: Vec<Payload>)
    ensures
        payload_views(r@) == payloads_in(input@),
{
    let candidates = lines::object_lines(input);
    let ghost all = text::texts(candidates@);
    let ghost f = carried();
    let mut out: Vec<Payload> = Vec::new();
    assert(payload_views(out@) =~= all.take(0).filter_map(f));
    for i in 0..candidates.len()
        invariant
            all == text::texts(candidates@),
            f == carried(),
            payload_views(out@) == all.take(i as int).filter_map(f),
    {
        let ghost done = payload_views(out@);
        let fields = json::read_object(candidates[i].as_str());
        proof {
            assert(all[i as int] == candidates@[i as int]@);
            all.lemma_filter_map_take_succ(f, i as int);
            assert(done + Seq::<PayloadView>::empty() =~= done);
        }
        if let Some(p) = find_payload(&fields) {
            out.push(p);
            assert(payload_views(out@) =~= done + seq![p@]);
        }
    }
    proof {
        seqs::lemma_take_all(all);
    }
    out
}

/// The two decoders may answer `message` for the record `p`; `None` stands for a
/// record that cannot be decoded.
pub open spec fn decodes_message<O: Fn(&str) -> Option<OsvEntry>, F: Fn(&str) -> Option<Finding>>(
    decode_osv: O,
    decode_finding: F,
    p: PayloadView,
    message: Option<Message>,
) -> bool {
    match p {
        PayloadView::Osv(t) => match message {
            Some(Message::Osv(o)) => decode::decodes_to(decode_osv, t, Some(o)),
            Some(Message::Finding(_)) => false,
            None => decode::decodes_to(decode_osv, t, None),
        },
        PayloadView::Finding(t) => match message {
            Some(Message::Osv(_)) => false,
            Some(Message::Finding(f)) => decode::decodes_to(decode_finding, t, Some(f)),
            None => decode::decodes_to(decode_finding, t, None),
        },
    }
}

/// The messages are what the two decoders answer for the records, one by one.
pub open spec fn decodes_messages<O: Fn(&str) -> Option<OsvEntry>, F: Fn(&str) -> Option<Finding>>(
    decode_osv: O,
    decode_finding: F,
    payloads: Seq<PayloadView>,
    messages: Seq<Option<Message>>,
) -> bool {
    &&& messages.len() == payloads.len()
    &&& forall|i: int|
        0 <= i < payloads.len() ==> decodes_message(
            decode_osv,
            decode_finding,
            #[trigger] payloads[i],
            messages[i],
        )
}

/// The message that a decoded record gives, if it does, as a mapping.
pub open spec fn seen_message() -> spec_fn(Option<Message>) -> Option<MessageView> {
    |r: Option<Message>|
        match r {
            Some(m) => Some(m@),
            None => None,
        }
}

/// The messages among the decoded records; a record that could not be decoded is
/// none.
pub open spec fn messages_of(records: Seq<Option<Message>>) -> Seq<MessageView> {
    records.filter_map(seen_message())
}

/// The decoders always answer the same for a record, as far as the report looks at
/// the answer.
pub open spec fn determinate<O: Fn(&str) -> Option<OsvEntry>, F: Fn(&str) -> Option<Finding>>(
    decode_osv: O,
    decode_finding: F,
) -> bool {
    forall|p: PayloadView, x: Option<Message>, y: Option<Message>|
        #![trigger decodes_message(decode_osv, decode_finding, p, x), decodes_message(decode_osv, decode_finding, p, y)]
        decodes_message(decode_osv, decode_finding, p, x) && decodes_message(
            decode_osv,
            decode_finding,
            p,
            y,
        ) ==> seen_message()(x) == seen_message()(y)
}

/// The message seen in an answer of the decoders for a record, as a mapping.
pub open spec fn answer<O: Fn(&str) -> Option<OsvEntry>, F: Fn(&str) -> Option<Finding>>(
    decode_osv: O,
    decode_finding: F,
) -> spec_fn(PayloadView) -> Option<MessageView> {
    |p: PayloadView|
        seen_message()(
            choose|x: Option<Message>| decodes_message(decode_osv, decode_finding, p, x),
        )
}

/// The messages that decoders that always answer the same tell of in an output.
pub open spec fn told_messages<O: Fn(&str) -> Option<OsvEntry>, F: Fn(&str) -> Option<Finding>>(
    decode_osv: O,
    decode_finding: F,
    input: Seq<char>,
) -> Seq<MessageView> {
    payloads_in(input).filter_map(answer(decode_osv, decode_finding))
}

/// What is seen in the answers for some records depends on the records alone, for
/// decoders that always answer the same.
proof fn lemma_answers<O: Fn(&str) -> Option<OsvEntry>, F: Fn(&str) -> Option<Finding>>(
    decode_osv: O,
    decode_finding: F,
    payloads: Seq<PayloadView>,
    records: Seq<Option<Message>>,
)
    requires
        determinate(decode_osv, decode_finding),
        decodes_messages(decode_osv, decode_finding, payloads, records),
    ensures
        messages_of(records) == payloads.filter_map(answer(decode_osv, decode_finding)),
{
    let f = answer(decode_osv, decode_finding);
    assert forall|i: int| 0 <= i < records.len() implies seen_message()(#[trigger] records[i]) == f(
        payloads[i],
    ) by {
        let p = payloads[i];
        assert(decodes_message(decode_osv, decode_finding, p, records[i]));
        let x = choose|x: Option<Message>| decodes_message(decode_osv, decode_finding, p, x);
        assert(decodes_message(decode_osv, decode_finding, p, x));
    }
    seqs::lemma_filter_map_same(records, seen_message(), payloads, f);
}

proof fn lemma_messages_push(records: Seq<Option<Message>>, r: Option<Message>)
    ensures
        messages_of(records.push(r)) == match r {
            Some(m) => messages_of(records).push(m@),
            None => messages_of(records),
        },
{
    let g = seen_message();
    let k = records.len() as int;
    let more = records.push(r);
    more.lemma_filter_map_take_succ(g, k);
    assert(more.take(k) =~= records);
    assert(more.take(k + 1) =~= more);
    let done = messages_of(records);
    assert(done + Seq::<MessageView>::empty() =~= done);
    if let Some(m) = r {
        assert(done + seq![m@] =~= done.push(m@));
    }
}

fn decode_payload<O: Fn(&str) -> Option<OsvEntry>, F: Fn(&str) -> Option<Finding>>(
    p: &Payload,
    decode_osv: &O,
    decode_finding: &F,
) -> (r: Option<Message>)
    requires
        forall|s: &str| call_requires(*decode_osv, (s,)),
        forall|s: &str| call_requires(*decode_finding, (s,)),
    ensures
        decodes_message(*decode_osv, *decode_finding, p@, r),
{
    match p {
        Payload::Osv(t) => {
            let s = t.as_str();
            let v = decode_osv(s);
            assert(decode::decodes_to(*decode_osv, t@, v));
            match v {
                Some(o) => Some(Message::Osv(o)),
                None => None,
            }
        },
        Payload::Finding(t) => {
            let s = t.as_str();
            let v = decode_finding(s);
            assert(decode::decodes_to(*decode_finding, t@, v));
            match v {
                Some(f) => Some(Message::Finding(f)),
                None => None,
            }
        },
    }
}

/// The messages in an output: its records, decoded. Records that cannot be decoded
/// are passed over.
pub fn decode_messages<O: Fn(&str) -> Option<OsvEntry>, F: Fn(&str) -> Option<Finding>>(
    input: &str,
    decode_osv: O,
    decode_finding: F,
) -> (r: Vec<Message>)
    requires
        forall|s: &str| call_requires(decode_osv, (s,)),
        forall|s: &str| call_requires(decode_finding, (s,)),
    ensures
        exists|records: Seq<Option<Message>>|
            #![trigger messages_of(records)]
            decodes_messages(decode_osv, decode_finding, payloads_in(input@), records)
                && message_views(r@) == messages_of(records),
        determinate(decode_osv, decode_finding) ==> message_views(r@) == told_messages(
            decode_osv,
            decode_finding,
            input@,
        ),
{
    let payloads = read_payloads(input);
    let ghost all = payload_views(payloads@);
    let ghost mut records: Seq<Option<Message>> = Seq::empty();
    let mut out: Vec<Message> = Vec::new();
    assert(message_views(out@) =~= messages_of(records));
    for i in 0..payloads.len()
        invariant
            all == payload_views(payloads@),
            forall|s: &str| call_requires(decode_osv, (s,)),
            forall|s: &str| call_requires(decode_finding, (s,)),
            records.len() == i,
            forall|j: int|
                0 <= j < i ==> decodes_message(
                    decode_osv,
                    decode_finding,
                    #[trigger] all[j],
                    records[j],
                ),
            message_views(out@) == messages_of(records),
    {
        let ghost done = message_views(out@);
        let answer = decode_payload(&payloads[i], &decode_osv, &decode_finding);
        proof {
            assert(all[i as int] == payloads@[i as int]@);
            lemma_messages_push(records, answer);
            records = records.push(answer);
        }
        if let Some(m) = answer {
            out.push(m);
            assert(message_views(out@) =~= done.push(m@));
        }
    }
    proof {
        assert(decodes_messages(decode_osv, decode_finding, payloads_in(input@), records));
        if determinate(decode_osv, decode_finding) {
            lemma_answers(decode_osv, decode_finding, payloads_in(input@), records);
        }
    }
    out
}

/// Filters the output of `govulncheck -json`: reports the vulnerabilities that
/// were found. `hint` points to the raw output on disk.
pub fn filter_govulncheck_json<O: Fn(&str) -> Option<OsvEntry>, F: Fn(&str) -> Option<Finding>>(
    input: &str,
    decode_osv: O,
    decode_finding: F,
    hint: Option<&str>,
) -> (r: String)
    requires
        forall|s: &str| call_requires(decode_osv, (s,)),
        forall|s: &str| call_requires(decode_finding, (s,)),
    ensures
        exists|records: Seq<Option<Message>>|
            #![trigger messages_of(records)]
            decodes_messages(decode_osv, decode_finding, payloads_in(input@), records) && r@
                == vuln_report(found_in(messages_of(records)), text::opt_str(hint)),
        determinate(decode_osv, decode_finding) ==> r@ == vuln_report(
            found_in(told_messages(decode_osv, decode_finding, input@)),
            text::opt_str(hint),
        ),
{
    let messages = decode_messages(input, decode_osv, decode_finding);
    let vulns = collect_vulns(&messages);
    summarize_vulns(&vulns, hint)
}

// ---------------------------------------------------------------------------
// Laws
// ---------------------------------------------------------------------------

/// A record that could not be decoded makes no difference to the messages.
pub proof fn malformed_records_are_skipped(
    before: Seq<Option<Message>>,
    after: Seq<Option<Message>>,
)
    ensures
        messages_of(before.push(None) + after) == messages_of(before + after),
{
    seqs::lemma_filter_map_skips(before, None, after, seen_message());
}

/// A line carries no record where it is blank, does not begin with an opening brace,
/// is no JSON object, or is one with neither an `osv` nor a `finding`.
pub proof fn line_without_a_record(l: Seq<char>)
    requires
        text::first_index(l, '\n') == l.len(),
        lines::opens_object(text::trimmed(l)) ==> payload_of(
            json::object_fields(text::trimmed(l)),
        ) is None,
    ensures
        payloads_in(l).len() == 0,
{
    lines::lemma_single_line(l);
    seqs::lemma_filter_map_nothing(lines::object_lines_of(l), carried());
}

/// Lines that carry no record, put in anywhere among the lines of an output, make no
/// difference to its records.
pub proof fn lines_without_records_are_skipped(
    plain: Seq<char>,
    noise: Seq<char>,
    noisy: Seq<char>,
)
    requires
        lines::lines_inserted(plain, noise, noisy),
        payloads_in(noise).len() == 0,
    ensures
        payloads_in(noisy) == payloads_in(plain),
{
    let (before, after) = lemma_payloads_inserted(plain, noise, noisy);
    assert(before + payloads_in(noise) =~= before);
}

/// The records of an output into which lines were put: what comes before them, what
/// they carry, and what comes after them.
proof fn lemma_payloads_inserted(plain: Seq<char>, noise: Seq<char>, noisy: Seq<char>) -> (r: (
    Seq<PayloadView>,
    Seq<PayloadView>,
))
    requires
        lines::lines_inserted(plain, noise, noisy),
    ensures
        payloads_in(plain) == r.0 + r.1,
        payloads_in(noisy) == r.0 + payloads_in(noise) + r.1,
{
    let (before, after) = lines::lemma_lines_inserted(plain, noise, noisy);
    let between = lines::object_lines_of(noise);
    seqs::lemma_filter_map_add(before, after, carried());
    seqs::lemma_filter_map_add(before, between, carried());
    seqs::lemma_filter_map_add(before + between, after, carried());
    (before.filter_map(carried()), after.filter_map(carried()))
}

/// The decoders cannot decode a record.
pub open spec fn undecodable<O: Fn(&str) -> Option<OsvEntry>, F: Fn(&str) -> Option<Finding>>(
    decode_osv: O,
    decode_finding: F,
    p: PayloadView,
) -> bool {
    forall|x: Option<Message>| #[trigger]
        decodes_message(decode_osv, decode_finding, p, x) ==> x is None
}

/// Lines that tell of no vulnerability, put in anywhere among the lines of an output,
/// make no difference to the report, for decoders that always answer the same: lines
/// that carry no record, and lines whose record they cannot decode.
pub proof fn noise_makes_no_difference<
    O: Fn(&str) -> Option<OsvEntry>,
    F: Fn(&str) -> Option<Finding>,
>(
    decode_osv: O,
    decode_finding: F,
    plain: Seq<char>,
    noise: Seq<char>,
    noisy: Seq<char>,
    plain_records: Seq<Option<Message>>,
    noisy_records: Seq<Option<Message>>,
    hint: Option<Seq<char>>,
)
    requires
        determinate(decode_osv, decode_finding),
        lines::lines_inserted(plain, noise, noisy),
        forall|i: int|
            0 <= i < payloads_in(noise).len() ==> undecodable(
                decode_osv,
                decode_finding,
                #[trigger] payloads_in(noise)[i],
            ),
        decodes_messages(decode_osv, decode_finding, payloads_in(plain), plain_records),
        decodes_messages(decode_osv, decode_finding, payloads_in(noisy), noisy_records),
    ensures
        vuln_report(found_in(messages_of(noisy_records)), hint) == vuln_report(
            found_in(messages_of(plain_records)),
            hint,
        ),
{
    let (before, after) = lemma_payloads_inserted(plain, noise, noisy);
    let between = payloads_in(noise);
    let answers = |p: PayloadView, x: Option<Message>|
        decodes_message(decode_osv, decode_finding, p, x);
    assert forall|i: int| 0 <= i < noisy_records.len() implies answers(
        (before + between + after)[i],
        #[trigger] noisy_records[i],
    ) by {
        assert(decodes_message(
            decode_osv,
            decode_finding,
            payloads_in(noisy)[i],
            noisy_records[i],
        ));
    }
    assert forall|i: int| 0 <= i < plain_records.len() implies answers(
        (before + after)[i],
        #[trigger] plain_records[i],
    ) by {
        assert(decodes_message(
            decode_osv,
            decode_finding,
            payloads_in(plain)[i],
            plain_records[i],
        ));
    }
    assert forall|i: int, x: Option<Message>|
        0 <= i < between.len() && #[trigger] answers(between[i], x) implies seen_message()(
        x,
    ) is None by {
        assert(undecodable(decode_osv, decode_finding, between[i]));
        assert(decodes_message(decode_osv, decode_finding, between[i], x));
    }
    decode::lemma_noise_is_not_seen(
        answers,
        seen_message(),
        before,
        between,
        after,
        noisy_records,
        plain_records,
    );
}

/// The vulnerabilities among the first `n` mentioned are found once each.
proof fn lemma_found_once(ms: Seq<MessageView>, n: int)
    requires
        0 <= n <= ids_in(ms).len(),
    ensures
        ({
            let all = ids_in(ms).map_values(|id: Seq<char>| known(ms, id));
            let found = all.take(n).filter(|v: VulnView| is_real(v));
            &&& forall|i: int|
                0 <= i < found.len() ==> ids_in(ms).take(n).contains((#[trigger] found[i]).id)
            &&& forall|i: int, j: int|
                0 <= i < j < found.len() ==> (#[trigger] found[i]).id != (#[trigger] found[j]).id
        }),
    decreases n,
{
    let ids = ids_in(ms);
    let all = ids.map_values(|id: Seq<char>| known(ms, id));
    let p = |v: VulnView| is_real(v);
    seqs::lemma_filter_none(all, p);
    if n > 0 {
        let before = all.take(n - 1).filter(p);
        let found = all.take(n).filter(p);
        lemma_found_once(ms, n - 1);
        seqs::lemma_filter_step(all, p, n - 1);
        seqs::lemma_distinct(ms.map_values(|m: MessageView| id_of(m)));
        assert(ids.no_duplicates());
        assert forall|i: int| 0 <= i < before.len() implies (#[trigger] before[i]).id != ids[n - 1]
            && ids.take(n).contains(before[i].id) by {
            let k = ids.take(n - 1).index_of(before[i].id);
            assert(ids.take(n - 1)[k] == ids[k]);
            assert(ids.take(n)[k] == ids[k]);
        }
        assert(ids.take(n)[n - 1] == ids[n - 1]);
        assert forall|i: int| 0 <= i < found.len() implies ids.take(n).contains(
            (#[trigger] found[i]).id,
        ) by {
            if i < before.len() {
                assert(found[i] == before[i]);
            }
        }
    }
}

/// However many findings name a vulnerability, it is reported once.
pub proof fn vulnerabilities_are_reported_once(ms: Seq<MessageView>)
    ensures
        forall|i: int, j: int|
            0 <= i < j < found_in(ms).len() ==> (#[trigger] found_in(ms)[i]).id != (
            #[trigger] found_in(ms)[j]).id,
{
    let all = ids_in(ms).map_values(|id: Seq<char>| known(ms, id));
    lemma_found_once(ms, ids_in(ms).len() as int);
    seqs::lemma_take_all(all);
}

/// A module that is affected is listed once with each of its versions, and only
/// where a finding tells of it.
pub proof fn affected_modules_are_listed_once(ms: Seq<MessageView>, id: Seq<char>)
    ensures
        known(ms, id).affected.no_duplicates(),
        forall|a: AffectedView| #[trigger]
            known(ms, id).affected.contains(a) ==> exists|f: FindingView| #[trigger]
                findings_of(ms, id).contains(f) && affected_by(f) == Some(a),
{
    let fs = findings_of(ms, id);
    let g = |f: FindingView| affected_by(f);
    seqs::lemma_distinct(fs.filter_map(g));
    assert forall|a: AffectedView| #[trigger]
        known(ms, id).affected.contains(a) implies exists|f: FindingView| #[trigger]
        fs.contains(f) && affected_by(f) == Some(a) by {
        assert(fs.filter_map(g).contains(a));
        fs.lemma_filter_map_contains(g, a);
        let f = choose|f: FindingView| #[trigger] fs.contains(f) && g(f) == Some(a);
        assert(fs.contains(f) && affected_by(f) == Some(a));
    }
}

/// A vulnerability that the database describes, and of which there is no finding,
/// is not reported; neither is one that no message is about.
pub proof fn mere_descriptions_are_not_reported(ms: Seq<MessageView>, i: int)
    requires
        0 <= i < found_in(ms).len(),
    ensures
        findings_of(ms, found_in(ms)[i].id).len() > 0,
        ids_in(ms).contains(found_in(ms)[i].id),
        found_in(ms)[i] == known(ms, found_in(ms)[i].id),
{
    let all = ids_in(ms).map_values(|id: Seq<char>| known(ms, id));
    let p = |v: VulnView| is_real(v);
    let v = found_in(ms)[i];
    all.lemma_filter_pred(p, i);
    assert(all.filter(p).contains(v));
    all.lemma_filter_contains_rev(p, v);
    let k = all.index_of(v);
    assert(all[k] == v);
    let id = ids_in(ms)[k];
    assert(v == known(ms, id));
    let fs = findings_of(ms, id);
    if fs.len() == 0 {
        assert(fs.filter_map(|f: FindingView| affected_by(f)) =~= Seq::empty());
    }
}

/// The report shows the first vulnerabilities, each on a row of its own.
pub proof fn first_vulnerabilities_are_shown(vs: Seq<VulnView>, hint: Option<Seq<char>>, i: int)
    requires
        0 <= i < vs.len(),
        i < MAX_FINDINGS,
    ensures
        text::has_text(
            vuln_report(vs, hint),
            text::trimmed_end(text::truncated(head_row(vs[i]), MAX_HEAD_WIDTH as nat)),
        ),
{
    let head = vuln_head(vs.len());
    let kept = seqs::first(vs, MAX_FINDINGS as nat);
    let f = |v: VulnView| vuln_rows(v);
    let more = vuln_ending(vs.len(), hint);
    let first = text::truncated(head_row(vs[i]), MAX_HEAD_WIDTH as nat);
    let t = text::trimmed_end(first);
    assert(text::has_text(vuln_rows(vs[i]), t) && (t.len() > 0 ==> !text::is_white(t.last()))) by {
        text::lemma_trimmed_end(first);
        assert(vuln_rows(vs[i]).subrange(0, t.len() as int) =~= t);
        assert(text::occurs_at(vuln_rows(vs[i]), t, 0));
    }
    assert(kept[i] == vs[i]);
    report::lemma_row_is_shown(head, kept, f, more, i, t);
    let whole = head + kept.flat_map(f) + more;
    reveal_strlit("govulncheck: ");
    assert(whole[0] == 'g');
    text::lemma_trimmed_at_end(whole);
}

/// The report shows the call sites of the first vulnerabilities.
pub proof fn call_sites_are_shown(vs: Seq<VulnView>, hint: Option<Seq<char>>, i: int)
    requires
        0 <= i < vs.len(),
        i < MAX_FINDINGS,
    ensures
        text::has_text(vuln_report(vs, hint), text::trimmed_end(site_row(vs[i].site))),
{
    let head = vuln_head(vs.len());
    let kept = seqs::first(vs, MAX_FINDINGS as nat);
    let f = |v: VulnView| vuln_rows(v);
    let more = vuln_ending(vs.len(), hint);
    let first = text::truncated(head_row(vs[i]), MAX_HEAD_WIDTH as nat) + "\n"@;
    let site = site_row(vs[i].site);
    let t = text::trimmed_end(site);
    text::lemma_trimmed_part(site);
    text::lemma_part_of_sum(first, site, t);
    assert(kept[i] == vs[i]);
    report::lemma_row_is_shown(head, kept, f, more, i, t);
    let whole = head + kept.flat_map(f) + more;
    reveal_strlit("govulncheck: ");
    assert(whole[0] == 'g');
    text::lemma_trimmed_at_end(whole);
}

/// A pointer to the raw output is shown exactly where something is kept on disk
/// for it: where the vulnerabilities are not all shown.
pub proof fn vuln_hint_needs_a_request(input: Seq<char>, vs: Seq<VulnView>, hint: Seq<char>)
    ensures
        vuln_tee(input, vs.len()) is None ==> vuln_report(vs, Some(hint)) == vuln_report(vs, None),
        vuln_tee(input, vs.len()) is Some ==> text::has_text(
            vuln_report(vs, Some(hint)),
            text::trimmed_end(hint),
        ),
{
    if vs.len() > MAX_FINDINGS {
        let head = vuln_head(vs.len());
        let kept = seqs::first(vs, MAX_FINDINGS as nat);
        let f = |v: VulnView| vuln_rows(v);
        let count = vulns_left_out(vs.len());
        let before = head + kept.flat_map(f) + count;
        let whole = head + kept.flat_map(f) + (count + report::hint_line(Some(hint)));
        report::lemma_hint_is_shown(before, hint);
        assert(before + report::hint_line(Some(hint)) =~= whole);
        reveal_strlit("govulncheck: ");
        assert(whole[0] == 'g');
        text::lemma_trimmed_at_end(whole);
    }
}

/// A blank output has no records, and without messages the report says so.
pub proof fn blank_output_is_clean(input: Seq<char>, hint: Option<Seq<char>>)
    requires
        text::every(input, text::whites()),
    ensures
        payloads_in(input).len() == 0,
        vuln_report(found_in(messages_of(Seq::empty())), hint)
            == "govulncheck: clean (no vulnerabilities found)"@,
{
    lines::blank_text_has_no_content(input);
    let ms = messages_of(Seq::empty());
    let all = ids_in(ms).map_values(|id: Seq<char>| known(ms, id));
    assert(ms.len() == 0);
    seqs::lemma_distinct(ms.map_values(|m: MessageView| id_of(m)));
    all.lemma_filter_len(|v: VulnView| is_real(v));
}

// ---------------------------------------------------------------------------
// What the findings decide
// ---------------------------------------------------------------------------

/// A message is a finding of the given vulnerability.
pub open spec fn is_finding(m: MessageView, id: Seq<char>) -> bool {
    m matches MessageView::Finding(f) && f.osv == id
}

/// A message is about the given vulnerability: it describes it, or is a finding of it.
pub open spec fn is_about(m: MessageView, id: Seq<char>) -> bool {
    m == MessageView::Osv(id) || is_finding(m, id)
}

/// The findings of a vulnerability are the messages that are such findings, in their
/// order.
pub proof fn findings_are_gathered_by_id(a: Seq<MessageView>, m: MessageView, id: Seq<char>)
    ensures
        findings_of(a.push(m), id) == if is_finding(m, id) {
            findings_of(a, id).push(m->Finding_0)
        } else {
            findings_of(a, id)
        },
        findings_of(Seq::empty(), id).len() == 0,
{
    let all = a.push(m);
    let k = a.len() as int;
    lemma_findings_step(all, id, k);
    assert(all.take(k) =~= a);
    assert(all.take(k + 1) =~= all);
}

/// A finding of the messages is among the findings of its vulnerability.
proof fn lemma_finding_is_gathered(ms: Seq<MessageView>, id: Seq<char>, k: int)
    requires
        0 <= k < ms.len(),
        is_finding(ms[k], id),
    ensures
        findings_of(ms, id).contains(ms[k]->Finding_0),
{
    let g = |m: MessageView|
        match m {
            MessageView::Finding(f) => if f.osv == id {
                Some(f)
            } else {
                None
            },
            MessageView::Osv(_) => None,
        };
    seqs::lemma_filter_map_keeps(ms, k, g);
}

/// What is among the findings of a vulnerability is a finding of the messages.
proof fn lemma_gathered_finding(ms: Seq<MessageView>, id: Seq<char>, f: FindingView) -> (k: int)
    requires
        findings_of(ms, id).contains(f),
    ensures
        0 <= k < ms.len(),
        ms[k] == MessageView::Finding(f),
        f.osv == id,
{
    let g = |m: MessageView|
        match m {
            MessageView::Finding(f) => if f.osv == id {
                Some(f)
            } else {
                None
            },
            MessageView::Osv(_) => None,
        };
    ms.lemma_filter_map_contains(g, f);
    let m = choose|m: MessageView| #[trigger] ms.contains(m) && g(m) == Some(f);
    let k = ms.index_of(m);
    assert(ms[k] == m);
    k
}

/// The first call of a finding's trace names the module that is affected, and the
/// version of it: of every finding of a vulnerability whose first call has a module
/// with a name, that module is listed with the version, or with none where the call
/// has none; and nothing else is listed.
pub proof fn the_first_call_names_what_is_affected(ms: Seq<MessageView>, id: Seq<char>)
    ensures
        forall|k: int|
            0 <= k < ms.len() && is_finding(#[trigger] ms[k], id) ==> {
                let trace = ms[k]->Finding_0.trace;
                trace.len() > 0 && trace[0].module is Some && trace[0].module->0.len() > 0
                    ==> known(ms, id).affected.contains(
                    AffectedView {
                        module: trace[0].module->0,
                        version: if trace[0].version is Some {
                            trace[0].version->0
                        } else {
                            Seq::empty()
                        },
                    },
                )
            },
        forall|a: AffectedView| #[trigger]
            known(ms, id).affected.contains(a) ==> exists|k: int|
                0 <= k < ms.len() && is_finding(#[trigger] ms[k], id) && {
                    let trace = ms[k]->Finding_0.trace;
                    &&& trace.len() > 0
                    &&& trace[0].module == Some(a.module)
                    &&& a.module.len() > 0
                    &&& trace[0].version == Some(a.version) || (trace[0].version is None
                        && a.version.len() == 0)
                },
        known(ms, id).affected.no_duplicates(),
        known(ms, id).id == id,
{
    let fs = findings_of(ms, id);
    let g = |f: FindingView| affected_by(f);
    affected_modules_are_listed_once(ms, id);
    seqs::lemma_distinct(fs.filter_map(g));
    assert forall|k: int| 0 <= k < ms.len() && is_finding(#[trigger] ms[k], id) implies ({
        let trace = ms[k]->Finding_0.trace;
        trace.len() > 0 && trace[0].module is Some && trace[0].module->0.len() > 0 ==> known(
            ms,
            id,
        ).affected.contains(
            AffectedView {
                module: trace[0].module->0,
                version: if trace[0].version is Some {
                    trace[0].version->0
                } else {
                    Seq::empty()
                },
            },
        )
    }) by {
        let f = ms[k]->Finding_0;
        if f.trace.len() > 0 && f.trace[0].module is Some && f.trace[0].module->0.len() > 0 {
            lemma_finding_is_gathered(ms, id, k);
            let j = fs.index_of(f);
            assert(fs[j] == f);
            seqs::lemma_filter_map_keeps(fs, j, g);
            assert(fs.filter_map(g).contains(affected_by(f)->0));
        }
    }
    assert forall|a: AffectedView| #[trigger]
        known(ms, id).affected.contains(a) implies exists|k: int|
        0 <= k < ms.len() && is_finding(#[trigger] ms[k], id) && {
            let trace = ms[k]->Finding_0.trace;
            &&& trace.len() > 0
            &&& trace[0].module == Some(a.module)
            &&& a.module.len() > 0
            &&& trace[0].version == Some(a.version) || (trace[0].version is None
                && a.version.len() == 0)
        } by {
        let f = choose|f: FindingView| #[trigger]
            findings_of(ms, id).contains(f) && affected_by(f) == Some(a);
        let k = lemma_gathered_finding(ms, id, f);
        assert(is_finding(ms[k], id));
    }
}

/// More messages of a vulnerability add to what is known of it: the modules listed so
/// far stay at the beginning of the list, and a fix or a call site once known stays.
pub proof fn what_is_known_stays(ms: Seq<MessageView>, id: Seq<char>, m: MessageView)
    ensures
        known(ms, id).affected.is_prefix_of(known(ms.push(m), id).affected),
        known(ms, id).fix is Some ==> known(ms.push(m), id).fix == known(ms, id).fix,
        known(ms, id).site is Some ==> known(ms.push(m), id).site == known(ms, id).site,
        !is_finding(m, id) ==> known(ms.push(m), id) == known(ms, id),
{
    let before = known(ms, id).affected;
    let after = known(ms.push(m), id).affected;
    findings_are_gathered_by_id(ms, m, id);
    if is_finding(m, id) {
        lemma_known_step(findings_of(ms, id), m->Finding_0);
    }
    assert(after.subrange(0, before.len() as int) =~= before);
}

/// The fix of a vulnerability is the first version that a finding of it names as
/// fixed; there is none where no finding names one.
pub proof fn the_first_fix_counts(ms: Seq<MessageView>, id: Seq<char>, k: int)
    requires
        0 <= k <= ms.len(),
        forall|i: int|
            0 <= i < k && is_finding(#[trigger] ms[i], id) ==> ms[i]->Finding_0.fixed_version is None,
        k < ms.len() ==> is_finding(ms[k], id) && ms[k]->Finding_0.fixed_version is Some,
    ensures
        known(ms, id).fix == if k < ms.len() {
            ms[k]->Finding_0.fixed_version
        } else {
            None
        },
    decreases ms.len(),
{
    if ms.len() > 0 {
        let before = ms.drop_last();
        let m = ms.last();
        assert(before.push(m) =~= ms);
        findings_are_gathered_by_id(before, m, id);
        if is_finding(m, id) {
            lemma_known_step(findings_of(before, id), m->Finding_0);
        }
        let j = if k < before.len() {
            k
        } else {
            before.len() as int
        };
        assert forall|i: int| 0 <= i < j && is_finding(#[trigger] before[i], id) implies before[i]
            ->Finding_0.fixed_version is None by {
            assert(before[i] == ms[i]);
        }
        the_first_fix_counts(before, id, j);
        assert(m == ms[ms.len() - 1]);
    } else {
        findings_are_gathered_by_id(ms, MessageView::Osv(id), id);
        assert(ms =~= Seq::empty());
    }
}

/// A call of which both the file and the line are known.
pub open spec fn is_placed(f: FrameView) -> bool {
    f.position is Some && f.position->0.filename is Some && f.position->0.line is Some
}

/// The first call of a trace of which both the file and the line are known is the
/// call site, with the function where it has one; a trace without such a call gives
/// none.
pub proof fn the_first_placed_call_is_the_site(trace: Seq<FrameView>, k: int)
    requires
        0 <= k <= trace.len(),
        forall|i: int| 0 <= i < k ==> !is_placed(#[trigger] trace[i]),
        k < trace.len() ==> is_placed(trace[k]),
    ensures
        k == trace.len() ==> site_in(trace) is None,
        k < trace.len() ==> site_in(trace) == Some(
            SiteView {
                file: trace[k].position->0.filename->0,
                line: trace[k].position->0.line->0,
                function: if trace[k].function is Some {
                    trace[k].function->0
                } else {
                    Seq::empty()
                },
            },
        ),
    decreases k,
{
    if k > 0 {
        let rest = trace.skip(1);
        assert(!is_placed(trace[0]));
        assert forall|i: int| 0 <= i < k - 1 implies !is_placed(#[trigger] rest[i]) by {
            assert(rest[i] == trace[i + 1]);
        }
        the_first_placed_call_is_the_site(rest, k - 1);
    }
}

/// The call site of a vulnerability is that of its first finding with one; there is
/// none where no finding has one.
pub proof fn the_first_site_counts(ms: Seq<MessageView>, id: Seq<char>, k: int)
    requires
        0 <= k <= ms.len(),
        forall|i: int, j: int|
            0 <= i < k && is_finding(ms[i], id) && 0 <= j < ms[i]->Finding_0.trace.len()
                ==> !is_placed(#[trigger] ms[i]->Finding_0.trace[j]),
        k < ms.len() ==> is_finding(ms[k], id) && site_in(ms[k]->Finding_0.trace) is Some,
    ensures
        known(ms, id).site == if k < ms.len() {
            site_in(ms[k]->Finding_0.trace)
        } else {
            None
        },
    decreases ms.len(),
{
    if ms.len() > 0 {
        let before = ms.drop_last();
        let m = ms.last();
        assert(before.push(m) =~= ms);
        assert(m == ms[ms.len() - 1]);
        findings_are_gathered_by_id(before, m, id);
        if is_finding(m, id) {
            let trace = m->Finding_0.trace;
            lemma_known_step(findings_of(before, id), m->Finding_0);
            if k == ms.len() {
                assert forall|j: int| 0 <= j < trace.len() implies !is_placed(#[trigger] trace[j]) by {
                    assert(!is_placed(ms[ms.len() - 1]->Finding_0.trace[j]));
                }
                the_first_placed_call_is_the_site(trace, trace.len() as int);
            }
        }
        let n = if k < before.len() {
            k
        } else {
            before.len() as int
        };
        assert forall|i: int, j: int|
            0 <= i < n && is_finding(before[i], id) && 0 <= j < before[i]->Finding_0.trace.len()
            implies !is_placed(#[trigger] before[i]->Finding_0.trace[j]) by {
            assert(before[i] == ms[i]);
            assert(!is_placed(ms[i]->Finding_0.trace[j]));
        }
        the_first_site_counts(before, id, n);
    } else {
        findings_are_gathered_by_id(ms, MessageView::Osv(id), id);
        assert(ms =~= Seq::empty());
    }
}

/// A vulnerability is reported exactly where a message is about it and a module that
/// it affects, a fix or a call site is known.
pub proof fn known_vulnerabilities_are_reported(ms: Seq<MessageView>, id: Seq<char>)
    ensures
        (exists|i: int| 0 <= i < found_in(ms).len() && (#[trigger] found_in(ms)[i]).id == id) <==> ((
        exists|k: int| 0 <= k < ms.len() && is_about(#[trigger] ms[k], id)) && (known(
            ms,
            id,
        ).affected.len() > 0 || known(ms, id).fix is Some || known(ms, id).site is Some)),
        forall|i: int|
            0 <= i < found_in(ms).len() ==> #[trigger] found_in(ms)[i] == known(
                ms,
                found_in(ms)[i].id,
            ),
{
    let all = ids_in(ms).map_values(|id: Seq<char>| known(ms, id));
    let p = |v: VulnView| is_real(v);
    assert forall|i: int| 0 <= i < found_in(ms).len() implies #[trigger] found_in(ms)[i] == known(
        ms,
        found_in(ms)[i].id,
    ) by {
        mere_descriptions_are_not_reported(ms, i);
    }
    lemma_mentioned(ms, id);
    if exists|i: int| 0 <= i < found_in(ms).len() && (#[trigger] found_in(ms)[i]).id == id {
        let i = choose|i: int| 0 <= i < found_in(ms).len() && (#[trigger] found_in(ms)[i]).id == id;
        mere_descriptions_are_not_reported(ms, i);
        all.lemma_filter_pred(p, i);
    }
    if ids_in(ms).contains(id) && is_real(known(ms, id)) {
        let k = ids_in(ms).index_of(id);
        assert(all[k] == known(ms, id));
        all.lemma_filter_contains(p, k);
        let i = found_in(ms).index_of(known(ms, id));
        assert(found_in(ms)[i] == known(ms, id));
    }
}

/// A vulnerability is mentioned where a message is about it.
proof fn lemma_mentioned(ms: Seq<MessageView>, id: Seq<char>)
    ensures
        ids_in(ms).contains(id) <==> exists|k: int| 0 <= k < ms.len() && is_about(#[trigger] ms[k], id),
{
    let named = ms.map_values(|m: MessageView| id_of(m));
    seqs::lemma_distinct(named);
    assert(ids_in(ms).contains(id) <==> named.contains(id));
    if named.contains(id) {
        let k = named.index_of(id);
        assert(named[k] == id_of(ms[k]));
        assert(is_about(ms[k], id));
    }
    if exists|k: int| 0 <= k < ms.len() && is_about(#[trigger] ms[k], id) {
        let k = choose|k: int| 0 <= k < ms.len() && is_about(#[trigger] ms[k], id);
        assert(named[k] == id);
    }
}

/// Every finding whose first call has a module with a name is reported: its
/// vulnerability is among those found, with that module and version among the
/// affected ones.
pub proof fn findings_are_reported(ms: Seq<MessageView>, k: int)
    requires
        0 <= k < ms.len(),
        ms[k] is Finding,
        ms[k]->Finding_0.trace.len() > 0,
        ms[k]->Finding_0.trace[0].module is Some,
        ms[k]->Finding_0.trace[0].module->0.len() > 0,
    ensures
        exists|i: int|
            0 <= i < found_in(ms).len() && (#[trigger] found_in(ms)[i]).id == ms[k]->Finding_0.osv
                && found_in(ms)[i].affected.contains(
                AffectedView {
                    module: ms[k]->Finding_0.trace[0].module->0,
                    version: if ms[k]->Finding_0.trace[0].version is Some {
                        ms[k]->Finding_0.trace[0].version->0
                    } else {
                        Seq::empty()
                    },
                },
            ),
{
    let id = ms[k]->Finding_0.osv;
    assert(is_finding(ms[k], id));
    assert(is_about(ms[k], id));
    the_first_call_names_what_is_affected(ms, id);
    known_vulnerabilities_are_reported(ms, id);
    let i = choose|i: int| 0 <= i < found_in(ms).len() && (#[trigger] found_in(ms)[i]).id == id;
    assert(found_in(ms)[i] == known(ms, id));
}

/// Vulnerabilities are reported in the order in which messages first mention them: of
/// two that are reported, a message mentions the first before any mentions the other.
pub proof fn vulnerabilities_keep_their_order(ms: Seq<MessageView>, i: int, j: int)
    requires
        0 <= i < j < found_in(ms).len(),
    ensures
        exists|k: int|
            0 <= k < ms.len() && is_about(#[trigger] ms[k], found_in(ms)[i].id) && forall|n: int|
                0 <= n <= k ==> !is_about(#[trigger] ms[n], found_in(ms)[j].id),
{
    let a = found_in(ms)[i].id;
    let b = found_in(ms)[j].id;
    let ids = ids_in(ms);
    let all = ids.map_values(|id: Seq<char>| known(ms, id));
    let p = |v: VulnView| is_real(v);
    let (x, y) = lemma_filter_keeps_order(all, p, i, j);
    assert(all[x] == known(ms, ids[x]) && all[y] == known(ms, ids[y]));
    assert(ids[x] == a && ids[y] == b);
    let named = ms.map_values(|m: MessageView| id_of(m));
    let k = lemma_first_mention(named, x);
    assert(is_about(ms[k], a)) by {
        assert(named[k] == id_of(ms[k]));
    }
    assert forall|n: int| 0 <= n <= k implies !is_about(#[trigger] ms[n], b) by {
        if is_about(ms[n], b) {
            let part = named.take(k + 1);
            assert(part[n] == named[n]);
            assert(named[n] == id_of(ms[n]));
            assert(part.contains(b));
            seqs::lemma_distinct(part);
            seqs::lemma_distinct(named);
            seqs::distinct_elements_keep_their_order(named, k + 1);
            let d = seqs::distinct(part);
            assert(d.contains(b));
            let z = d.index_of(b);
            assert(ids.subrange(0, d.len() as int)[z] == ids[z]);
            assert(ids[z] == b && ids[y] == b);
            assert(z == y);
        }
    }
}

/// Where two of the elements that a filter keeps stand: in the same order as before.
proof fn lemma_filter_keeps_order<A>(s: Seq<A>, p: spec_fn(A) -> bool, i: int, j: int) -> (r: (
    int,
    int,
))
    requires
        0 <= i < j < s.filter(p).len(),
    ensures
        0 <= r.0 < r.1 < s.len(),
        s[r.0] == s.filter(p)[i],
        s[r.1] == s.filter(p)[j],
    decreases s.len(),
{
    if s.len() == 0 {
        s.lemma_filter_len(p);
        (0, 0)
    } else {
        let k = s.len() - 1;
        let t = s.take(k);
        seqs::lemma_filter_step(s, p, k);
        seqs::lemma_take_all(s);
        if j < t.filter(p).len() {
            let (x, y) = lemma_filter_keeps_order(t, p, i, j);
            assert(t[x] == s[x] && t[y] == s[y]);
            (x, y)
        } else {
            let e = t.filter(p)[i];
            assert(t.filter(p).contains(e));
            t.lemma_filter_contains_rev(p, e);
            let x = t.index_of(e);
            assert(t[x] == s[x]);
            (x, k)
        }
    }
}

/// Where a distinct element first stands: only the distinct elements up to it come
/// before its end.
proof fn lemma_first_mention<A>(s: Seq<A>, x: int) -> (k: int)
    requires
        0 <= x < seqs::distinct(s).len(),
    ensures
        0 <= k < s.len(),
        s[k] == seqs::distinct(s)[x],
        seqs::distinct(s.take(k + 1)).len() == x + 1,
    decreases s.len(),
{
    let t = s.drop_last();
    let d = seqs::distinct(t);
    if x < d.len() {
        let k = lemma_first_mention(t, x);
        assert(t.take(k + 1) =~= s.take(k + 1));
        assert(seqs::distinct(s)[x] == d[x]);
        k
    } else {
        seqs::lemma_take_all(s);
        s.len() - 1
    }
}

/// The report names each module that a vulnerability affects, with its version after
/// an at sign where it has one, one after the other with commas between them; then the
/// fix after an arrow where it has a name. Below stands the call site.
pub proof fn the_report_shows_what_is_known(vs: Seq<VulnView>, hint: Option<Seq<char>>, i: int)
    requires
        0 <= i < vs.len(),
        i < 20,
    ensures
        ({
            let v = vs[i];
            let names = v.affected.map_values(
                |a: AffectedView|
                    if a.version.len() == 0 {
                        a.module
                    } else {
                        a.module + "@"@ + a.version
                    },
            );
            let affected = text::joined(names, ", "@);
            let row = "  "@ + v.id + if affected.len() == 0 {
                Seq::empty()
            } else {
                "  "@ + affected
            } + if v.fix is Some && v.fix->0.len() > 0 {
                " → "@ + v.fix->0
            } else {
                Seq::empty()
            };
            let site = match v.site {
                Some(s) => "    "@ + s.file + ":"@ + text::decimal(s.line as nat)
                    + text::truncated(
                    if s.function.len() == 0 {
                        Seq::empty()
                    } else {
                        "  "@ + s.function
                    },
                    100,
                ) + "\n"@,
                None => Seq::empty(),
            };
            &&& vuln_rows(v) == text::truncated(row, 160) + "\n"@ + site
            &&& text::has_text(
                vuln_report(vs, hint),
                text::trimmed_end(text::truncated(row, 160) + "\n"@ + site),
            )
        }),
{
    let v = vs[i];
    let names = |a: AffectedView|
        if a.version.len() == 0 {
            a.module
        } else {
            a.module + "@"@ + a.version
        };
    assert((|a: AffectedView| affected_text(a)) =~= names);
    let affected = text::joined(v.affected.map_values(names), ", "@);
    let fix = if v.fix is Some && v.fix->0.len() > 0 {
        " → "@ + v.fix->0
    } else {
        Seq::empty()
    };
    let row = "  "@ + v.id + if affected.len() == 0 {
        Seq::empty()
    } else {
        "  "@ + affected
    } + fix;
    assert(row =~= head_row(v));
    text::lemma_trimmed_part(vuln_rows(v));
    lemma_vulnerability_is_shown(vs, hint, i, text::trimmed_end(vuln_rows(v)));
}

/// The report begins with the number of vulnerabilities, and ends with the number of
/// those that are left out where there are more than twenty. Between the two stand the
/// rows of the first twenty, and nothing else.
pub proof fn the_report_counts_vulnerabilities(vs: Seq<VulnView>, hint: Option<Seq<char>>)
    ensures
        vs.len() == 0 ==> vuln_report(vs, hint) == "govulncheck: clean (no vulnerabilities found)"@,
        vs.len() > 0 ==> vuln_report(vs, hint) == text::trimmed(
            "govulncheck: "@ + text::decimal(vs.len()) + if vs.len() == 1 {
                " finding\n"@
            } else {
                " findings\n"@
            } + "═══════════════════════════════════════\n"@ + seqs::first(vs, 20).flat_map(
                |v: VulnView| vuln_rows(v),
            ) + if vs.len() > 20 {
                "\n… +"@ + text::decimal((vs.len() - 20) as nat) + " more findings\n"@ + if hint is Some {
                    "  "@ + hint->0 + "\n"@
                } else {
                    Seq::empty()
                }
            } else {
                Seq::empty()
            },
        ),
{
    let n = vs.len();
    reveal_strlit(" finding");
    reveal_strlit("s");
    reveal_strlit("");
    reveal_strlit("\n");
    reveal_strlit(" finding\n");
    reveal_strlit(" findings\n");
    let ending = if n == 1 {
        " finding\n"@
    } else {
        " findings\n"@
    };
    assert(" finding"@ + report::plural(n) + "\n"@ =~= ending);
    assert(vuln_head(n) =~= "govulncheck: "@ + text::decimal(n) + ending
        + "═══════════════════════════════════════\n"@);
}

// ---------------------------------------------------------------------------
// What a line and the arguments decide
// ---------------------------------------------------------------------------

/// An object carries the description under `osv`; without that member it carries the
/// finding under `finding`, and without either it carries nothing.
pub proof fn descriptions_outrank_findings(fields: Seq<(Seq<char>, Seq<char>)>, k: int)
    requires
        0 <= k < fields.len(),
    ensures
        fields[k].0 == "osv"@ && (forall|i: int| 0 <= i < k ==> (#[trigger] fields[i]).0 != "osv"@)
            ==> payload_of(Some(fields)) == Some(PayloadView::Osv(fields[k].1)),
        fields[k].0 == "finding"@ && (forall|i: int|
            0 <= i < k ==> (#[trigger] fields[i]).0 != "finding"@) && (forall|i: int|
            0 <= i < fields.len() ==> (#[trigger] fields[i]).0 != "osv"@) ==> payload_of(
            Some(fields),
        ) == Some(PayloadView::Finding(fields[k].1)),
        (forall|i: int|
            0 <= i < fields.len() ==> (#[trigger] fields[i]).0 != "osv"@ && fields[i].0
                != "finding"@) ==> payload_of(Some(fields)) is None,
        payload_of(None) is None,
{
    let n = fields.len() as int;
    if fields[k].0 == "osv"@ && (forall|i: int| 0 <= i < k ==> (#[trigger] fields[i]).0 != "osv"@) {
        json::the_first_member_with_a_key_counts(fields, "osv"@, k);
    }
    if forall|i: int| 0 <= i < n ==> (#[trigger] fields[i]).0 != "osv"@ {
        json::the_first_member_with_a_key_counts(fields, "osv"@, n);
        if fields[k].0 == "finding"@ && (forall|i: int|
            0 <= i < k ==> (#[trigger] fields[i]).0 != "finding"@) {
            json::the_first_member_with_a_key_counts(fields, "finding"@, k);
        }
        if forall|i: int| 0 <= i < n ==> (#[trigger] fields[i]).0 != "finding"@ {
            json::the_first_member_with_a_key_counts(fields, "finding"@, n);
        }
    }
}

/// A line carries at most one record: the one that the object on it carries, where it
/// begins with an opening brace. The records of two texts in a row are those of the
/// one and then those of the other.
pub proof fn each_line_carries_its_record(l: Seq<char>, rest: Seq<char>)
    requires
        !l.contains('\n'),
    ensures
        payloads_in(l) == ({
            let t = text::trimmed(l);
            if t.len() > 0 && t[0] == '{' && payload_of(json::object_fields(t)) is Some {
                seq![payload_of(json::object_fields(t))->0]
            } else {
                Seq::empty()
            }
        }),
        payloads_in(l + "\n"@ + rest) == payloads_in(l) + payloads_in(rest),
{
    let t = text::trimmed(l);
    lines::a_line_is_trimmed(l);
    lines::content_of_texts_in_a_row(l, rest);
    seqs::lemma_filter_map_add(
        lines::object_lines_of(l),
        lines::object_lines_of(rest),
        carried(),
    );
    if t.len() > 0 && t[0] == '{' {
        Seq::lemma_filter_map_singleton(t, carried());
    } else {
        assert(payloads_in(l) =~= Seq::empty());
    }
}

/// JSON is asked for before the given arguments, exactly where they do not ask for it
/// themselves.
pub proof fn json_is_asked_for_where_it_is_not(args: Seq<Seq<char>>)
    ensures
        (exists|i: int|
            0 <= i < args.len() && (#[trigger] args[i] == "-json"@ || args[i] == "--json"@))
            ==> json_args(args) == args,
        (forall|i: int|
            0 <= i < args.len() ==> #[trigger] args[i] != "-json"@ && args[i] != "--json"@)
            ==> json_args(args) == seq!["-json"@] + args,
{
    if args.contains("-json"@) {
        assert(args[args.index_of("-json"@)] == "-json"@);
    }
    if args.contains("--json"@) {
        assert(args[args.index_of("--json"@)] == "--json"@);
    }
}

/// `govulncheck` runs with the given arguments but `--full`, after a request for JSON
/// where they make none; the standard output alone goes through the filter.
pub proof fn arguments_are_handed_on(args: Seq<Seq<char>>, verbose: u8)
    ensures
        match planned(args, verbose) {
            plan::PlanView::Filtered(f) => {
                &&& f.program == "govulncheck"@
                &&& f.args == json_args(plan::without_flag(args, "--full"@))
                &&& f.filter == if args.contains("--full"@) {
                    plan::FilterView::Verbatim
                } else {
                    plan::FilterView::Govulncheck
                }
                &&& f.stdout_only
                &&& f.tool == "govulncheck"@
                &&& f.tee == "govulncheck"@
                &&& f.shown_args == text::joined(args, " "@)
                &&& f.announcement == if verbose == 0 {
                    None
                } else {
                    Some("Running: govulncheck "@ + text::joined(f.args, " "@))
                }
            },
            plan::PlanView::Passthrough(_) => false,
        },
{
}

/// The whole output is kept on disk exactly where more than twenty vulnerabilities
/// were found.
pub proof fn the_output_is_kept_where_it_is_cut(input: Seq<char>, found: nat)
    ensures
        vuln_tee(input, found) == if found > 20 {
            Some(report::TeeView { content: input, slug: "govulncheck"@, from_line: 1 })
        } else {
            None
        },
{
}

/// A decoded record tells what it tells, in the order of the records; one that could
/// not be decoded tells nothing.
pub proof fn decoded_messages_are_gathered(records: Seq<Option<Message>>, r: Option<Message>)
    ensures
        messages_of(records.push(r)) == match r {
            Some(Message::Osv(o)) => messages_of(records).push(MessageView::Osv(o.id@)),
            Some(Message::Finding(f)) => messages_of(records).push(
                MessageView::Finding(
                    FindingView {
                        osv: f.osv@,
                        fixed_version: text::opt_text(f.fixed_version),
                        trace: f.trace@.map_values(|f: TraceFrame| f@),
                    },
                ),
            ),
            None => messages_of(records),
        },
        messages_of(Seq::empty()).len() == 0,
{
    lemma_messages_push(records, r);
}

/// Calls, modules, call sites and vulnerabilities are seen with the texts of their
/// fields.
pub proof fn fields_are_seen_as_texts(f: TraceFrame, a: Affected, s: Site, v: Vuln, p: Payload)
    ensures
        f@.module == text::opt_text(f.module),
        f@.version == text::opt_text(f.version),
        f@.function == text::opt_text(f.function),
        f.position is None ==> f@.position is None,
        f.position is Some ==> f@.position == Some(
            PositionView {
                filename: text::opt_text(f.position->0.filename),
                line: f.position->0.line,
            },
        ),
        a@ == (AffectedView { module: a.module@, version: a.version@ }),
        s@ == (SiteView { file: s.file@, line: s.line, function: s.function@ }),
        v@.id == v.id@,
        v@.fix == text::opt_text(v.fix),
        v.site is None ==> v@.site is None,
        v.site is Some ==> v@.site == Some(v.site->0@),
        v@.affected.len() == v.affected@.len(),
        forall|i: int| 0 <= i < v.affected@.len() ==> #[trigger] v@.affected[i] == v.affected@[i]@,
        match p {
            Payload::Osv(t) => p@ == PayloadView::Osv(t@),
            Payload::Finding(t) => p@ == PayloadView::Finding(t@),
        },
{
}

/// Every record is decoded by the decoder for its kind, one by one and in order: an
/// answer for each, and none besides.
pub proof fn every_record_is_decoded<
    O: Fn(&str) -> Option<OsvEntry>,
    F: Fn(&str) -> Option<Finding>,
>(
    decode_osv: O,
    decode_finding: F,
    payloads: Seq<PayloadView>,
    messages: Seq<Option<Message>>,
    p: PayloadView,
    m: Option<Message>,
)
    ensures
        decodes_messages(decode_osv, decode_finding, payloads.push(p), messages.push(m))
            <==> decodes_messages(decode_osv, decode_finding, payloads, messages)
            && decodes_message(decode_osv, decode_finding, p, m),
        decodes_messages(decode_osv, decode_finding, Seq::empty(), messages) <==> messages.len()
            == 0,
{
    let ps = payloads.push(p);
    let ms = messages.push(m);
    let n = payloads.len() as int;
    if decodes_messages(decode_osv, decode_finding, ps, ms) {
        assert(decodes_message(decode_osv, decode_finding, ps[n], ms[n]));
        assert forall|i: int| 0 <= i < n implies decodes_message(
            decode_osv,
            decode_finding,
            #[trigger] payloads[i],
            messages[i],
        ) by {
            assert(ps[i] == payloads[i]);
        }
    }
    if decodes_messages(decode_osv, decode_finding, payloads, messages) && decodes_message(
        decode_osv,
        decode_finding,
        p,
        m,
    ) {
        assert forall|i: int| 0 <= i < ps.len() implies decodes_message(
            decode_osv,
            decode_finding,
            #[trigger] ps[i],
            ms[i],
        ) by {
            if i < n {
                assert(ps[i] == payloads[i]);
            }
        }
    }
}

/// A description is decoded by the decoder for descriptions, a finding by the one for
/// findings; a record that its decoder cannot decode gives no message.
pub proof fn records_are_decoded_by_their_kind<
    O: Fn(&str) -> Option<OsvEntry>,
    F: Fn(&str) -> Option<Finding>,
>(decode_osv: O, decode_finding: F, t: Seq<char>, o: OsvEntry, f: Finding)
    ensures
        ({
            let p = PayloadView::Osv(t);
            &&& decodes_message(decode_osv, decode_finding, p, Some(Message::Osv(o)))
                <==> decode::decodes_to(decode_osv, t, Some(o))
            &&& decodes_message(decode_osv, decode_finding, p, None) <==> decode::decodes_to(
                decode_osv,
                t,
                None,
            )
            &&& !decodes_message(decode_osv, decode_finding, p, Some(Message::Finding(f)))
        }),
        ({
            let p = PayloadView::Finding(t);
            &&& decodes_message(decode_osv, decode_finding, p, Some(Message::Finding(f)))
                <==> decode::decodes_to(decode_finding, t, Some(f))
            &&& decodes_message(decode_osv, decode_finding, p, None) <==> decode::decodes_to(
                decode_finding,
                t,
                None,
            )
            &&& !decodes_message(decode_osv, decode_finding, p, Some(Message::Osv(o)))
        }),
{
}

/// A module that the first call of a finding names stands in the report, with its
/// version after an at sign, where the vulnerability is among the first twenty and its
/// row is not cut.
pub proof fn affected_modules_stand_in_the_report(
    ms: Seq<MessageView>,
    hint: Option<Seq<char>>,
    i: int,
    k: int,
)
    requires
        0 <= i < found_in(ms).len(),
        i < 20,
        0 <= k < ms.len(),
        is_finding(ms[k], found_in(ms)[i].id),
        ms[k]->Finding_0.trace.len() > 0,
        ms[k]->Finding_0.trace[0].module is Some,
        ms[k]->Finding_0.trace[0].module->0.len() > 0,
        ms[k]->Finding_0.trace[0].version is Some,
        ms[k]->Finding_0.trace[0].version->0.len() > 0,
        !text::is_white(ms[k]->Finding_0.trace[0].version->0.last()),
        head_row(found_in(ms)[i]).len() <= 160,
    ensures
        text::has_text(
            vuln_report(found_in(ms), hint),
            ms[k]->Finding_0.trace[0].module->0 + "@"@ + ms[k]->Finding_0.trace[0].version->0,
        ),
{
    let v = found_in(ms)[i];
    let frame = ms[k]->Finding_0.trace[0];
    let a = AffectedView { module: frame.module->0, version: frame.version->0 };
    let t = a.module + "@"@ + a.version;
    the_first_call_names_what_is_affected(ms, v.id);
    known_vulnerabilities_are_reported(ms, v.id);
    assert(v == known(ms, v.id));
    lemma_affected_in_rows(v, a);
    assert(t.last() == a.version.last());
    lemma_vulnerability_is_shown(found_in(ms), hint, i, t);
}

/// A row that is not cut holds each module that the vulnerability affects.
proof fn lemma_affected_in_rows(v: VulnView, a: AffectedView)
    requires
        v.affected.contains(a),
        a.version.len() > 0,
        head_row(v).len() <= 160,
    ensures
        text::has_text(vuln_rows(v), a.module + "@"@ + a.version),
{
    let t = a.module + "@"@ + a.version;
    let j = v.affected.index_of(a);
    let names = v.affected.map_values(|a: AffectedView| affected_text(a));
    let row = head_row(v);
    assert(names[j] == t);
    text::lemma_part_of_joined(names, ", "@, j);
    assert(all_affected(v).len() >= t.len()) by {
        let at = choose|at: int| text::occurs_at(all_affected(v), t, at);
        assert(0 <= at <= all_affected(v).len() - t.len());
    }
    assert(t.len() > 0);
    let lead = "  "@ + v.id + "  "@;
    text::lemma_part_of_sum(lead, all_affected(v), t);
    text::lemma_part_of_sum(lead + all_affected(v), fix_text(v), t);
    assert(lead + all_affected(v) + fix_text(v) =~= row);
    text::lemma_part_of_sum(row, "\n"@, t);
    text::lemma_part_of_sum(row + "\n"@, site_row(v.site), t);
}

/// The report shows whatever the rows of the first vulnerabilities hold that does not
/// end with white space.
proof fn lemma_vulnerability_is_shown(
    vs: Seq<VulnView>,
    hint: Option<Seq<char>>,
    i: int,
    t: Seq<char>,
)
    requires
        0 <= i < vs.len(),
        i < 20,
        text::has_text(vuln_rows(vs[i]), t),
        t.len() > 0 ==> !text::is_white(t.last()),
    ensures
        text::has_text(vuln_report(vs, hint), t),
{
    let head = vuln_head(vs.len());
    let kept = seqs::first(vs, MAX_FINDINGS as nat);
    let f = |v: VulnView| vuln_rows(v);
    let more = vuln_ending(vs.len(), hint);
    assert(kept[i] == vs[i]);
    report::lemma_row_is_shown(head, kept, f, more, i, t);
    let whole = head + kept.flat_map(f) + more;
    reveal_strlit("govulncheck: ");
    assert(whole[0] == 'g');
    text::lemma_trimmed_at_end(whole);
}

} // verus!
