//! What a command is to run, decided before anything runs.

use crate::seqs;
use crate::text;
use vstd::prelude::*;

verus! {

/// The filter that captured output goes through.
pub enum Filter {
    /// The output as it is.
    Verbatim,
    BufLint,
    BufBuild,
    BufGenerate,
    ModTidy,
    ModDownload,
    ModGraph,
    ListPackages,
    ListModules,
    Govulncheck,
    Staticcheck,
    /// The goreleaser filter, for the given subcommand.
    Goreleaser(String),
}

/// A filter, with the subcommand as a text.
pub enum FilterView {
    Verbatim,
    BufLint,
    BufBuild,
    BufGenerate,
    ModTidy,
    ModDownload,
    ModGraph,
    ListPackages,
    ListModules,
    Govulncheck,
    Staticcheck,
    Goreleaser(Seq<char>),
}

impl View for Filter {
    type V = FilterView;

    open spec fn view(&self) -> FilterView {
        match self {
            Filter::Verbatim => FilterView::Verbatim,
            Filter::BufLint => FilterView::BufLint,
            Filter::BufBuild => FilterView::BufBuild,
            Filter::BufGenerate => FilterView::BufGenerate,
            Filter::ModTidy => FilterView::ModTidy,
            Filter::ModDownload => FilterView::ModDownload,
            Filter::ModGraph => FilterView::ModGraph,
            Filter::ListPackages => FilterView::ListPackages,
            Filter::ListModules => FilterView::ListModules,
            Filter::Govulncheck => FilterView::Govulncheck,
            Filter::Staticcheck => FilterView::Staticcheck,
            Filter::Goreleaser(sub) => FilterView::Goreleaser(sub@),
        }
    }
}

/// A command whose output is captured and filtered.
pub struct Filtered {
    pub program: String,
    pub args: Vec<String>,
    /// What to say on the error stream before the command starts.
    pub announcement: Option<String>,
    /// The name under which the run is recorded.
    pub tool: String,
    /// The arguments with which the run is recorded.
    pub shown_args: String,
    pub filter: Filter,
    /// Whether only the standard output is filtered, or the error stream with it.
    pub stdout_only: bool,
    /// The name under which the raw output is kept.
    pub tee: String,
}

/// A filtered command, as texts.
pub struct FilteredView {
    pub program: Seq<char>,
    pub args: Seq<Seq<char>>,
    pub announcement: Option<Seq<char>>,
    pub tool: Seq<char>,
    pub shown_args: Seq<char>,
    pub filter: FilterView,
    pub stdout_only: bool,
    pub tee: Seq<char>,
}

impl View for Filtered {
    type V = FilteredView;

    open spec fn view(&self) -> FilteredView {
        FilteredView {
            program: self.program@,
            args: text::texts(self.args@),
            announcement: text::opt_text(self.announcement),
            tool: self.tool@,
            shown_args: self.shown_args@,
            filter: self.filter@,
            stdout_only: self.stdout_only,
            tee: self.tee@,
        }
    }
}

/// A command whose output is handed on untouched.
pub struct Passthrough {
    pub program: String,
    pub args: Vec<String>,
    /// What to say on the error stream before the command starts.
    pub announcement: Option<String>,
    /// What to report if the command cannot be run.
    pub failure: String,
    /// The command line that the run stands for in the records.
    pub original: String,
    /// The command line that was given.
    pub given: String,
    /// The name under which a missing exit code is reported.
    pub label: String,
}

/// A command handed on untouched, as texts.
pub struct PassthroughView {
    pub program: Seq<char>,
    pub args: Seq<Seq<char>>,
    pub announcement: Option<Seq<char>>,
    pub failure: Seq<char>,
    pub original: Seq<char>,
    pub given: Seq<char>,
    pub label: Seq<char>,
}

impl View for Passthrough {
    type V = PassthroughView;

    open spec fn view(&self) -> PassthroughView {
        PassthroughView {
            program: self.program@,
            args: text::texts(self.args@),
            announcement: text::opt_text(self.announcement),
            failure: self.failure@,
            original: self.original@,
            given: self.given@,
            label: self.label@,
        }
    }
}

/// What a command is to run.
pub enum Plan {
    Filtered(Filtered),
    Passthrough(Passthrough),
}

/// What a command is to run, as texts.
pub enum PlanView {
    Filtered(FilteredView),
    Passthrough(PassthroughView),
}

impl View for Plan {
    type V = PlanView;

    open spec fn view(&self) -> PlanView {
        match self {
            Plan::Filtered(f) => PlanView::Filtered(f@),
            Plan::Passthrough(p) => PlanView::Passthrough(p@),
        }
    }
}

/// Why a command cannot be planned.
#[derive(Debug, Clone, Copy, PartialEq, Eq, Structural)]
pub enum PlanError {
    /// `buf` without a subcommand.
    BufSubcommandMissing,
    /// `go mod` without a subcommand.
    GoModSubcommandMissing,
}

impl PlanError {
    /// The message for the user.
    pub open spec fn message_text(self) -> Seq<char> {
        match self {
            PlanError::BufSubcommandMissing => "buf: no subcommand specified"@,
            PlanError::GoModSubcommandMissing => "go mod: no subcommand specified"@,
        }
    }

    /// The message for the user.
    pub fn message(&self) -> (r: String)
        ensures
            r@ == self.message_text(),
    {
        match self {
            PlanError::BufSubcommandMissing => "buf: no subcommand specified".to_owned(),
            PlanError::GoModSubcommandMissing => "go mod: no subcommand specified".to_owned(),
        }
    }
}

/// What a verbose run announces; a quiet one announces nothing.
pub open spec fn announced(verbose: u8, what: Seq<char>) -> Option<Seq<char>> {
    if verbose > 0 {
        Some(what)
    } else {
        None
    }
}

/// Two texts in a row.
pub fn concat2(a: &str, b: &str) -> (r: String)
    ensures
        r@ == a@ + b@,
{
    let mut out = a.to_owned();
    out.append(b);
    out
}

/// The announcement of a run, in two parts.
pub fn announce(verbose: u8, what: &str, detail: &str) -> (r: Option<String>)
    ensures
        text::opt_text(r) == announced(verbose, what@ + detail@),
{
    if verbose > 0 {
        Some(concat2(what, detail))
    } else {
        None
    }
}

/// The given words, then the arguments.
pub fn with_args(words: Vec<String>, args: &[String]) -> (r: Vec<String>)
    ensures
        text::texts(r@) == text::texts(words@) + text::texts(args@),
{
    let mut out = words;
    let mut rest = text::copy_all(args);
    out.append(&mut rest);
    assert(text::texts(out@) =~= text::texts(words@) + text::texts(args@));
    out
}

/// One word, then the arguments.
pub fn after_word(word: &str, args: &[String]) -> (r: Vec<String>)
    ensures
        text::texts(r@) == seq![word@] + text::texts(args@),
{
    let w = word.to_owned();
    let mut words: Vec<String> = Vec::new();
    words.push(w);
    assert(text::texts(words@) =~= seq![word@]);
    with_args(words, args)
}

/// Two words, then the arguments.
pub fn after_words(first: &str, second: &str, args: &[String]) -> (r: Vec<String>)
    ensures
        text::texts(r@) == seq![first@, second@] + text::texts(args@),
{
    let mut words: Vec<String> = Vec::new();
    words.push(first.to_owned());
    words.push(second.to_owned());
    assert(text::texts(words@) =~= seq![first@, second@]);
    with_args(words, args)
}

/// The texts other than `flag`, as a predicate.
pub open spec fn differs_from(flag: Seq<char>) -> spec_fn(Seq<char>) -> bool {
    |a: Seq<char>| a != flag
}

/// The arguments without a flag.
pub open spec fn without_flag(args: Seq<Seq<char>>, flag: Seq<char>) -> Seq<Seq<char>> {
    args.filter(differs_from(flag))
}

/// Taking a flag out leaves no occurrence of it and every other argument; where it
/// does not occur the arguments stay as they are, so taking it out twice is taking
/// it out once.
pub proof fn flag_is_taken_out(args: Seq<Seq<char>>, flag: Seq<char>)
    ensures
        !without_flag(args, flag).contains(flag),
        forall|a: Seq<char>|
            a != flag ==> (#[trigger] without_flag(args, flag).contains(a) <==> args.contains(a)),
        !args.contains(flag) ==> without_flag(args, flag) == args,
        without_flag(without_flag(args, flag), flag) == without_flag(args, flag),
{
    let rest = without_flag(args, flag);
    lemma_flag_gone(args, flag);
    lemma_flag_absent(rest, flag);
    if !args.contains(flag) {
        lemma_flag_absent(args, flag);
    }
    assert forall|a: Seq<char>| a != flag implies (#[trigger] rest.contains(a) <==> args.contains(
        a,
    )) by {
        if rest.contains(a) {
            args.lemma_filter_contains_rev(differs_from(flag), a);
        }
        if args.contains(a) {
            args.lemma_filter_contains(differs_from(flag), args.index_of(a));
        }
    }
}

proof fn lemma_flag_gone(args: Seq<Seq<char>>, flag: Seq<char>)
    ensures
        !without_flag(args, flag).contains(flag),
{
    let rest = without_flag(args, flag);
    if rest.contains(flag) {
        args.lemma_filter_pred(differs_from(flag), rest.index_of(flag));
    }
}

proof fn lemma_flag_absent(args: Seq<Seq<char>>, flag: Seq<char>)
    requires
        !args.contains(flag),
    ensures
        without_flag(args, flag) == args,
    decreases args.len(),
{
    reveal(Seq::filter);
    if args.len() > 0 {
        let before = args.drop_last();
        assert(!before.contains(flag)) by {
            if before.contains(flag) {
                assert(args[before.index_of(flag)] == flag);
            }
        }
        lemma_flag_absent(before, flag);
        assert(args[args.len() - 1] == args.last());
        assert(before.push(args.last()) =~= args);
    }
}

/// Takes the flag out of the arguments and tells whether it was there.
pub fn take_flag(args: &[String], flag: &str) -> (r: (Vec<String>, bool))
    ensures
        text::texts(r.0@) == without_flag(text::texts(args@), flag@),
        r.1 == text::texts(args@).contains(flag@),
{
    let mut out: Vec<String> = Vec::new();
    let n: usize = args.len();
    let ghost all = text::texts(args@);
    let ghost p = differs_from(flag@);
    proof {
        seqs::lemma_filter_none(all, p);
    }
    for i in 0..n
        invariant
            n == args@.len(),
            all == text::texts(args@),
            p == differs_from(flag@),
            text::texts(out@) == all.take(i as int).filter(p),
    {
        let ghost done = text::texts(out@);
        proof {
            seqs::lemma_filter_step(all, p, i as int);
        }
        if !text::same_text(args[i].as_str(), flag) {
            let a = args[i].clone();
            out.push(a);
            assert(text::texts(out@) =~= done.push(a@));
        }
    }
    proof {
        seqs::lemma_take_all(all);
    }
    (out, text::holds(args, flag))
}

/// Arguments in a row lose a flag each for themselves, and an argument on its own is
/// lost exactly where it is the flag.
pub proof fn a_flag_is_taken_out_everywhere(
    a: Seq<Seq<char>>,
    b: Seq<Seq<char>>,
    arg: Seq<char>,
    flag: Seq<char>,
)
    ensures
        without_flag(a + b, flag) == without_flag(a, flag) + without_flag(b, flag),
        without_flag(seq![arg], flag) == if arg == flag {
            Seq::empty()
        } else {
            seq![arg]
        },
{
    Seq::filter_distributes_over_add(a, b, differs_from(flag));
    seqs::lemma_filter_none(seq![arg], differs_from(flag));
    seqs::lemma_filter_step(seq![arg], differs_from(flag), 0);
    seqs::lemma_take_all(seq![arg]);
    assert(Seq::<Seq<char>>::empty().push(arg) =~= seq![arg]);
}

/// Only a verbose run announces itself.
pub proof fn quiet_runs_announce_nothing(verbose: u8, what: Seq<char>)
    ensures
        announced(verbose, what) is Some <==> verbose >= 1,
        verbose >= 1 ==> announced(verbose, what)->0 == what,
{
}

/// The message about a missing subcommand names the command that misses it.
pub proof fn messages_name_the_command(e: PlanError)
    ensures
        e.message_text() == match e {
            PlanError::BufSubcommandMissing => "buf"@,
            PlanError::GoModSubcommandMissing => "go mod"@,
        } + ": no subcommand specified"@,
{
    reveal_strlit("buf");
    reveal_strlit("go mod");
    reveal_strlit(": no subcommand specified");
    reveal_strlit("buf: no subcommand specified");
    reveal_strlit("go mod: no subcommand specified");
    assert("buf: no subcommand specified"@ =~= "buf"@ + ": no subcommand specified"@);
    assert("go mod: no subcommand specified"@ =~= "go mod"@ + ": no subcommand specified"@);
}

/// A plan is seen with the texts of its fields, and its filter as the filter that it
/// is.
pub proof fn plans_are_seen_as_they_are(f: Filtered, p: Passthrough)
    ensures
        f@.program == f.program@,
        f@.args == text::texts(f.args@),
        f@.announcement == text::opt_text(f.announcement),
        f@.tool == f.tool@,
        f@.shown_args == f.shown_args@,
        f@.stdout_only == f.stdout_only,
        f@.tee == f.tee@,
        match f.filter {
            Filter::Verbatim => f@.filter is Verbatim,
            Filter::BufLint => f@.filter is BufLint,
            Filter::BufBuild => f@.filter is BufBuild,
            Filter::BufGenerate => f@.filter is BufGenerate,
            Filter::ModTidy => f@.filter is ModTidy,
            Filter::ModDownload => f@.filter is ModDownload,
            Filter::ModGraph => f@.filter is ModGraph,
            Filter::ListPackages => f@.filter is ListPackages,
            Filter::ListModules => f@.filter is ListModules,
            Filter::Govulncheck => f@.filter is Govulncheck,
            Filter::Staticcheck => f@.filter is Staticcheck,
            Filter::Goreleaser(sub) => f@.filter == FilterView::Goreleaser(sub@),
        },
        p@.program == p.program@,
        p@.args == text::texts(p.args@),
        p@.announcement == text::opt_text(p.announcement),
        p@.failure == p.failure@,
        p@.original == p.original@,
        p@.given == p.given@,
        p@.label == p.label@,
        Plan::Filtered(f)@ == PlanView::Filtered(f@),
        Plan::Passthrough(p)@ == PlanView::Passthrough(p@),
{
}

} // verus!
