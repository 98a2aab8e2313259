//! `gotestsum`: its own output is handed on, and the test events that it writes
//! to a file are summed up afterwards.

use crate::plan;
use crate::text;
use vstd::prelude::*;

verus! {

/// The file that the arguments name for test events (`--jsonfile=path` or
/// `--jsonfile path`).
pub open spec fn jsonfile_in(args: Seq<Seq<char>>) -> Option<Seq<char>>
    decreases args.len(),
{
    if args.len() == 0 {
        None
    } else if text::after_prefix(args[0], "--jsonfile="@) is Some {
        text::after_prefix(args[0], "--jsonfile="@)
    } else if args[0] == "--jsonfile"@ {
        if args.len() > 1 {
            Some(args[1])
        } else {
            None
        }
    } else {
        jsonfile_in(args.skip(1))
    }
}

/// The file that the arguments name for test events.
pub fn extract_jsonfile_path(args: &[String]) -> (r: Option<String>)
    ensures
        text::opt_text(r) == jsonfile_in(text::texts(args@)),
{
    let n: usize = args.len();
    let ghost all = text::texts(args@);
    assert(all.skip(0) =~= all);
    for i in 0..n
        invariant
            n == args@.len(),
            all == text::texts(args@),
            jsonfile_in(all) == jsonfile_in(all.skip(i as int)),
    {
        proof {
            assert(all.skip(i as int)[0] == args@[i as int]@);
            assert(all.skip(i as int).skip(1) =~= all.skip(i + 1));
        }
        if let Some(path) = text::without_prefix(args[i].as_str(), "--jsonfile=") {
            return Some(path);
        }
        if text::same_text(args[i].as_str(), "--jsonfile") {
            if n - i > 1 {
                assert(all.skip(i as int)[1] == args@[i + 1]@);
                return Some(args[i + 1].clone());
            }
            return None;
        }
    }
    None
}

/// Whether the arguments ask for watch mode.
pub open spec fn watches(args: Seq<Seq<char>>) -> bool {
    args.contains("--watch"@) || args.contains("-w"@)
}

/// Whether the arguments ask for watch mode (`--watch` or `-w`).
pub fn has_watch_flag(args: &[String]) -> (r: bool)
    ensures
        r == watches(text::texts(args@)),
{
    text::holds(args, "--watch") || text::holds(args, "-w")
}

/// A run whose test events are summed up.
pub struct TestRun {
    /// The given arguments.
    pub args: Vec<String>,
    /// The file that the arguments name for test events; without one a temporary
    /// file takes its place.
    pub jsonfile: Option<String>,
    /// What to say on the error stream before the command starts.
    pub announcement: Option<String>,
    /// The command line that the run stands for in the records.
    pub original: String,
    /// The command line that was given.
    pub given: String,
}

/// A run whose test events are summed up, as texts.
pub struct TestRunView {
    pub args: Seq<Seq<char>>,
    pub jsonfile: Option<Seq<char>>,
    pub announcement: Option<Seq<char>>,
    pub original: Seq<char>,
    pub given: Seq<char>,
}

impl View for TestRun {
    type V = TestRunView;

    open spec fn view(&self) -> TestRunView {
        TestRunView {
            args: text::texts(self.args@),
            jsonfile: text::opt_text(self.jsonfile),
            announcement: text::opt_text(self.announcement),
            original: self.original@,
            given: self.given@,
        }
    }
}

/// What `gotestsum` is to run.
pub enum TestPlan {
    /// Watch mode: a run without end, handed on untouched.
    Watch { args: Vec<String>, announcement: Option<String> },
    /// A run whose test events are summed up.
    Test(TestRun),
}

/// What `gotestsum` is to run, as texts.
pub enum TestPlanView {
    Watch { args: Seq<Seq<char>>, announcement: Option<Seq<char>> },
    Test(TestRunView),
}

impl View for TestPlan {
    type V = TestPlanView;

    open spec fn view(&self) -> TestPlanView {
        match self {
            TestPlan::Watch { args, announcement } => TestPlanView::Watch {
                args: text::texts(args@),
                announcement: text::opt_text(*announcement),
            },
            TestPlan::Test(run) => TestPlanView::Test(run@),
        }
    }
}

/// What `gotestsum` with the given arguments runs.
pub open spec fn planned(args: Seq<Seq<char>>, verbose: u8) -> TestPlanView {
    let line = "gotestsum "@ + text::joined(args, " "@);
    if watches(args) {
        TestPlanView::Watch {
            args,
            announcement: plan::announced(
                verbose,
                "gotestsum --watch: passthrough mode (no filtering)"@,
            ),
        }
    } else {
        TestPlanView::Test(
            TestRunView {
                args,
                jsonfile: jsonfile_in(args),
                announcement: plan::announced(verbose, "Running: "@ + line),
                original: line,
                given: "rtk "@ + line,
            },
        )
    }
}

/// Plans what `gotestsum` with the given arguments runs.
pub fn run(args: &[String], verbose: u8) -> (r: TestPlan)
    ensures
        r@ == planned(text::texts(args@), verbose),
{
    if has_watch_flag(args) {
        let announcement = if verbose > 0 {
            Some("gotestsum --watch: passthrough mode (no filtering)".to_owned())
        } else {
            None
        };
        return TestPlan::Watch { args: text::copy_all(args), announcement };
    }
    let shown = text::join(args, " ");
    let line = plan::concat2("gotestsum ", shown.as_str());
    TestPlan::Test(
        TestRun {
            args: text::copy_all(args),
            jsonfile: extract_jsonfile_path(args),
            announcement: plan::announce(verbose, "Running: ", line.as_str()),
            given: plan::concat2("rtk ", line.as_str()),
            original: line,
        },
    )
}

/// The arguments to run with: those given, after one that names the temporary
/// file where there is one.
pub open spec fn command_args(args: Seq<Seq<char>>, temporary: Option<Seq<char>>) -> Seq<
    Seq<char>,
> {
    match temporary {
        Some(path) => seq!["--jsonfile="@ + path] + args,
        None => args,
    }
}

/// The arguments to run with, given the temporary file that was made.
pub fn with_jsonfile(args: &[String], temporary: Option<&str>) -> (r: Vec<String>)
    ensures
        text::texts(r@) == command_args(text::texts(args@), text::opt_str(temporary)),
{
    match temporary {
        Some(path) => {
            let flag = plan::concat2("--jsonfile=", path);
            plan::after_word(flag.as_str(), args)
        },
        None => text::copy_all(args),
    }
}

/// The file to read test events from after the run: the one that the arguments
/// name, else the temporary one.
pub open spec fn events_file(
    jsonfile: Option<Seq<char>>,
    temporary: Option<Seq<char>>,
) -> Option<Seq<char>> {
    if jsonfile is Some {
        jsonfile
    } else {
        temporary
    }
}

/// Picks the file to read test events from after the run.
pub fn pick_events_file(jsonfile: Option<&str>, temporary: Option<&str>) -> (r: Option<String>)
    ensures
        text::opt_text(r) == events_file(text::opt_str(jsonfile), text::opt_str(temporary)),
{
    match jsonfile {
        Some(path) => Some(path.to_owned()),
        None => match temporary {
            Some(path) => Some(path.to_owned()),
            None => None,
        },
    }
}

/// The test events to sum up, given what was read from the file: there are none
/// where nothing could be read, or nothing but white space was.
pub open spec fn events_in(content: Option<Seq<char>>) -> Option<Seq<char>> {
    match content {
        Some(c) => if text::trimmed(c).len() > 0 {
            Some(c)
        } else {
            None
        },
        None => None,
    }
}

/// Picks the test events to sum up, given what was read from the file.
pub fn pick_events(content: Option<String>) -> (r: Option<String>)
    ensures
        text::opt_text(r) == events_in(text::opt_text(content)),
{
    match content {
        Some(c) => {
            let t = text::trim(c.as_str());
            if t.as_str().is_empty() {
                None
            } else {
                Some(c)
            }
        },
        None => None,
    }
}

/// The command writes its test events to the file that they are read from: to the
/// one that the arguments name, where they name one and no other is made, and to
/// the temporary one, where it is made because they name none.
pub proof fn events_are_read_where_they_are_written(args: Seq<Seq<char>>, path: Seq<char>)
    ensures
        jsonfile_in(command_args(args, None)) == events_file(jsonfile_in(args), None),
        jsonfile_in(args) is None ==> jsonfile_in(command_args(args, Some(path))) == events_file(
            jsonfile_in(args),
            Some(path),
        ),
{
    let all = command_args(args, Some(path));
    let p = "--jsonfile="@;
    assert(all[0] == p + path);
    assert((p + path).subrange(0, p.len() as int) =~= p);
    assert(p.is_prefix_of(p + path));
    assert((p + path).skip(p.len() as int) =~= path);
}

/// The first argument that is `--jsonfile`, or begins with `--jsonfile=`, names the file
/// for test events: by the argument after it, or by what follows the equals sign. Without
/// one, no file is named.
pub proof fn the_first_jsonfile_counts(args: Seq<Seq<char>>, k: int)
    requires
        0 <= k <= args.len(),
        forall|i: int|
            0 <= i < k ==> #[trigger] args[i] != "--jsonfile"@ && !"--jsonfile="@.is_prefix_of(
                args[i],
            ),
        k < args.len() ==> args[k] == "--jsonfile"@ || "--jsonfile="@.is_prefix_of(args[k]),
    ensures
        k == args.len() ==> jsonfile_in(args) is None,
        k < args.len() && args[k] == "--jsonfile"@ && k + 1 < args.len() ==> jsonfile_in(args)
            == Some(args[k + 1]),
        k < args.len() && args[k] == "--jsonfile"@ && k + 1 == args.len() ==> jsonfile_in(
            args,
        ) is None,
        forall|path: Seq<char>|
            k < args.len() && args[k] == #[trigger] ("--jsonfile="@ + path) ==> jsonfile_in(args)
                == Some(path),
    decreases k,
{
    reveal_strlit("--jsonfile");
    reveal_strlit("--jsonfile=");
    if k > 0 {
        let rest = args.skip(1);
        assert(args[0] != "--jsonfile"@);
        assert forall|i: int| 0 <= i < k - 1 implies #[trigger] rest[i] != "--jsonfile"@
            && !"--jsonfile="@.is_prefix_of(rest[i]) by {
            assert(rest[i] == args[i + 1]);
        }
        the_first_jsonfile_counts(rest, k - 1);
        if k < args.len() {
            assert(rest[k - 1] == args[k]);
        }
    } else if args.len() > 0 {
        text::a_prefix_and_the_rest_are_the_text(args[0], "--jsonfile="@);
        assert("--jsonfile"@.len() < "--jsonfile="@.len());
        assert(args[0] == "--jsonfile"@ ==> !"--jsonfile="@.is_prefix_of(args[0]));
    }
}

/// A run in watch mode, asked for by `--watch` or `-w`, is handed on; any other is summed
/// up. Both run with the given arguments.
pub proof fn arguments_are_handed_on(args: Seq<Seq<char>>, verbose: u8)
    ensures
        match planned(args, verbose) {
            TestPlanView::Watch { args: given, announcement } => {
                &&& args.contains("--watch"@) || args.contains("-w"@)
                &&& given == args
                &&& announcement == if verbose == 0 {
                    None
                } else {
                    Some("gotestsum --watch: passthrough mode (no filtering)"@)
                }
            },
            TestPlanView::Test(run) => {
                &&& !args.contains("--watch"@) && !args.contains("-w"@)
                &&& run.args == args
                &&& run.jsonfile == jsonfile_in(args)
                &&& run.original == "gotestsum "@ + text::joined(args, " "@)
                &&& run.given == "rtk gotestsum "@ + text::joined(args, " "@)
                &&& run.announcement == if verbose == 0 {
                    None
                } else {
                    Some("Running: gotestsum "@ + text::joined(args, " "@))
                }
            },
        },
{
    let shown = text::joined(args, " "@);
    reveal_strlit("rtk ");
    reveal_strlit("gotestsum ");
    reveal_strlit("rtk gotestsum ");
    reveal_strlit("Running: ");
    reveal_strlit("Running: gotestsum ");
    assert("rtk "@ + ("gotestsum "@ + shown) =~= "rtk gotestsum "@ + shown);
    assert("Running: "@ + ("gotestsum "@ + shown) =~= "Running: gotestsum "@ + shown);
}

/// Where a temporary file is made, one argument before the given ones names it; the
/// events are read from the file that the arguments name, and only else from the
/// temporary one. What is read counts unless it is white space alone.
pub proof fn a_named_file_outranks_a_temporary_one(
    args: Seq<Seq<char>>,
    named: Option<Seq<char>>,
    temporary: Option<Seq<char>>,
    content: Seq<char>,
)
    ensures
        command_args(args, temporary) == if temporary is Some {
            seq!["--jsonfile="@ + temporary->0] + args
        } else {
            args
        },
        named is Some ==> events_file(named, temporary) == named,
        named is None ==> events_file(named, temporary) == temporary,
        events_in(None) is None,
        events_in(Some(content)) is Some <==> exists|i: int|
            0 <= i < content.len() && !text::is_white(#[trigger] content[i]),
        events_in(Some(content)) is Some ==> events_in(Some(content))->0 == content,
{
    let any = |c: char| true;
    text::lemma_trimmed_chars(content, any);
    if exists|i: int| 0 <= i < content.len() && !text::is_white(#[trigger] content[i]) {
        if text::trimmed(content).len() == 0 {
            lemma_nothing_but_white(content);
        }
    } else {
        assert(text::every(content, text::whites()));
        text::lemma_trimmed_chars(content, text::whites());
        if text::trimmed(content).len() > 0 {
            assert(text::whites()(text::trimmed(content)[0]));
        }
    }
}

/// A text of which trimming leaves nothing is white space.
proof fn lemma_nothing_but_white(s: Seq<char>)
    requires
        text::trimmed(s).len() == 0,
    ensures
        forall|i: int| 0 <= i < s.len() ==> text::is_white(#[trigger] s[i]),
    decreases s.len(),
{
    if s.len() > 0 {
        if text::is_white(s[0]) {
            let rest = s.skip(1);
            lemma_nothing_but_white(rest);
            assert forall|i: int| 0 <= i < s.len() implies text::is_white(#[trigger] s[i]) by {
                if i > 0 {
                    assert(rest[i - 1] == s[i]);
                }
            }
        } else {
            text::lemma_trimmed_end(s);
        }
    }
}

/// A run is seen with the texts of its fields.
pub proof fn runs_are_seen_as_they_are(
    r: TestRun,
    watched: Vec<String>,
    announcement: Option<String>,
)
    ensures
        r@.args == text::texts(r.args@),
        r@.jsonfile == text::opt_text(r.jsonfile),
        r@.announcement == text::opt_text(r.announcement),
        r@.original == r.original@,
        r@.given == r.given@,
        TestPlan::Test(r)@ == TestPlanView::Test(r@),
        (TestPlan::Watch { args: watched, announcement })@ == (TestPlanView::Watch {
            args: text::texts(watched@),
            announcement: text::opt_text(announcement),
        }),
{
}

} // verus!
