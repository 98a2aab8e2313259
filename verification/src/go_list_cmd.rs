//! `go list`: the packages or the modules, counted, with the first few by name.

use crate::json;
use crate::json::Member;
use crate::plan;
use crate::plan::{Filter, Filtered, Plan};
use crate::report;
use crate::report::TeeRequest;
use crate::seqs;
use crate::text;
use vstd::prelude::*;

verus! {

/// How many entries a report shows.
pub const MAX_GO_LIST_ENTRIES: usize = 10;

// ---------------------------------------------------------------------------
// What to run
// ---------------------------------------------------------------------------

/// Takes the private flag `--deep` out of the arguments and tells whether it was
/// there.
pub fn strip_deep_flag(args: &[String]) -> (r: (Vec<String>, bool))
    ensures
        text::texts(r.0@) == plan::without_flag(text::texts(args@), "--deep"@),
        r.1 == text::texts(args@).contains("--deep"@),
{
    plan::take_flag(args, "--deep")
}

/// Whether the arguments ask for modules (`-m`).
pub fn detect_modules_mode(args: &[String]) -> (r: bool)
    ensures
        r == text::texts(args@).contains("-m"@),
{
    text::holds(args, "-m")
}

/// Whether an argument asks for JSON.
pub open spec fn asks_json(a: Seq<char>) -> bool {
    a == "-json"@ || "-json="@.is_prefix_of(a)
}

/// Whether some argument asks for JSON.
pub open spec fn wants_json(args: Seq<Seq<char>>) -> bool {
    exists|i: int| 0 <= i < args.len() && asks_json(#[trigger] args[i])
}

fn json_wanted(args: &[String]) -> (r: bool)
    ensures
        r == wants_json(text::texts(args@)),
{
    let n: usize = args.len();
    let ghost all = text::texts(args@);
    for i in 0..n
        invariant
            n == args@.len(),
            all == text::texts(args@),
            forall|j: int| 0 <= j < i ==> !asks_json(#[trigger] all[j]),
    {
        assert(all[i as int] == args@[i as int]@);
        if text::same_text(args[i].as_str(), "-json") || text::starts_with(
            args[i].as_str(),
            "-json=",
        ) {
            return true;
        }
    }
    false
}

/// What `go list` with the given arguments runs: JSON is asked for unless the
/// arguments do, or `--deep` asks for the output as it is.
pub open spec fn planned(args: Seq<Seq<char>>, verbose: u8) -> plan::PlanView {
    let deep = args.contains("--deep"@);
    let rest = plan::without_flag(args, "--deep"@);
    let inject = !deep && !wants_json(rest);
    plan::PlanView::Filtered(
        plan::FilteredView {
            program: "go"@,
            args: if inject {
                seq!["list"@, "-json"@] + rest
            } else {
                seq!["list"@] + rest
            },
            announcement: plan::announced(
                verbose,
                if inject {
                    "Running: go list -json "@ + text::joined(rest, " "@)
                } else {
                    "Running: go list "@ + text::joined(rest, " "@)
                },
            ),
            tool: "go list"@,
            shown_args: text::joined(rest, " "@),
            filter: if deep {
                plan::FilterView::Verbatim
            } else if rest.contains("-m"@) {
                plan::FilterView::ListModules
            } else {
                plan::FilterView::ListPackages
            },
            stdout_only: true,
            tee: "go_list"@,
        },
    )
}

/// Plans what `go list` with the given arguments runs.
pub fn run(args: &[String], verbose: u8) -> (r: Plan)
    ensures
        r@ == planned(text::texts(args@), verbose),
{
    let (rest, deep) = strip_deep_flag(args);
    let modules = detect_modules_mode(rest.as_slice());
    let inject = !deep && !json_wanted(rest.as_slice());
    let shown = text::join(rest.as_slice(), " ");
    let command = if inject {
        plan::after_words("list", "-json", rest.as_slice())
    } else {
        plan::after_word("list", rest.as_slice())
    };
    let intro = if inject {
        "Running: go list -json "
    } else {
        "Running: go list "
    };
    let filter = if deep {
        Filter::Verbatim
    } else if modules {
        Filter::ListModules
    } else {
        Filter::ListPackages
    };
    Plan::Filtered(
        Filtered {
            program: "go".to_owned(),
            args: command,
            announcement: plan::announce(verbose, intro, shown.as_str()),
            tool: "go list".to_owned(),
            shown_args: shown,
            filter,
            stdout_only: true,
            tee: "go_list".to_owned(),
        },
    )
}

/// `go list` never sees the private flag `--deep`; with it the output is handed on
/// as it is, and without it JSON is asked for, by the given arguments or by an
/// added one.
pub proof fn deep_flag_stays_private(args: Seq<Seq<char>>, verbose: u8)
    ensures
        match planned(args, verbose) {
            plan::PlanView::Filtered(f) => {
                &&& !f.args.contains("--deep"@)
                &&& args.contains("--deep"@) <==> f.filter is Verbatim
                &&& !args.contains("--deep"@) ==> wants_json(f.args)
            },
            plan::PlanView::Passthrough(_) => false,
        },
{
    let rest = plan::without_flag(args, "--deep"@);
    let all = planned(args, verbose)->Filtered_0.args;
    let n = all.len() - rest.len();
    plan::flag_is_taken_out(args, "--deep"@);
    reveal_strlit("--deep");
    reveal_strlit("list");
    reveal_strlit("-json");
    assert("list"@.len() != "--deep"@.len());
    assert("-json"@.len() != "--deep"@.len());
    assert(forall|k: int| n <= k < all.len() ==> #[trigger] all[k] == rest[k - n]);
    if all.contains("--deep"@) {
        let k = all.index_of("--deep"@);
        assert(all[k] == "--deep"@);
        assert(k >= n);
        assert(rest[k - n] == "--deep"@);
    }
    if wants_json(rest) {
        let k = choose|k: int| 0 <= k < rest.len() && asks_json(#[trigger] rest[k]);
        assert(all[k + n] == rest[k]);
        assert(asks_json(all[k + n]));
    } else if !args.contains("--deep"@) {
        assert(asks_json(all[1]));
    }
}

// ---------------------------------------------------------------------------
// Numbered reports
// ---------------------------------------------------------------------------

/// The entries, one to a row, numbered from one.
pub open spec fn numbered(entries: Seq<Seq<char>>) -> Seq<char>
    decreases entries.len(),
{
    if entries.len() == 0 {
        Seq::empty()
    } else {
        numbered(entries.drop_last()) + text::decimal(entries.len()) + ". "@ + entries.last()
            + "\n"@
    }
}

/// The heading of the report of so many of `what`.
pub open spec fn list_head(what: Seq<char>, entries: nat) -> Seq<char> {
    "go list: "@ + text::decimal(entries) + " "@ + what + "\n"@ + report::rule_line()
}

/// How many entries are left out of so many.
pub open spec fn entries_left_out(entries: nat) -> Seq<char> {
    "\n… +"@ + text::decimal((entries - MAX_GO_LIST_ENTRIES) as nat) + " more\n"@
}

/// The end of the report of so many entries: how many are left out, if any are, and
/// the pointer to the whole list.
pub open spec fn list_ending(entries: nat, hint: Option<Seq<char>>) -> Seq<char> {
    if entries > MAX_GO_LIST_ENTRIES {
        entries_left_out(entries) + report::hint_line(hint)
    } else {
        Seq::empty()
    }
}

/// The report of a list of `what`. `hint` points to the whole list on disk; it is
/// shown where not all entries are.
pub open spec fn list_report(
    what: Seq<char>,
    entries: Seq<Seq<char>>,
    hint: Option<Seq<char>>,
) -> Seq<char> {
    let head = list_head(what, entries.len());
    let rows = numbered(seqs::first(entries, MAX_GO_LIST_ENTRIES as nat));
    let more = list_ending(entries.len(), hint);
    if entries.len() == 0 {
        "go list: no "@ + what
    } else {
        text::trimmed(head + rows + more)
    }
}

/// What is to be kept on disk of a list: all entries, where not all are shown.
pub open spec fn list_tee(entries: Seq<Seq<char>>) -> Option<report::TeeView> {
    if entries.len() > MAX_GO_LIST_ENTRIES {
        Some(
            report::TeeView {
                content: text::joined(entries, "\n"@),
                slug: "go-list"@,
                from_line: (MAX_GO_LIST_ENTRIES + 1) as nat,
            },
        )
    } else {
        None
    }
}

/// What is to be kept on disk before a list is reported.
pub fn list_tee_request(entries: &Vec<String>) -> (r: Option<TeeRequest>)
    ensures
        report::tee_view(r) == list_tee(text::texts(entries@)),
{
    assert(text::texts(entries@).len() == entries@.len());
    if entries.len() > MAX_GO_LIST_ENTRIES {
        Some(
            TeeRequest {
                content: text::join(entries.as_slice(), "\n"),
                slug: "go-list".to_owned(),
                from_line: MAX_GO_LIST_ENTRIES + 1,
            },
        )
    } else {
        None
    }
}

fn summarize(what: &str, entries: &Vec<String>, hint: Option<&str>) -> (r: String)
    ensures
        r@ == list_report(what@, text::texts(entries@), text::opt_str(hint)),
{
    let ghost all = text::texts(entries@);
    let n: usize = entries.len();
    assert(all.len() == n);
    if n == 0 {
        return plan::concat2("go list: no ", what);
    }
    let mut out = "go list: ".to_owned();
    text::push_count(&mut out, n);
    out.append(" ");
    out.append(what);
    out.append("\n");
    report::push_rule_line(&mut out);
    let ghost head = out@;
    let ghost kept = seqs::first(all, MAX_GO_LIST_ENTRIES as nat);
    let stop: usize = if n > MAX_GO_LIST_ENTRIES {
        MAX_GO_LIST_ENTRIES
    } else {
        n
    };
    assert(out@ =~= head + numbered(kept.take(0)));
    for i in 0..stop
        invariant
            n == entries@.len(),
            all == text::texts(entries@),
            kept == seqs::first(all, MAX_GO_LIST_ENTRIES as nat),
            stop <= n,
            stop == kept.len(),
            out@ == head + numbered(kept.take(i as int)),
    {
        text::push_count(&mut out, i + 1);
        out.append(". ");
        out.append(entries[i].as_str());
        out.append("\n");
        proof {
            assert(kept.take(i + 1).drop_last() =~= kept.take(i as int));
            assert(kept.take(i + 1).last() == entries@[i as int]@);
            assert(out@ =~= head + numbered(kept.take(i + 1)));
        }
    }
    proof {
        seqs::lemma_take_all(kept);
    }
    let ghost listed = out@;
    if n > MAX_GO_LIST_ENTRIES {
        out.append("\n… +");
        text::push_count(&mut out, n - MAX_GO_LIST_ENTRIES);
        out.append(" more\n");
        report::push_hint_line(&mut out, hint);
        assert(out@ =~= listed + ("\n… +"@ + text::decimal((n - MAX_GO_LIST_ENTRIES) as nat)
            + " more\n"@ + report::hint_line(text::opt_str(hint))));
    } else {
        assert(out@ =~= listed + Seq::<char>::empty());
    }
    text::trim(out.as_str())
}

/// A numbered entry stands among the numbered entries.
proof fn lemma_entry_in_numbered(entries: Seq<Seq<char>>, i: int)
    requires
        0 <= i < entries.len(),
    ensures
        text::has_text(numbered(entries), text::decimal((i + 1) as nat) + ". "@ + entries[i]),
    decreases entries.len(),
{
    let before = entries.drop_last();
    let t = text::decimal((i + 1) as nat) + ". "@ + entries[i];
    if i == entries.len() - 1 {
        text::lemma_middle_part(numbered(before), t, "\n"@);
        assert(numbered(before) + t + "\n"@ =~= numbered(entries));
    } else {
        lemma_entry_in_numbered(before, i);
        let last = text::decimal(entries.len()) + ". "@ + entries.last() + "\n"@;
        text::lemma_part_of_sum(numbered(before), last, t);
        assert(numbered(before) + last =~= numbered(entries));
    }
}

/// The report of a list shows the first entries, each after its number.
pub proof fn first_entries_are_shown(
    what: Seq<char>,
    entries: Seq<Seq<char>>,
    hint: Option<Seq<char>>,
    i: int,
)
    requires
        0 <= i < entries.len(),
        i < MAX_GO_LIST_ENTRIES,
    ensures
        text::has_text(
            list_report(what, entries, hint),
            text::trimmed_end(text::decimal((i + 1) as nat) + ". "@ + entries[i]),
        ),
{
    let head = list_head(what, entries.len());
    let kept = seqs::first(entries, MAX_GO_LIST_ENTRIES as nat);
    let rows = numbered(kept);
    let more = list_ending(entries.len(), hint);
    let row = text::decimal((i + 1) as nat) + ". "@ + entries[i];
    let t = text::trimmed_end(row);
    let whole = head + rows + more;
    assert(kept[i] == entries[i]);
    lemma_entry_in_numbered(kept, i);
    text::lemma_trimmed_part(row);
    text::lemma_part_of_part(rows, row, t);
    text::lemma_part_of_sum(head, rows, t);
    text::lemma_part_of_sum(head + rows, more, t);
    text::lemma_trimming_keeps(whole, t);
    reveal_strlit("go list: ");
    assert(whole[0] == 'g');
    text::lemma_trimmed_at_end(whole);
}

/// A pointer to the whole list is shown exactly where something is kept on disk
/// for it: where the entries are not all shown.
pub proof fn list_hint_needs_a_request(
    what: Seq<char>,
    entries: Seq<Seq<char>>,
    hint: Seq<char>,
)
    ensures
        list_tee(entries) is None ==> list_report(what, entries, Some(hint)) == list_report(
            what,
            entries,
            None,
        ),
        list_tee(entries) is Some ==> text::has_text(
            list_report(what, entries, Some(hint)),
            text::trimmed_end(hint),
        ),
{
    if entries.len() > MAX_GO_LIST_ENTRIES {
        let head = list_head(what, entries.len());
        let rows = numbered(seqs::first(entries, MAX_GO_LIST_ENTRIES as nat));
        let count = entries_left_out(entries.len());
        let before = head + rows + count;
        let whole = head + rows + (count + report::hint_line(Some(hint)));
        report::lemma_hint_is_shown(before, hint);
        assert(before + report::hint_line(Some(hint)) =~= whole);
        reveal_strlit("go list: ");
        assert(whole[0] == 'g');
        text::lemma_trimmed_at_end(whole);
    }
}

// ---------------------------------------------------------------------------
// Packages
// ---------------------------------------------------------------------------

/// What a package is listed under: its import path, else its name, else its
/// directory.
pub open spec fn package_name(members: Seq<(Seq<char>, json::MemberView)>) -> Option<Seq<char>> {
    let path = json::text_under(members, "ImportPath"@);
    let name = json::text_under(members, "Name"@);
    let dir = json::text_under(members, "Dir"@);
    if path is Some {
        path
    } else if name is Some {
        name
    } else {
        dir
    }
}

/// The package that an item of a stream gives, if it does, as a mapping.
pub open spec fn named_package() -> spec_fn(Option<Seq<(Seq<char>, json::MemberView)>>) -> Option<
    Seq<char>,
> {
    |i: Option<Seq<(Seq<char>, json::MemberView)>>|
        match i {
            Some(members) => package_name(members),
            None => None,
        }
}

/// The packages among the items of a stream.
pub open spec fn packages_in(items: Seq<Option<Seq<(Seq<char>, json::MemberView)>>>) -> Seq<
    Seq<char>,
> {
    items.filter_map(named_package())
}

fn name_package(members: &Vec<(String, Member)>) -> (r: Option<String>)
    ensures
        text::opt_text(r) == package_name(json::members_view(members@)),
{
    if let Some(path) = json::get_text(members, "ImportPath") {
        return Some(path);
    }
    if let Some(name) = json::get_text(members, "Name") {
        return Some(name);
    }
    json::get_text(members, "Dir")
}

/// Picks the packages out of the items of a stream.
pub fn collect_packages(items: &Vec<Option<Vec<(String, Member)>>>) -> (r: Vec<String>)
    ensures
        text::texts(r@) == packages_in(json::items_view(items@)),
{
    let mut out: Vec<String> = Vec::new();
    let ghost all = json::items_view(items@);
    let ghost f = named_package();
    assert(text::texts(out@) =~= all.take(0).filter_map(f));
    for i in 0..items.len()
        invariant
            all == json::items_view(items@),
            f == named_package(),
            text::texts(out@) == all.take(i as int).filter_map(f),
    {
        let ghost done = text::texts(out@);
        proof {
            all.lemma_filter_map_take_succ(f, i as int);
            assert(done + Seq::<Seq<char>>::empty() =~= done);
        }
        if let Some(members) = &items[i] {
            assert(all[i as int] == Some(json::members_view(members@)));
            if let Some(name) = name_package(members) {
                out.push(name);
                assert(text::texts(out@) =~= done + seq![name@]);
            }
        }
    }
    proof {
        seqs::lemma_take_all(all);
    }
    out
}

/// An item that is an error, or no object, makes no difference to the packages.
pub proof fn errors_are_no_packages(
    before: Seq<Option<Seq<(Seq<char>, json::MemberView)>>>,
    after: Seq<Option<Seq<(Seq<char>, json::MemberView)>>>,
)
    ensures
        packages_in(before.push(None) + after) == packages_in(before + after),
{
    seqs::lemma_filter_map_skips(before, None, after, named_package());
}

/// The packages that the output of `go list -json` names. Where it breaks off within
/// an object, everything before that object counts and nothing after it.
pub fn list_packages(input: &str) -> (r: Vec<String>)
    ensures
        text::texts(r@) == packages_in(json::stream_items(input@)),
        json::is_json_blank(input@) ==> r@.len() == 0,
        forall|whole: Seq<char>| #[trigger]
            json::breaks_after(input@, whole) ==> text::texts(r@) == packages_in(
                json::stream_items(whole),
            ),
{
    let items = json::read_stream(input);
    let packages = collect_packages(&items);
    proof {
        assert(text::texts(packages@).len() == packages@.len());
        assert forall|whole: Seq<char>| #[trigger]
            json::breaks_after(input@, whole) implies text::texts(packages@) == packages_in(
            json::stream_items(whole),
        ) by {
            errors_are_no_packages(json::stream_items(whole), Seq::empty());
            assert(json::stream_items(whole).push(None) + Seq::empty() =~= json::stream_items(
                whole,
            ).push(None));
            assert(json::stream_items(whole) + Seq::empty() =~= json::stream_items(whole));
        }
    }
    packages
}

/// Reports a list of packages. `hint` points to the whole list on disk.
pub fn summarize_packages(packages: &Vec<String>, hint: Option<&str>) -> (r: String)
    ensures
        r@ == list_report("packages"@, text::texts(packages@), text::opt_str(hint)),
{
    summarize("packages", packages, hint)
}

/// Filters the output of `go list -json`. Where it breaks off within an object,
/// everything before that object counts and nothing after it.
pub fn filter_go_list_packages(input: &str, hint: Option<&str>) -> (r: String)
    ensures
        r@ == list_report(
            "packages"@,
            packages_in(json::stream_items(input@)),
            text::opt_str(hint),
        ),
        json::is_json_blank(input@) ==> r@ == "go list: no packages"@,
        forall|whole: Seq<char>| #[trigger]
            json::breaks_after(input@, whole) ==> r@ == list_report(
                "packages"@,
                packages_in(json::stream_items(whole)),
                text::opt_str(hint),
            ),
{
    let packages = list_packages(input);
    proof {
        reveal_strlit("go list: no ");
        reveal_strlit("packages");
        reveal_strlit("go list: no packages");
        assert("go list: no "@ + "packages"@ =~= "go list: no packages"@);
    }
    summarize_packages(&packages, hint)
}

// ---------------------------------------------------------------------------
// Modules
// ---------------------------------------------------------------------------

/// What a module is listed as: its path, after a star for the main module and
/// before its version where it has one. An item without a path is no module.
pub open spec fn module_entry(members: Seq<(Seq<char>, json::MemberView)>) -> Option<Seq<char>> {
    let star = if json::flag_under(members, "Main"@) {
        "★ "@
    } else {
        Seq::empty()
    };
    let version = match json::text_under(members, "Version"@) {
        Some(v) => "@"@ + v,
        None => Seq::empty(),
    };
    match json::text_under(members, "Path"@) {
        Some(path) => Some(star + path + version),
        None => None,
    }
}

/// The module that an item of a stream gives, if it does, as a mapping.
pub open spec fn listed_module() -> spec_fn(Option<Seq<(Seq<char>, json::MemberView)>>) -> Option<
    Seq<char>,
> {
    |i: Option<Seq<(Seq<char>, json::MemberView)>>|
        match i {
            Some(members) => module_entry(members),
            None => None,
        }
}

/// The modules among the items of a stream.
pub open spec fn modules_in(items: Seq<Option<Seq<(Seq<char>, json::MemberView)>>>) -> Seq<
    Seq<char>,
> {
    items.filter_map(listed_module())
}

fn describe_module(members: &Vec<(String, Member)>) -> (r: Option<String>)
    ensures
        text::opt_text(r) == module_entry(json::members_view(members@)),
{
    match json::get_text(members, "Path") {
        Some(path) => {
            let mut out = if json::get_flag(members, "Main") {
                "★ ".to_owned()
            } else {
                String::new()
            };
            out.append(path.as_str());
            let ghost named = out@;
            if let Some(version) = json::get_text(members, "Version") {
                out.append("@");
                out.append(version.as_str());
                assert(out@ =~= named + ("@"@ + version@));
            } else {
                assert(out@ =~= named + Seq::<char>::empty());
            }
            Some(out)
        },
        None => None,
    }
}

/// Picks the modules out of the items of a stream.
pub fn collect_modules(items: &Vec<Option<Vec<(String, Member)>>>) -> (r: Vec<String>)
    ensures
        text::texts(r@) == modules_in(json::items_view(items@)),
{
    let mut out: Vec<String> = Vec::new();
    let ghost all = json::items_view(items@);
    let ghost f = listed_module();
    assert(text::texts(out@) =~= all.take(0).filter_map(f));
    for i in 0..items.len()
        invariant
            all == json::items_view(items@),
            f == listed_module(),
            text::texts(out@) == all.take(i as int).filter_map(f),
    {
        let ghost done = text::texts(out@);
        proof {
            all.lemma_filter_map_take_succ(f, i as int);
            assert(done + Seq::<Seq<char>>::empty() =~= done);
        }
        if let Some(members) = &items[i] {
            assert(all[i as int] == Some(json::members_view(members@)));
            if let Some(entry) = describe_module(members) {
                out.push(entry);
                assert(text::texts(out@) =~= done + seq![entry@]);
            }
        }
    }
    proof {
        seqs::lemma_take_all(all);
    }
    out
}

/// An item that is an error, or no object, makes no difference to the modules.
pub proof fn errors_are_no_modules(
    before: Seq<Option<Seq<(Seq<char>, json::MemberView)>>>,
    after: Seq<Option<Seq<(Seq<char>, json::MemberView)>>>,
)
    ensures
        modules_in(before.push(None) + after) == modules_in(before + after),
{
    seqs::lemma_filter_map_skips(before, None, after, listed_module());
}

/// The modules that the output of `go list -m -json` names. Where it breaks off within
/// an object, everything before that object counts and nothing after it.
pub fn list_modules(input: &str) -> (r: Vec<String>)
    ensures
        text::texts(r@) == modules_in(json::stream_items(input@)),
        json::is_json_blank(input@) ==> r@.len() == 0,
        forall|whole: Seq<char>| #[trigger]
            json::breaks_after(input@, whole) ==> text::texts(r@) == modules_in(
                json::stream_items(whole),
            ),
{
    let items = json::read_stream(input);
    let modules = collect_modules(&items);
    proof {
        assert(text::texts(modules@).len() == modules@.len());
        assert forall|whole: Seq<char>| #[trigger]
            json::breaks_after(input@, whole) implies text::texts(modules@) == modules_in(
            json::stream_items(whole),
        ) by {
            errors_are_no_modules(json::stream_items(whole), Seq::empty());
            assert(json::stream_items(whole).push(None) + Seq::empty() =~= json::stream_items(
                whole,
            ).push(None));
            assert(json::stream_items(whole) + Seq::empty() =~= json::stream_items(whole));
        }
    }
    modules
}

/// Reports a list of modules. `hint` points to the whole list on disk.
pub fn summarize_modules(modules: &Vec<String>, hint: Option<&str>) -> (r: String)
    ensures
        r@ == list_report("modules"@, text::texts(modules@), text::opt_str(hint)),
{
    summarize("modules", modules, hint)
}

/// Filters the output of `go list -m -json`. Where it breaks off within an object,
/// everything before that object counts and nothing after it.
pub fn filter_go_list_modules(input: &str, hint: Option<&str>) -> (r: String)
    ensures
        r@ == list_report(
            "modules"@,
            modules_in(json::stream_items(input@)),
            text::opt_str(hint),
        ),
        json::is_json_blank(input@) ==> r@ == "go list: no modules"@,
        forall|whole: Seq<char>| #[trigger]
            json::breaks_after(input@, whole) ==> r@ == list_report(
                "modules"@,
                modules_in(json::stream_items(whole)),
                text::opt_str(hint),
            ),
{
    let modules = list_modules(input);
    proof {
        reveal_strlit("go list: no ");
        reveal_strlit("modules");
        reveal_strlit("go list: no modules");
        assert("go list: no "@ + "modules"@ =~= "go list: no modules"@);
    }
    summarize_modules(&modules, hint)
}

// ---------------------------------------------------------------------------
// Laws
// ---------------------------------------------------------------------------

/// Entries are numbered from one, each in a row of its own: one more entry adds one
/// more row, with the next number.
pub proof fn one_more_entry_adds_a_row(entries: Seq<Seq<char>>, e: Seq<char>)
    ensures
        numbered(entries.push(e)) == numbered(entries) + text::decimal(entries.len() + 1) + ". "@
            + e + "\n"@,
        numbered(Seq::empty()).len() == 0,
{
    assert(entries.push(e).drop_last() =~= entries);
}

/// The report of a list is the number of entries, then the first ten with their
/// numbers, then how many more there are. The whole list is kept on disk exactly where
/// not all entries are shown, from the first that is not.
pub proof fn the_report_counts_and_numbers(
    what: Seq<char>,
    entries: Seq<Seq<char>>,
    hint: Option<Seq<char>>,
)
    ensures
        list_report(what, entries, hint) == if entries.len() == 0 {
            "go list: no "@ + what
        } else {
            text::trimmed(
                "go list: "@ + text::decimal(entries.len()) + " "@ + what + "\n"@
                    + "═══════════════════════════════════════\n"@ + numbered(
                    seqs::first(entries, 10),
                ) + if entries.len() > 10 {
                    "\n… +"@ + text::decimal((entries.len() - 10) as nat) + " more\n"@
                        + if hint is Some {
                        "  "@ + hint->0 + "\n"@
                    } else {
                        Seq::empty()
                    }
                } else {
                    Seq::empty()
                },
            )
        },
        list_tee(entries) == if entries.len() > 10 {
            Some(
                report::TeeView {
                    content: text::joined(entries, "\n"@),
                    slug: "go-list"@,
                    from_line: 11,
                },
            )
        } else {
            None
        },
{
}

/// An object that has a text under `ImportPath` is listed under it; else under the text
/// of `Name`, else under that of `Dir`. Each such object is listed once, in the order of
/// the stream, and nothing else is.
pub proof fn packages_are_listed_by_import_path(
    items: Seq<Option<Seq<(Seq<char>, json::MemberView)>>>,
    members: Seq<(Seq<char>, json::MemberView)>,
)
    ensures
        ({
            let path = json::text_under(members, "ImportPath"@);
            let name = json::text_under(members, "Name"@);
            let dir = json::text_under(members, "Dir"@);
            let listed = packages_in(items.push(Some(members)));
            &&& path is Some ==> listed == packages_in(items).push(path->0)
            &&& path is None && name is Some ==> listed == packages_in(items).push(name->0)
            &&& path is None && name is None && dir is Some ==> listed == packages_in(items).push(
                dir->0,
            )
            &&& path is None && name is None && dir is None ==> listed == packages_in(items)
        }),
        packages_in(items.push(None)) == packages_in(items),
        packages_in(Seq::empty()).len() == 0,
{
    lemma_listed_step(items, Some(members), named_package());
    lemma_listed_step(items, None, named_package());
}

/// An object that has a text under `Path` is listed as this path, after a star where
/// `Main` is true, and before an at sign and the version where there is a text under
/// `Version`. Each such object is listed once, in the order of the stream, and nothing
/// else is.
pub proof fn modules_are_listed_by_path_and_version(
    items: Seq<Option<Seq<(Seq<char>, json::MemberView)>>>,
    members: Seq<(Seq<char>, json::MemberView)>,
)
    ensures
        ({
            let path = json::text_under(members, "Path"@);
            let version = json::text_under(members, "Version"@);
            let main = json::value_under(members, "Main"@) == Some(json::MemberView::Bool(true));
            let listed = modules_in(items.push(Some(members)));
            &&& path is None ==> listed == modules_in(items)
            &&& path is Some && main && version is Some ==> listed == modules_in(items).push(
                "★ "@ + path->0 + "@"@ + version->0,
            )
            &&& path is Some && main && version is None ==> listed == modules_in(items).push(
                "★ "@ + path->0,
            )
            &&& path is Some && !main && version is Some ==> listed == modules_in(items).push(
                path->0 + "@"@ + version->0,
            )
            &&& path is Some && !main && version is None ==> listed == modules_in(items).push(
                path->0,
            )
        }),
        modules_in(items.push(None)) == modules_in(items),
        modules_in(Seq::empty()).len() == 0,
{
    let path = json::text_under(members, "Path"@);
    let version = json::text_under(members, "Version"@);
    lemma_listed_step(items, Some(members), listed_module());
    lemma_listed_step(items, None, listed_module());
    if path is Some {
        let p = path->0;
        let none = Seq::<char>::empty();
        assert("★ "@ + p + none =~= "★ "@ + p);
        assert(none + p + none =~= p);
        if version is Some {
            let v = version->0;
            assert("★ "@ + p + ("@"@ + v) =~= "★ "@ + p + "@"@ + v);
            assert(none + p + ("@"@ + v) =~= p + "@"@ + v);
        }
    }
}

/// What a stream maps to, one item further.
proof fn lemma_listed_step<A>(s: Seq<A>, x: A, f: spec_fn(A) -> Option<Seq<char>>)
    ensures
        s.push(x).filter_map(f) == match f(x) {
            Some(t) => s.filter_map(f).push(t),
            None => s.filter_map(f),
        },
{
    let all = s.push(x);
    let k = s.len() as int;
    all.lemma_filter_map_take_succ(f, k);
    assert(all.take(k) =~= s);
    assert(all.take(k + 1) =~= all);
    let done = s.filter_map(f);
    assert(done + Seq::<Seq<char>>::empty() =~= done);
    if let Some(t) = f(x) {
        assert(done + seq![t] =~= done.push(t));
    }
}

/// An argument asks for JSON where it is `-json`, alone or with a value after an equals
/// sign.
pub open spec fn is_json_flag(a: Seq<char>) -> bool {
    a == "-json"@ || "-json="@.is_prefix_of(a)
}

/// `go list` runs with the given arguments but `--deep`, after a request for JSON where
/// they make none and `--deep` is not given. The standard output alone goes through the
/// filter: that for modules where `-m` is given, else that for packages; with `--deep`
/// it is handed on.
pub proof fn arguments_are_handed_on(args: Seq<Seq<char>>, verbose: u8)
    ensures
        ({
            let deep = args.contains("--deep"@);
            let rest = plan::without_flag(args, "--deep"@);
            let asked = exists|i: int| 0 <= i < rest.len() && is_json_flag(#[trigger] rest[i]);
            match planned(args, verbose) {
                plan::PlanView::Filtered(f) => {
                    &&& f.program == "go"@
                    &&& f.args == if deep || asked {
                        seq!["list"@] + rest
                    } else {
                        seq!["list"@, "-json"@] + rest
                    }
                    &&& if deep {
                        f.filter is Verbatim
                    } else if rest.contains("-m"@) {
                        f.filter is ListModules
                    } else {
                        f.filter is ListPackages
                    }
                    &&& f.stdout_only
                    &&& f.tool == "go list"@
                    &&& f.tee == "go_list"@
                    &&& f.shown_args == text::joined(rest, " "@)
                    &&& f.announcement == if verbose == 0 {
                        None
                    } else if deep || asked {
                        Some("Running: go list "@ + text::joined(rest, " "@))
                    } else {
                        Some("Running: go list -json "@ + text::joined(rest, " "@))
                    }
                },
                plan::PlanView::Passthrough(_) => false,
            }
        }),
{
    let rest = plan::without_flag(args, "--deep"@);
    if wants_json(rest) {
        let i = choose|i: int| 0 <= i < rest.len() && asks_json(#[trigger] rest[i]);
        assert(is_json_flag(rest[i]));
    }
    if exists|i: int| 0 <= i < rest.len() && is_json_flag(#[trigger] rest[i]) {
        let i = choose|i: int| 0 <= i < rest.len() && is_json_flag(#[trigger] rest[i]);
        assert(asks_json(rest[i]));
    }
}

} // verus!
