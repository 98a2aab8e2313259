//! Parts that the reports share.

use crate::seqs;
use crate::text;
use vstd::prelude::*;

verus! {

/// The line under a report's heading.
pub open spec fn rule_line() -> Seq<char> {
    "═══════════════════════════════════════\n"@
}

/// Appends the line under a report's heading.
pub fn push_rule_line(out: &mut String)
    ensures
        final(out)@ == old(out)@ + rule_line(),
{
    out.append("═══════════════════════════════════════\n");
}

/// The ending that goes with a number of things.
pub open spec fn plural(n: nat) -> Seq<char> {
    if n == 1 {
        ""@
    } else {
        "s"@
    }
}

/// Appends the ending that goes with a number of things.
pub fn push_plural(out: &mut String, n: usize)
    ensures
        final(out)@ == old(out)@ + plural(n as nat),
{
    if n == 1 {
        out.append("");
    } else {
        out.append("s");
    }
}

/// A text to be kept on disk, so that a report that shows only part of it can
/// point to the rest.
pub struct TeeRequest {
    /// The text to keep.
    pub content: String,
    /// What the file is named after.
    pub slug: String,
    /// The line, counted from one, from which the report does not show it.
    pub from_line: usize,
}

/// What a request to keep a text asks for.
pub struct TeeView {
    pub content: Seq<char>,
    pub slug: Seq<char>,
    pub from_line: nat,
}

impl View for TeeRequest {
    type V = TeeView;

    open spec fn view(&self) -> TeeView {
        TeeView { content: self.content@, slug: self.slug@, from_line: self.from_line as nat }
    }
}

/// What an optional request asks for.
pub open spec fn tee_view(r: Option<TeeRequest>) -> Option<TeeView> {
    match r {
        Some(t) => Some(t@),
        None => None,
    }
}

/// The rows that a sequence of entries gives hold the row of each entry.
proof fn lemma_row_in_rows<A>(entries: Seq<A>, f: spec_fn(A) -> Seq<char>, i: int, n: int)
    requires
        0 <= i < n <= entries.len(),
    ensures
        text::has_text(entries.take(n).flat_map(f), f(entries[i])),
    decreases n,
{
    let before = entries.take(n - 1).flat_map(f);
    seqs::lemma_rows_step(entries, f, n - 1);
    if i == n - 1 {
        text::lemma_middle_part(before, f(entries[i]), Seq::empty());
        assert(before + f(entries[i]) + Seq::<char>::empty() =~= entries.take(n).flat_map(f));
    } else {
        lemma_row_in_rows(entries, f, i, n - 1);
        text::lemma_middle_part(Seq::empty(), before, f(entries[n - 1]));
        assert(Seq::<char>::empty() + before + f(entries[n - 1]) =~= entries.take(n).flat_map(f));
        text::lemma_part_of_part(entries.take(n).flat_map(f), before, f(entries[i]));
    }
}

/// The rows of a sequence of entries are made of what each row is made of.
pub proof fn lemma_rows_chars<A>(
    entries: Seq<A>,
    f: spec_fn(A) -> Seq<char>,
    p: spec_fn(char) -> bool,
)
    requires
        forall|i: int| 0 <= i < entries.len() ==> text::every(f(#[trigger] entries[i]), p),
    ensures
        text::every(entries.flat_map(f), p),
    decreases entries.len(),
{
    if entries.len() == 0 {
        seqs::lemma_rows_none(entries, f);
        assert(entries.take(0) =~= entries);
    } else {
        let k = entries.len() - 1;
        let before = entries.take(k);
        assert forall|i: int| 0 <= i < before.len() implies text::every(
            f(#[trigger] before[i]),
            p,
        ) by {
            assert(before[i] == entries[i]);
        }
        lemma_rows_chars(before, f, p);
        seqs::lemma_rows_step(entries, f, k);
        seqs::lemma_take_all(entries);
        text::lemma_sum_chars(before.flat_map(f), f(entries[k]), p);
    }
}

/// A text made of a heading, rows and an ending holds each row.
pub proof fn lemma_row_in_block<A>(
    head: Seq<char>,
    entries: Seq<A>,
    f: spec_fn(A) -> Seq<char>,
    tail: Seq<char>,
    i: int,
)
    requires
        0 <= i < entries.len(),
    ensures
        text::has_text(head + entries.flat_map(f) + tail, f(entries[i])),
{
    seqs::lemma_take_all(entries);
    lemma_row_in_rows(entries, f, i, entries.len() as int);
    text::lemma_middle_part(head, entries.flat_map(f), tail);
    text::lemma_part_of_part(head + entries.flat_map(f) + tail, entries.flat_map(f), f(entries[i]));
}

/// A report made of a heading, rows and an ending, trimmed at its end, shows
/// whatever its rows hold that does not end with white space.
pub proof fn lemma_row_is_shown<A>(
    head: Seq<char>,
    entries: Seq<A>,
    f: spec_fn(A) -> Seq<char>,
    tail: Seq<char>,
    i: int,
    t: Seq<char>,
)
    requires
        0 <= i < entries.len(),
        text::has_text(f(entries[i]), t),
        t.len() > 0 ==> !text::is_white(t.last()),
    ensures
        text::has_text(text::trimmed_end(head + entries.flat_map(f) + tail), t),
{
    let whole = head + entries.flat_map(f) + tail;
    lemma_row_in_block(head, entries, f, tail, i);
    text::lemma_part_of_part(whole, f(entries[i]), t);
    text::lemma_trimming_keeps(whole, t);
}

/// A report made of a beginning and an ending, trimmed at its end, shows whatever
/// the ending holds that does not end with white space.
pub proof fn lemma_ending_is_shown(head: Seq<char>, tail: Seq<char>, t: Seq<char>)
    requires
        text::has_text(tail, t),
        t.len() > 0 ==> !text::is_white(t.last()),
    ensures
        text::has_text(text::trimmed_end(head + tail), t),
{
    text::lemma_middle_part(head, tail, Seq::empty());
    assert(head + tail + Seq::<char>::empty() =~= head + tail);
    text::lemma_part_of_part(head + tail, tail, t);
    text::lemma_trimming_keeps(head + tail, t);
}

/// The line that points to the text kept on disk, where there is one.
pub open spec fn hint_line(hint: Option<Seq<char>>) -> Seq<char> {
    match hint {
        Some(h) => "  "@ + h + "\n"@,
        None => Seq::empty(),
    }
}

/// A report that ends with the line that points to the text kept on disk, trimmed
/// at its end, shows the pointer.
pub proof fn lemma_hint_is_shown(head: Seq<char>, hint: Seq<char>)
    ensures
        text::has_text(
            text::trimmed_end(head + hint_line(Some(hint))),
            text::trimmed_end(hint),
        ),
{
    let t = text::trimmed_end(hint);
    let rest = hint.skip(t.len() as int);
    text::lemma_trimmed_end(hint);
    assert(hint_line(Some(hint)) =~= "  "@ + t + (rest + "\n"@));
    text::lemma_middle_part("  "@, t, rest + "\n"@);
    lemma_ending_is_shown(head, hint_line(Some(hint)), t);
}

/// Appends the line that points to the text kept on disk.
pub fn push_hint_line(out: &mut String, hint: Option<&str>)
    ensures
        final(out)@ == old(out)@ + hint_line(text::opt_str(hint)),
{
    let ghost before = out@;
    match hint {
        Some(h) => {
            out.append("  ");
            out.append(h);
            out.append("\n");
            assert(out@ =~= before + ("  "@ + h@ + "\n"@));
        },
        None => {
            assert(out@ =~= before + Seq::<char>::empty());
        },
    }
}

/// A report made of a heading, rows and an ending, trimmed at its end, falls into two
/// parts of which the first shows what an earlier row holds and the second what a
/// later row holds.
pub proof fn lemma_rows_keep_their_order<A>(
    head: Seq<char>,
    entries: Seq<A>,
    f: spec_fn(A) -> Seq<char>,
    tail: Seq<char>,
    i: int,
    j: int,
    t: Seq<char>,
    u: Seq<char>,
) -> (r: (Seq<char>, Seq<char>))
    requires
        0 <= i < j < entries.len(),
        text::has_text(f(entries[i]), t),
        text::has_text(f(entries[j]), u),
        u.len() > 0,
        !text::is_white(u.last()),
    ensures
        r.0 + r.1 == text::trimmed_end(head + entries.flat_map(f) + tail),
        text::has_text(r.0, t),
        text::has_text(r.1, u),
{
    let first = entries.take(j);
    let last = entries.skip(j);
    let before = head + first.flat_map(f);
    let rest = last.flat_map(f) + tail;
    let whole = head + entries.flat_map(f) + tail;
    lemma_rows_in_two_parts(entries, f, j);
    assert(whole =~= before + rest);
    assert(first[i] == entries[i] && last[0] == entries[j]);
    lemma_row_in_block(head, first, f, Seq::empty(), i);
    assert(before + Seq::<char>::empty() =~= before);
    text::lemma_part_of_part(before, f(first[i]), t);
    lemma_row_in_block(Seq::empty(), last, f, tail, 0);
    assert(Seq::<char>::empty() + last.flat_map(f) + tail =~= rest);
    text::lemma_part_of_part(rest, f(last[0]), u);
    let after = text::trimmed_end(rest);
    text::lemma_trimming_keeps(rest, u);
    text::lemma_trimmed_end(rest);
    assert(after.len() > 0) by {
        let k = choose|k: int| text::occurs_at(after, u, k);
        assert(0 <= k <= after.len() - u.len());
    }
    let white = rest.skip(after.len() as int);
    assert(rest =~= after + white);
    text::only_outer_characters_are_dropped(white, before + after, text::whites());
    assert((before + after).last() == after.last());
    assert(before + after + white =~= whole);
    (before, after)
}

/// The rows of a sequence are those of its first part and then those of the rest.
proof fn lemma_rows_in_two_parts<A>(entries: Seq<A>, f: spec_fn(A) -> Seq<char>, j: int)
    requires
        0 <= j <= entries.len(),
    ensures
        entries.flat_map(f) == entries.take(j).flat_map(f) + entries.skip(j).flat_map(f),
    decreases entries.len() - j,
{
    if j == entries.len() {
        seqs::lemma_rows_none(entries, f);
        assert(entries.skip(j) =~= entries.take(0));
        seqs::lemma_take_all(entries);
        assert(entries.flat_map(f) + Seq::<char>::empty() =~= entries.flat_map(f));
    } else {
        lemma_rows_in_two_parts(entries, f, j + 1);
        seqs::lemma_rows_step(entries, f, j);
        let rest = entries.skip(j);
        lemma_first_row(rest, f);
        assert(rest.skip(1) =~= entries.skip(j + 1));
        assert(entries.take(j).flat_map(f) + (f(entries[j]) + entries.skip(j + 1).flat_map(f))
            =~= entries.take(j).flat_map(f) + f(entries[j]) + entries.skip(j + 1).flat_map(f));
    }
}

/// The rows of a sequence begin with the row of its first entry.
proof fn lemma_first_row<A>(entries: Seq<A>, f: spec_fn(A) -> Seq<char>)
    requires
        entries.len() > 0,
    ensures
        entries.flat_map(f) == f(entries[0]) + entries.skip(1).flat_map(f),
    decreases entries.len(),
{
    let k = entries.len() - 1;
    let t = entries.take(k);
    seqs::lemma_rows_step(entries, f, k);
    seqs::lemma_take_all(entries);
    if k == 0 {
        seqs::lemma_rows_none(entries, f);
        assert(entries.skip(1) =~= entries.take(0));
        assert(entries.flat_map(f) =~= f(entries[0]) + entries.skip(1).flat_map(f));
    } else {
        let rest = entries.skip(1);
        lemma_first_row(t, f);
        seqs::lemma_rows_step(rest, f, k - 1);
        seqs::lemma_take_all(rest);
        assert(rest.take(k - 1) =~= t.skip(1));
        assert(rest[k - 1] == entries[k]);
        assert(f(entries[0]) + t.skip(1).flat_map(f) + f(entries[k]) =~= f(entries[0]) + (t.skip(
            1,
        ).flat_map(f) + f(entries[k])));
    }
}

/// A line of double strokes stands under a heading; one thing goes without the ending
/// of the plural, and a pointer stands in a row of its own.
pub proof fn shared_parts_are_written_so(n: nat, hint: Seq<char>)
    ensures
        plural(n) == if n == 1 {
            Seq::empty()
        } else {
            seq!['s']
        },
        rule_line().last() == '\n',
        forall|i: int| 0 <= i < rule_line().len() - 1 ==> #[trigger] rule_line()[i] == '═',
        rule_line().len() == 40,
        hint_line(Some(hint)) == seq![' ', ' '] + hint + seq!['\n'],
        hint_line(None).len() == 0,
{
    reveal_strlit("");
    reveal_strlit("s");
    reveal_strlit("  ");
    reveal_strlit("\n");
    reveal_strlit("═══════════════════════════════════════\n");
    assert(plural(n) =~= if n == 1 {
        Seq::empty()
    } else {
        seq!['s']
    });
    assert(hint_line(Some(hint)) =~= seq![' ', ' '] + hint + seq!['\n']);
}

/// A request to keep a text is seen with the texts of its fields.
pub proof fn requests_are_seen_as_they_are(t: TeeRequest)
    ensures
        t@ == (TeeView { content: t.content@, slug: t.slug@, from_line: t.from_line as nat }),
        tee_view(Some(t)) == Some(t@),
        tee_view(None) is None,
{
}

} // verus!
