//! Splitting a text into lines and into words.

use crate::seqs;
use crate::text;
use vstd::prelude::*;

verus! {

/// A line without the carriage return that ends it.
pub open spec fn without_return(s: Seq<char>) -> Seq<char> {
    if s.len() > 0 && s.last() == '\r' {
        s.drop_last()
    } else {
        s
    }
}

/// The lines of a text. A line ends with a line feed, or with a carriage return
/// and a line feed, which are not part of it; the last line may lack its ending.
pub open spec fn lines_of(s: Seq<char>) -> Seq<Seq<char>>
    decreases s.len(),
{
    let k = text::first_index(s, '\n') as int;
    if s.len() == 0 {
        Seq::empty()
    } else if k >= s.len() {
        seq![s]
    } else {
        seq![without_return(s.take(k))] + lines_of(s.skip(k + 1))
    }
}

/// Splits a text into its lines.
pub fn lines(s: &str) -> (r: Vec<String>)
    ensures
        text::texts(r@) == lines_of(s@),
{
    let cs = text::chars(s);
    let mut out: Vec<String> = Vec::new();
    let mut at: usize = 0;
    let n: usize = cs.len();
    assert(cs@.skip(0) =~= cs@);
    assert(text::texts(out@) + lines_of(cs@) =~= lines_of(cs@));
    while at < n
        invariant
            n == cs@.len(),
            cs@ == s@,
            at <= n,
            lines_of(s@) == text::texts(out@) + lines_of(cs@.skip(at as int)),
        decreases n - at,
    {
        let ghost rest = cs@.skip(at as int);
        let ghost done = text::texts(out@);
        let k: usize = text::find_char(&cs, at, '\n');
        if k == n {
            let line = text::slice(&cs, at, n);
            out.push(line);
            proof {
                assert(line@ =~= rest);
                assert(text::texts(out@) =~= done.push(rest));
                assert(lines_of(rest) =~= seq![rest]);
                assert(cs@.skip(n as int).len() == 0);
                assert(lines_of(cs@.skip(n as int)) =~= Seq::empty());
                assert(text::texts(out@) + lines_of(cs@.skip(n as int)) =~= done + seq![rest]);
            }
            at = n;
        } else {
            let end: usize = if k > at && cs[k - 1] == '\r' {
                k - 1
            } else {
                k
            };
            let line = text::slice(&cs, at, end);
            out.push(line);
            proof {
                let f = text::first_index(rest, '\n') as int;
                assert(f == k - at);
                if k > at {
                    assert(rest.take(f).last() == cs@[k - 1]);
                }
                assert(line@ =~= without_return(rest.take(f)));
                assert(rest.skip(f + 1) =~= cs@.skip(k + 1));
                assert(text::texts(out@) =~= done.push(line@));
                assert(text::texts(out@) + lines_of(cs@.skip(k + 1)) =~= done + (seq![line@]
                    + lines_of(cs@.skip(k + 1))));
            }
            at = k + 1;
        }
    }
    proof {
        assert(cs@.skip(n as int).len() == 0);
        assert(text::texts(out@) + lines_of(cs@.skip(n as int)) =~= text::texts(out@));
    }
    out
}

/// The lines of a text without the white space around them; blank lines are
/// left out.
pub open spec fn content_lines_of(s: Seq<char>) -> Seq<Seq<char>> {
    lines_of(s).map_values(|l: Seq<char>| text::trimmed(l)).filter(|l: Seq<char>| l.len() > 0)
}

/// Splits a text into its trimmed lines, without the blank ones.
pub fn content_lines(s: &str) -> (r: Vec<String>)
    ensures
        text::texts(r@) == content_lines_of(s@),
{
    let all = lines(s);
    let mut out: Vec<String> = Vec::new();
    let ghost trims = lines_of(s@).map_values(|l: Seq<char>| text::trimmed(l));
    let ghost full = |l: Seq<char>| l.len() > 0;
    proof {
        seqs::lemma_filter_none(trims, full);
    }
    for i in 0..all.len()
        invariant
            text::texts(all@) == lines_of(s@),
            trims == lines_of(s@).map_values(|l: Seq<char>| text::trimmed(l)),
            full == (|l: Seq<char>| l.len() > 0),
            text::texts(out@) == trims.take(i as int).filter(full),
    {
        let ghost done = text::texts(out@);
        let t = text::trim(all[i].as_str());
        proof {
            assert(text::texts(all@)[i as int] == all@[i as int]@);
            assert(trims[i as int] == t@);
            seqs::lemma_filter_step(trims, full, i as int);
        }
        if !t.as_str().is_empty() {
            out.push(t);
            assert(text::texts(out@) =~= done.push(t@));
        }
    }
    proof {
        seqs::lemma_take_all(trims);
    }
    out
}

/// The lines of a text are made of its characters.
proof fn lemma_line_chars(s: Seq<char>, p: spec_fn(char) -> bool)
    requires
        text::every(s, p),
    ensures
        forall|i: int| 0 <= i < lines_of(s).len() ==> text::every(#[trigger] lines_of(s)[i], p),
    decreases s.len(),
{
    let k = text::first_index(s, '\n') as int;
    text::lemma_first_index(s, '\n');
    if s.len() > 0 && k < s.len() {
        let rest = s.skip(k + 1);
        assert(text::every(rest, p)) by {
            assert forall|j: int| 0 <= j < rest.len() implies p(#[trigger] rest[j]) by {
                assert(rest[j] == s[j + k + 1]);
            }
        }
        lemma_line_chars(rest, p);
        let line = without_return(s.take(k));
        assert(text::every(line, p)) by {
            assert forall|j: int| 0 <= j < line.len() implies p(#[trigger] line[j]) by {
                assert(line[j] == s[j]);
            }
        }
        assert forall|i: int| 0 <= i < lines_of(s).len() implies text::every(
            #[trigger] lines_of(s)[i],
            p,
        ) by {
            if i > 0 {
                assert(lines_of(s)[i] == lines_of(rest)[i - 1]);
            }
        }
    }
}

/// The trimmed lines of a text are made of its characters; none is empty, and none
/// begins or ends with white space.
pub proof fn lemma_content_chars(s: Seq<char>, p: spec_fn(char) -> bool)
    requires
        text::every(s, p),
    ensures
        forall|i: int|
            0 <= i < content_lines_of(s).len() ==> {
                let l = #[trigger] content_lines_of(s)[i];
                text::every(l, p) && l.len() > 0 && !text::is_white(l[0]) && !text::is_white(
                    l.last(),
                )
            },
{
    let trims = lines_of(s).map_values(|l: Seq<char>| text::trimmed(l));
    let full = |l: Seq<char>| l.len() > 0;
    let kept = content_lines_of(s);
    lemma_line_chars(s, p);
    assert forall|i: int| 0 <= i < kept.len() implies ({
        let l = #[trigger] kept[i];
        text::every(l, p) && l.len() > 0 && !text::is_white(l[0]) && !text::is_white(l.last())
    }) by {
        trims.lemma_filter_pred(full, i);
        assert(kept.contains(kept[i]));
        trims.lemma_filter_contains_rev(full, kept[i]);
        let j = trims.index_of(kept[i]);
        text::lemma_trimmed_chars(lines_of(s)[j], p);
    }
}

/// A text of nothing but white space has no trimmed lines.
pub proof fn blank_text_has_no_content(s: Seq<char>)
    requires
        text::every(s, text::whites()),
    ensures
        content_lines_of(s).len() == 0,
        object_lines_of(s).len() == 0,
{
    lemma_content_chars(s, text::whites());
    if content_lines_of(s).len() > 0 {
        let l = content_lines_of(s)[0];
        assert(text::whites()(l[0]));
    }
    content_lines_of(s).lemma_filter_len(|l: Seq<char>| opens_object(l));
}

/// Whether a text begins with an opening brace.
pub open spec fn opens_object(l: Seq<char>) -> bool {
    l.len() > 0 && l[0] == '{'
}

/// The trimmed lines of a text that may hold a JSON object: those that begin with
/// an opening brace.
pub open spec fn object_lines_of(s: Seq<char>) -> Seq<Seq<char>> {
    content_lines_of(s).filter(|l: Seq<char>| opens_object(l))
}

/// Splits off the lines of a text that may hold a JSON object.
pub fn object_lines(s: &str) -> (r: Vec<String>)
    ensures
        text::texts(r@) == object_lines_of(s@),
{
    let all = content_lines(s);
    let mut out: Vec<String> = Vec::new();
    let ghost ls = text::texts(all@);
    let ghost p = |l: Seq<char>| opens_object(l);
    proof {
        seqs::lemma_filter_none(ls, p);
    }
    for i in 0..all.len()
        invariant
            ls == text::texts(all@),
            p == (|l: Seq<char>| opens_object(l)),
            text::texts(out@) == ls.take(i as int).filter(p),
    {
        let ghost done = text::texts(out@);
        proof {
            seqs::lemma_filter_step(ls, p, i as int);
        }
        if text::starts_with_char(all[i].as_str(), '{') {
            let l = all[i].clone();
            out.push(l);
            assert(text::texts(out@) =~= done.push(l@));
        }
    }
    proof {
        seqs::lemma_take_all(ls);
    }
    out
}

/// How many characters come before the first white space.
pub open spec fn word_len(s: Seq<char>) -> nat
    decreases s.len(),
{
    if s.len() == 0 || text::is_white(s[0]) {
        0
    } else {
        1 + word_len(s.skip(1))
    }
}

/// A word lies within its text.
pub proof fn lemma_word_len_bound(s: Seq<char>)
    ensures
        word_len(s) <= s.len(),
    decreases s.len(),
{
    if s.len() > 0 {
        lemma_word_len_bound(s.skip(1));
    }
}

/// The maximal runs of characters that are not white space.
pub open spec fn words_of(s: Seq<char>) -> Seq<Seq<char>>
    decreases s.len(),
{
    if s.len() == 0 {
        Seq::empty()
    } else if text::is_white(s[0]) {
        words_of(s.skip(1))
    } else {
        proof {
            lemma_word_len_bound(s);
        }
        seq![s.take(word_len(s) as int)] + words_of(s.skip(word_len(s) as int))
    }
}

proof fn lemma_word_len(s: Seq<char>, k: int)
    requires
        0 <= k <= s.len(),
        forall|j: int| 0 <= j < k ==> !text::is_white(s[j]),
        k < s.len() ==> text::is_white(s[k]),
    ensures
        word_len(s) == k,
    decreases s.len(),
{
    if k > 0 {
        assert forall|j: int| 0 <= j < k - 1 implies !text::is_white(s.skip(1)[j]) by {
            assert(s.skip(1)[j] == s[j + 1]);
        }
        lemma_word_len(s.skip(1), k - 1);
    }
}

/// A word is not empty and holds no white space.
pub proof fn lemma_words(s: Seq<char>)
    ensures
        forall|i: int|
            0 <= i < words_of(s).len() ==> {
                let w = #[trigger] words_of(s)[i];
                w.len() > 0 && text::every(w, text::solids())
            },
    decreases s.len(),
{
    if s.len() > 0 {
        if text::is_white(s[0]) {
            lemma_words(s.skip(1));
            assert(words_of(s) == words_of(s.skip(1)));
        } else {
            let k = word_len(s) as int;
            lemma_word_len_bound(s);
            lemma_words(s.skip(k));
            lemma_word_chars(s);
            assert forall|i: int| 0 <= i < words_of(s).len() implies ({
                let w = #[trigger] words_of(s)[i];
                w.len() > 0 && text::every(w, text::solids())
            }) by {
                if i > 0 {
                    assert(words_of(s)[i] == words_of(s.skip(k))[i - 1]);
                } else {
                    assert(words_of(s)[0] == s.take(k));
                }
            }
        }
    } else {
        assert(words_of(s).len() == 0);
    }
}

/// No white space comes before the end of a word.
proof fn lemma_word_chars(s: Seq<char>)
    ensures
        word_len(s) <= s.len(),
        text::every(s.take(word_len(s) as int), text::solids()),
    decreases s.len(),
{
    let k = word_len(s) as int;
    lemma_word_len_bound(s);
    if k > 0 {
        let rest = s.skip(1);
        lemma_word_chars(rest);
        assert forall|i: int| 0 <= i < k implies !text::is_white(#[trigger] s.take(k)[i]) by {
            if i > 0 {
                assert(rest.take(k - 1)[i - 1] == s[i]);
            }
        }
    }
}

/// Splits a text into its words.
pub fn words(s: &str) -> (r: Vec<String>)
    ensures
        text::texts(r@) == words_of(s@),
{
    let cs = text::chars(s);
    let n: usize = cs.len();
    let mut out: Vec<String> = Vec::new();
    let mut at: usize = 0;
    assert(cs@.skip(0) =~= cs@);
    assert(text::texts(out@) + words_of(cs@) =~= words_of(cs@));
    while at < n
        invariant
            n == cs@.len(),
            cs@ == s@,
            at <= n,
            words_of(s@) == text::texts(out@) + words_of(cs@.skip(at as int)),
        decreases n - at,
    {
        let ghost rest = cs@.skip(at as int);
        let ghost done = text::texts(out@);
        if text::white(cs[at]) {
            assert(rest.skip(1) =~= cs@.skip(at + 1));
            at += 1;
        } else {
            let mut end: usize = at;
            while end < n && !text::white(cs[end])
                invariant
                    n == cs@.len(),
                    at <= end <= n,
                    forall|j: int| at <= j < end ==> !text::is_white(cs@[j]),
                decreases n - end,
            {
                end += 1;
            }
            let word = text::slice(&cs, at, end);
            proof {
                lemma_word_len(rest, end - at);
                assert(!text::is_white(rest[0]));
                assert(word@ =~= rest.take(end - at));
                assert(rest.skip(end - at) =~= cs@.skip(end as int));
            }
            out.push(word);
            proof {
                assert(text::texts(out@) =~= done.push(word@));
                assert(text::texts(out@) + words_of(cs@.skip(end as int)) =~= done + (seq![word@]
                    + words_of(cs@.skip(end as int))));
            }
            at = end;
        }
    }
    proof {
        assert(cs@.skip(n as int).len() == 0);
        assert(text::texts(out@) + words_of(cs@.skip(n as int)) =~= text::texts(out@));
    }
    out
}

// ---------------------------------------------------------------------------
// Texts put together of lines
// ---------------------------------------------------------------------------

/// The first line feed of a text that a line feed and another text follow.
proof fn lemma_first_feed(a: Seq<char>, b: Seq<char>)
    ensures
        text::first_index(a + "\n"@ + b, '\n') == text::first_index(a, '\n'),
{
    let s = a + "\n"@ + b;
    let i = text::first_index(s, '\n') as int;
    let k = text::first_index(a, '\n') as int;
    reveal_strlit("\n");
    text::lemma_first_index(s, '\n');
    text::lemma_first_index(a, '\n');
    assert(s[a.len() as int] == '\n');
    if k < a.len() {
        assert(s[k] == '\n');
    }
    if i < a.len() {
        assert(a[i] == '\n');
    }
    if i > k {
        assert(s[k] != '\n');
    }
}

/// Trimming a text takes away a carriage return at its end.
proof fn lemma_trimmed_return(s: Seq<char>)
    ensures
        text::trimmed(without_return(s)) == text::trimmed(s),
{
    if s.len() > 0 && s.last() == '\r' {
        lemma_trimmed_white_end(s);
    }
}

/// Trimming a text takes away white space at its end.
proof fn lemma_trimmed_white_end(s: Seq<char>)
    requires
        s.len() > 0,
        text::is_white(s.last()),
    ensures
        text::trimmed(s.drop_last()) == text::trimmed(s),
    decreases s.len(),
{
    let t = s.drop_last();
    if s.len() == 1 {
        assert(s.skip(1) =~= t);
        assert(text::drop_leading(s, text::whites()) == text::drop_leading(
            s.skip(1),
            text::whites(),
        ));
    } else if text::is_white(s[0]) {
        assert(s.skip(1).drop_last() =~= t.skip(1));
        assert(s.skip(1).last() == s.last());
        lemma_trimmed_white_end(s.skip(1));
    } else {
        assert(t[0] == s[0]);
    }
}

/// The trimmed lines of two texts with a line feed between them are those of the
/// one and then those of the other.
pub proof fn content_of_texts_in_a_row(a: Seq<char>, b: Seq<char>)
    ensures
        content_lines_of(a + "\n"@ + b) == content_lines_of(a) + content_lines_of(b),
        object_lines_of(a + "\n"@ + b) == object_lines_of(a) + object_lines_of(b),
{
    lemma_content_in_a_row(a, b);
    Seq::filter_distributes_over_add(
        content_lines_of(a),
        content_lines_of(b),
        |l: Seq<char>| opens_object(l),
    );
}

/// The trimmed line that a line gives, if any.
spec fn content_of_line(l: Seq<char>) -> Seq<Seq<char>> {
    seq![l].map_values(|l: Seq<char>| text::trimmed(l)).filter(|l: Seq<char>| l.len() > 0)
}

/// The trimmed lines of a line and of the lines after it.
proof fn lemma_content_split(first: Seq<char>, rest: Seq<Seq<char>>)
    ensures
        (seq![first] + rest).map_values(|l: Seq<char>| text::trimmed(l)).filter(
            |l: Seq<char>| l.len() > 0,
        ) == content_of_line(first) + rest.map_values(|l: Seq<char>| text::trimmed(l)).filter(
            |l: Seq<char>| l.len() > 0,
        ),
{
    let g = |l: Seq<char>| text::trimmed(l);
    let p = |l: Seq<char>| l.len() > 0;
    assert((seq![first] + rest).map_values(g) =~= seq![first].map_values(g) + rest.map_values(g));
    Seq::filter_distributes_over_add(seq![first].map_values(g), rest.map_values(g), p);
}

/// A carriage return at the end of a line makes no difference to its trimmed line,
/// and an empty line gives none.
proof fn lemma_content_of_line(l: Seq<char>)
    ensures
        content_of_line(without_return(l)) == content_of_line(l),
        l.len() == 0 ==> content_of_line(l).len() == 0,
{
    let g = |l: Seq<char>| text::trimmed(l);
    let p = |l: Seq<char>| l.len() > 0;
    lemma_trimmed_return(l);
    assert(seq![without_return(l)].map_values(g) =~= seq![l].map_values(g));
    if l.len() == 0 {
        let one = seq![l].map_values(g);
        if one.filter(p).len() > 0 {
            one.lemma_filter_pred(p, 0);
            assert(one.filter(p).contains(one.filter(p)[0]));
            one.lemma_filter_contains_rev(p, one.filter(p)[0]);
        }
    }
}

proof fn lemma_content_in_a_row(a: Seq<char>, b: Seq<char>)
    ensures
        content_lines_of(a + "\n"@ + b) == content_lines_of(a) + content_lines_of(b),
    decreases a.len(),
{
    let s = a + "\n"@ + b;
    let k = text::first_index(a, '\n') as int;
    let g = |l: Seq<char>| text::trimmed(l);
    let p = |l: Seq<char>| l.len() > 0;
    reveal_strlit("\n");
    text::lemma_first_index(a, '\n');
    lemma_first_feed(a, b);
    let line = without_return(s.take(k));
    assert(lines_of(s) == seq![line] + lines_of(s.skip(k + 1)));
    lemma_content_split(line, lines_of(s.skip(k + 1)));
    if k < a.len() {
        let rest = a.skip(k + 1);
        assert(s.take(k) =~= a.take(k));
        assert(s.skip(k + 1) =~= rest + "\n"@ + b);
        lemma_content_in_a_row(rest, b);
        lemma_content_split(line, lines_of(rest));
        assert(lines_of(a) == seq![line] + lines_of(rest));
        assert(content_of_line(line) + (content_lines_of(rest) + content_lines_of(b))
            =~= content_of_line(line) + content_lines_of(rest) + content_lines_of(b));
    } else {
        assert(s.take(k) =~= a);
        assert(s.skip(k + 1) =~= b);
        lemma_content_of_line(a);
        if a.len() == 0 {
            assert(lines_of(a) =~= Seq::empty());
            assert(lines_of(a).map_values(g) =~= Seq::empty());
            lines_of(a).map_values(g).lemma_filter_len(p);
            assert(content_lines_of(a) =~= Seq::empty());
            assert(content_of_line(a) =~= Seq::empty());
        } else {
            assert(lines_of(a) =~= seq![a]);
            assert(content_lines_of(a) == content_of_line(a));
        }
    }
}

/// `noisy` is `plain` with the lines of `noise` put in somewhere between its lines,
/// before the first or after the last.
pub open spec fn lines_inserted(plain: Seq<char>, noise: Seq<char>, noisy: Seq<char>) -> bool {
    ||| noisy == noise + "\n"@ + plain
    ||| noisy == plain + "\n"@ + noise
    ||| exists|before: Seq<char>, after: Seq<char>| #[trigger]
        split_at_feed(plain, before, after) && noisy == before + "\n"@ + noise + "\n"@ + after
}

/// A line feed stands between the two parts of a text.
pub open spec fn split_at_feed(s: Seq<char>, before: Seq<char>, after: Seq<char>) -> bool {
    s == before + "\n"@ + after
}

/// The trimmed lines of a text into which lines were put: what comes before them, the
/// lines themselves, and what comes after them.
pub proof fn lemma_content_inserted(plain: Seq<char>, noise: Seq<char>, noisy: Seq<char>) -> (r: (
    Seq<Seq<char>>,
    Seq<Seq<char>>,
))
    requires
        lines_inserted(plain, noise, noisy),
    ensures
        content_lines_of(plain) == r.0 + r.1,
        content_lines_of(noisy) == r.0 + content_lines_of(noise) + r.1,
{
    let none = Seq::<Seq<char>>::empty();
    let all = content_lines_of(plain);
    let between = content_lines_of(noise);
    if noisy == noise + "\n"@ + plain {
        content_of_texts_in_a_row(noise, plain);
        assert(none + all =~= all);
        assert(none + between + all =~= between + all);
        (none, all)
    } else if noisy == plain + "\n"@ + noise {
        content_of_texts_in_a_row(plain, noise);
        assert(all + none =~= all);
        assert(all + between + none =~= all + between);
        (all, none)
    } else {
        let (before, after) = choose|before: Seq<char>, after: Seq<char>| #[trigger]
            split_at_feed(plain, before, after) && noisy == before + "\n"@ + noise + "\n"@
                + after;
        content_of_texts_in_a_row(before + "\n"@ + noise, after);
        content_of_texts_in_a_row(before, noise);
        content_of_texts_in_a_row(before, after);
        (content_lines_of(before), content_lines_of(after))
    }
}

/// What may hold a JSON object in a text into which lines were put: what comes
/// before them, what is among them, and what comes after them.
pub proof fn lemma_lines_inserted(plain: Seq<char>, noise: Seq<char>, noisy: Seq<char>) -> (r: (
    Seq<Seq<char>>,
    Seq<Seq<char>>,
))
    requires
        lines_inserted(plain, noise, noisy),
    ensures
        object_lines_of(plain) == r.0 + r.1,
        object_lines_of(noisy) == r.0 + object_lines_of(noise) + r.1,
{
    let p = |l: Seq<char>| opens_object(l);
    let (before, after) = lemma_content_inserted(plain, noise, noisy);
    let between = content_lines_of(noise);
    Seq::filter_distributes_over_add(before, after, p);
    Seq::filter_distributes_over_add(before, between, p);
    Seq::filter_distributes_over_add(before + between, after, p);
    (before.filter(p), after.filter(p))
}

/// Lines of which none begins with an opening brace make no difference to the
/// lines that may hold a JSON object.
pub proof fn noise_lines_are_skipped(plain: Seq<char>, noise: Seq<char>, noisy: Seq<char>)
    requires
        lines_inserted(plain, noise, noisy),
        object_lines_of(noise).len() == 0,
    ensures
        object_lines_of(noisy) == object_lines_of(plain),
{
    let (before, after) = lemma_lines_inserted(plain, noise, noisy);
    assert(before + object_lines_of(noise) =~= before);
}

/// What may hold a JSON object in a single line: the trimmed line, where it begins
/// with an opening brace.
pub proof fn lemma_single_line(l: Seq<char>)
    requires
        text::first_index(l, '\n') == l.len(),
    ensures
        object_lines_of(l) == if opens_object(text::trimmed(l)) {
            seq![text::trimmed(l)]
        } else {
            Seq::empty()
        },
{
    let g = |l: Seq<char>| text::trimmed(l);
    let full = |l: Seq<char>| l.len() > 0;
    let opens = |l: Seq<char>| opens_object(l);
    if l.len() == 0 {
        assert(lines_of(l).map_values(g).filter(full).len() == 0) by {
            lines_of(l).map_values(g).lemma_filter_len(full);
        }
        content_lines_of(l).lemma_filter_len(opens);
        assert(text::trimmed(l).len() == 0);
        assert(object_lines_of(l) =~= Seq::empty());
    } else {
        let one = seq![text::trimmed(l)];
        assert(lines_of(l) =~= seq![l]);
        assert(lines_of(l).map_values(g) =~= one);
        lemma_filter_one(text::trimmed(l), full);
        lemma_filter_one(text::trimmed(l), opens);
        Seq::<Seq<char>>::empty().lemma_filter_len(opens);
        assert(Seq::<Seq<char>>::empty().filter(opens) =~= Seq::empty());
    }
}

proof fn lemma_filter_one(x: Seq<char>, p: spec_fn(Seq<char>) -> bool)
    ensures
        seq![x].filter(p) == if p(x) {
            seq![x]
        } else {
            Seq::empty()
        },
{
    seqs::lemma_filter_none(seq![x], p);
    seqs::lemma_filter_step(seq![x], p, 0);
    seqs::lemma_take_all(seq![x]);
    assert(Seq::<Seq<char>>::empty().push(x) =~= seq![x]);
}

// ---------------------------------------------------------------------------
// Laws
// ---------------------------------------------------------------------------

/// A line feed ends a line, with a carriage return before it or without one, and the
/// lines after it are those of the rest of the text. What no line feed ends is a line
/// as it stands, unless it is empty.
pub proof fn line_feeds_end_lines(l: Seq<char>, rest: Seq<char>)
    requires
        !l.contains('\n'),
    ensures
        l.len() == 0 || l.last() != '\r' ==> lines_of(l + seq!['\n'] + rest) == seq![l] + lines_of(
            rest,
        ),
        lines_of(l + seq!['\r', '\n'] + rest) == seq![l] + lines_of(rest),
        lines_of(l) == if l.len() == 0 {
            Seq::empty()
        } else {
            seq![l]
        },
{
    text::lemma_first_index(l, '\n');
    if l.len() == 0 || l.last() != '\r' {
        lemma_line_before_feed(l, rest);
    }
    let m = l.push('\r');
    assert(!m.contains('\n')) by {
        if m.contains('\n') {
            let k = m.index_of('\n');
            assert(m[k] == '\n');
            assert(l[k] == '\n');
        }
    }
    lemma_line_before_feed(m, rest);
    assert(m.drop_last() =~= l);
    assert(m + seq!['\n'] + rest =~= l + seq!['\r', '\n'] + rest);
    assert(lines_of(l) =~= if l.len() == 0 {
        Seq::empty()
    } else {
        seq![l]
    });
}

/// The lines of a text are what its first line feed ends, and the lines of the rest.
proof fn lemma_line_before_feed(l: Seq<char>, rest: Seq<char>)
    requires
        !l.contains('\n'),
    ensures
        lines_of(l + seq!['\n'] + rest) == seq![without_return(l)] + lines_of(rest),
{
    let s = l + seq!['\n'] + rest;
    let k = text::first_index(s, '\n') as int;
    text::lemma_first_index(s, '\n');
    assert(s[l.len() as int] == '\n');
    if k < l.len() {
        assert(l[k] == '\n');
    }
    assert(k == l.len());
    assert(s.take(k) =~= l);
    assert(s.skip(k + 1) =~= rest);
}

/// A line says what stands between the white space around it; a blank one says
/// nothing. It may hold a JSON object where an opening brace comes first.
pub proof fn a_line_is_trimmed(l: Seq<char>)
    requires
        !l.contains('\n'),
    ensures
        content_lines_of(l) == if text::trimmed(l).len() == 0 {
            Seq::empty()
        } else {
            seq![text::trimmed(l)]
        },
        object_lines_of(l) == if text::trimmed(l).len() > 0 && text::trimmed(l)[0] == '{' {
            seq![text::trimmed(l)]
        } else {
            Seq::empty()
        },
{
    let g = |l: Seq<char>| text::trimmed(l);
    let full = |l: Seq<char>| l.len() > 0;
    text::lemma_first_index(l, '\n');
    lemma_single_line(l);
    if l.len() == 0 {
        lines_of(l).map_values(g).lemma_filter_len(full);
        assert(content_lines_of(l) =~= Seq::empty());
    } else {
        assert(lines_of(l) =~= seq![l]);
        assert(lines_of(l).map_values(g) =~= seq![text::trimmed(l)]);
        lemma_filter_one(text::trimmed(l), full);
    }
}

/// Words are what white space parts: a text of no white space is one word, white
/// space alone is none, and the words on either side of white space are those of the
/// two sides.
pub proof fn white_space_parts_words(a: Seq<char>, c: char, b: Seq<char>)
    requires
        text::is_white(c),
    ensures
        words_of(a.push(c) + b) == words_of(a) + words_of(b),
        a.len() > 0 && (forall|i: int| 0 <= i < a.len() ==> !text::is_white(#[trigger] a[i]))
            ==> words_of(a) == seq![a],
        words_of(Seq::empty()).len() == 0,
{
    lemma_words_apart(a, c, b);
    if a.len() > 0 && (forall|i: int| 0 <= i < a.len() ==> !text::is_white(#[trigger] a[i])) {
        lemma_word_len(a, a.len() as int);
        assert(a.take(a.len() as int) =~= a);
        assert(a.skip(a.len() as int) =~= Seq::<char>::empty());
        assert(words_of(Seq::empty()) =~= Seq::empty());
        assert(!text::is_white(a[0]));
        assert(words_of(a) =~= seq![a]);
    }
}

/// The word that a text begins with ends where white space follows the text.
proof fn lemma_word_before_white(a: Seq<char>, c: char, b: Seq<char>)
    requires
        text::is_white(c),
    ensures
        word_len(a.push(c) + b) == word_len(a),
    decreases a.len(),
{
    let s = a.push(c) + b;
    if a.len() == 0 {
        assert(s[0] == c);
    } else {
        assert(s[0] == a[0]);
        assert(s.skip(1) =~= a.skip(1).push(c) + b);
        lemma_word_before_white(a.skip(1), c, b);
    }
}

/// White space parts the words before it from those after it.
proof fn lemma_words_apart(a: Seq<char>, c: char, b: Seq<char>)
    requires
        text::is_white(c),
    ensures
        words_of(a.push(c) + b) == words_of(a) + words_of(b),
    decreases a.len(),
{
    let s = a.push(c) + b;
    if a.len() == 0 {
        assert(s[0] == c);
        assert(s.skip(1) =~= b);
        assert(words_of(a) + words_of(b) =~= words_of(b));
    } else if text::is_white(a[0]) {
        assert(s[0] == a[0]);
        assert(s.skip(1) =~= a.skip(1).push(c) + b);
        lemma_words_apart(a.skip(1), c, b);
    } else {
        let k = word_len(a) as int;
        assert(s[0] == a[0]);
        lemma_word_before_white(a, c, b);
        lemma_word_len_bound(a);
        assert(s.take(k) =~= a.take(k));
        assert(s.skip(k) =~= a.skip(k).push(c) + b);
        lemma_words_apart(a.skip(k), c, b);
        assert(seq![a.take(k)] + (words_of(a.skip(k)) + words_of(b)) =~= seq![a.take(k)] + words_of(
            a.skip(k),
        ) + words_of(b));
    }
}

} // verus!
