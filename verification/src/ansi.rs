//! Removing terminal escape sequences.

use crate::lines;
use crate::text;
use vstd::prelude::*;

verus! {

/// A character that may stand in the parameters of an escape sequence.
pub open spec fn is_param(c: char) -> bool {
    ('0' <= c && c <= '9') || c == ';'
}

/// A character that ends an escape sequence.
pub open spec fn is_letter(c: char) -> bool {
    ('a' <= c && c <= 'z') || ('A' <= c && c <= 'Z')
}

/// How many parameter characters a text begins with.
pub open spec fn params_len(s: Seq<char>) -> nat
    decreases s.len(),
{
    if s.len() == 0 || !is_param(s[0]) {
        0
    } else {
        1 + params_len(s.skip(1))
    }
}

/// The length of the escape sequence that a text begins with (escape, `[`,
/// parameters, a letter); zero where it begins with none.
pub open spec fn escape_len(s: Seq<char>) -> nat {
    if s.len() >= 2 && s[0] == '\u{1b}' && s[1] == '[' {
        let k = 2 + params_len(s.skip(2));
        if k < s.len() && is_letter(s[k as int]) {
            k + 1
        } else {
            0
        }
    } else {
        0
    }
}

/// The text without its escape sequences.
pub open spec fn without_escapes(s: Seq<char>) -> Seq<char>
    decreases s.len(),
{
    if s.len() == 0 {
        s
    } else if escape_len(s) > 0 {
        without_escapes(s.skip(escape_len(s) as int))
    } else {
        seq![s[0]] + without_escapes(s.skip(1))
    }
}

proof fn lemma_params_len(s: Seq<char>, k: int)
    requires
        0 <= k <= s.len(),
        forall|j: int| 0 <= j < k ==> is_param(s[j]),
        k < s.len() ==> !is_param(s[k]),
    ensures
        params_len(s) == k,
    decreases s.len(),
{
    if k > 0 {
        assert forall|j: int| 0 <= j < k - 1 implies is_param(s.skip(1)[j]) by {
            assert(s.skip(1)[j] == s[j + 1]);
        }
        lemma_params_len(s.skip(1), k - 1);
    }
}

/// The length of the escape sequence at a position.
fn escape_at(cs: &Vec<char>, at: usize) -> (r: usize)
    requires
        at < cs@.len(),
    ensures
        r == escape_len(cs@.skip(at as int)),
        at + r <= cs@.len(),
{
    let n: usize = cs.len();
    let ghost rest = cs@.skip(at as int);
    if n - at < 2 || cs[at] != '\u{1b}' || cs[at + 1] != '[' {
        return 0;
    }
    let mut k: usize = at + 2;
    while k < n && (('0' <= cs[k] && cs[k] <= '9') || cs[k] == ';')
        invariant
            n == cs@.len(),
            at + 2 <= k <= n,
            forall|j: int| at + 2 <= j < k ==> is_param(cs@[j]),
        decreases n - k,
    {
        k += 1;
    }
    proof {
        assert(rest.skip(2) =~= cs@.skip(at + 2));
        lemma_params_len(rest.skip(2), k - at - 2);
    }
    if k < n && (('a' <= cs[k] && cs[k] <= 'z') || ('A' <= cs[k] && cs[k] <= 'Z')) {
        k + 1 - at
    } else {
        0
    }
}

/// Removes the escape sequences of a text.
pub fn strip_ansi(s: &str) -> (r: String)
    ensures
        r@ == without_escapes(s@),
{
    let cs = text::chars(s);
    let n: usize = cs.len();
    let mut out = String::new();
    let mut at: usize = 0;
    proof {
        assert(cs@.skip(0) =~= cs@);
        assert(out@ + without_escapes(cs@) =~= without_escapes(cs@));
    }
    while at < n
        invariant
            n == cs@.len(),
            cs@ == s@,
            at <= n,
            without_escapes(s@) == out@ + without_escapes(cs@.skip(at as int)),
        decreases n - at,
    {
        let ghost rest = cs@.skip(at as int);
        let ghost done = out@;
        let k: usize = escape_at(&cs, at);
        if k > 0 {
            assert(rest.skip(k as int) =~= cs@.skip(at + k));
            at += k;
        } else {
            out.push(cs[at]);
            proof {
                assert(rest.skip(1) =~= cs@.skip(at + 1));
                assert(out@ + without_escapes(cs@.skip(at + 1)) =~= done + (seq![rest[0]]
                    + without_escapes(rest.skip(1))));
            }
            at += 1;
        }
    }
    proof {
        assert(cs@.skip(n as int).len() == 0);
        assert(out@ + without_escapes(cs@.skip(n as int)) =~= out@);
    }
    out
}

/// Every escape character begins an escape sequence.
pub open spec fn well_escaped(s: Seq<char>) -> bool {
    forall|i: int| 0 <= i < s.len() && #[trigger] s[i] == '\u{1b}' ==> escape_len(s.skip(i)) > 0
}

/// Anything but the escape character, as a predicate.
pub open spec fn plains() -> spec_fn(char) -> bool {
    |c: char| c != '\u{1b}'
}

/// The parameters that a text begins with lie within it.
proof fn lemma_params_bound(s: Seq<char>)
    ensures
        params_len(s) <= s.len(),
    decreases s.len(),
{
    if s.len() > 0 {
        lemma_params_bound(s.skip(1));
    }
}

/// A text in which every escape character begins an escape sequence has no escape
/// character left without its escape sequences.
pub proof fn no_escape_is_left(s: Seq<char>)
    requires
        well_escaped(s),
    ensures
        text::every(without_escapes(s), plains()),
    decreases s.len(),
{
    if s.len() > 0 {
        let k = if escape_len(s) > 0 {
            escape_len(s) as int
        } else {
            1
        };
        let rest = s.skip(k);
        if s.len() >= 2 {
            lemma_params_bound(s.skip(2));
        }
        assert(well_escaped(rest)) by {
            assert forall|i: int| 0 <= i < rest.len() && #[trigger] rest[i]
                == '\u{1b}' implies escape_len(rest.skip(i)) > 0 by {
                assert(s[i + k] == '\u{1b}');
                assert(rest.skip(i) =~= s.skip(i + k));
            }
        }
        no_escape_is_left(rest);
        if escape_len(s) == 0 {
            assert(s.skip(0) =~= s);
            assert(s[0] != '\u{1b}');
            assert forall|i: int| 0 <= i < without_escapes(s).len() implies plains()(
                #[trigger] without_escapes(s)[i],
            ) by {
                if i > 0 {
                    assert(without_escapes(s)[i] == without_escapes(rest)[i - 1]);
                }
            }
        }
    }
}

/// A text without escape characters stays as it is.
pub proof fn plain_text_stays(s: Seq<char>)
    requires
        text::every(s, plains()),
    ensures
        without_escapes(s) == s,
    decreases s.len(),
{
    if s.len() > 0 {
        let rest = s.skip(1);
        assert(plains()(s[0]));
        assert forall|i: int| 0 <= i < rest.len() implies plains()(#[trigger] rest[i]) by {
            assert(rest[i] == s[i + 1]);
        }
        plain_text_stays(rest);
        assert(seq![s[0]] + rest =~= s);
    }
}

/// A line feed ends the parameters that stand before it.
proof fn lemma_params_before_feed(a: Seq<char>, b: Seq<char>)
    ensures
        params_len(a + "\n"@ + b) == params_len(a),
    decreases a.len(),
{
    let s = a + "\n"@ + b;
    reveal_strlit("\n");
    if a.len() == 0 {
        assert(s[0] == '\n');
    } else {
        assert(s[0] == a[0]);
        assert(s.skip(1) =~= a.skip(1) + "\n"@ + b);
        lemma_params_before_feed(a.skip(1), b);
    }
}

/// No escape sequence goes over the end of a line.
proof fn lemma_escape_before_feed(a: Seq<char>, b: Seq<char>)
    requires
        a.len() > 0,
    ensures
        escape_len(a + "\n"@ + b) == escape_len(a),
        escape_len(a) <= a.len(),
{
    let s = a + "\n"@ + b;
    reveal_strlit("\n");
    assert(s[0] == a[0]);
    if a.len() == 1 {
        assert(s[1] == '\n');
    } else {
        assert(s[1] == a[1]);
        assert(s.skip(2) =~= a.skip(2) + "\n"@ + b);
        lemma_params_before_feed(a.skip(2), b);
        lemma_params_bound(a.skip(2));
        let k = 2 + params_len(a.skip(2));
        if k < a.len() {
            assert(s[k as int] == a[k as int]);
        } else {
            assert(s[k as int] == '\n');
        }
    }
}

/// Two texts with a line feed between them lose their escape sequences each for
/// itself.
pub proof fn texts_in_a_row_are_stripped_apart(a: Seq<char>, b: Seq<char>)
    ensures
        without_escapes(a + "\n"@ + b) == without_escapes(a) + "\n"@ + without_escapes(b),
    decreases a.len(),
{
    let s = a + "\n"@ + b;
    reveal_strlit("\n");
    if a.len() == 0 {
        assert(s[0] == '\n');
        assert(s.skip(1) =~= b);
        assert(seq!['\n'] =~= "\n"@);
        assert(without_escapes(a) + "\n"@ + without_escapes(b) =~= "\n"@ + without_escapes(b));
    } else {
        lemma_escape_before_feed(a, b);
        let k = if escape_len(a) > 0 {
            escape_len(a) as int
        } else {
            1
        };
        assert(s[0] == a[0]);
        assert(s.skip(k) =~= a.skip(k) + "\n"@ + b);
        texts_in_a_row_are_stripped_apart(a.skip(k), b);
        if escape_len(a) == 0 {
            let rest = without_escapes(a.skip(1));
            assert(seq![a[0]] + (rest + "\n"@ + without_escapes(b)) =~= seq![a[0]] + rest + "\n"@
                + without_escapes(b));
        }
    }
}

/// Lines that were put into a text are still lines put into it without the escape
/// sequences.
pub proof fn lemma_inserted_lines_stripped(plain: Seq<char>, noise: Seq<char>, noisy: Seq<char>)
    requires
        lines::lines_inserted(plain, noise, noisy),
    ensures
        lines::lines_inserted(
            without_escapes(plain),
            without_escapes(noise),
            without_escapes(noisy),
        ),
{
    if noisy == noise + "\n"@ + plain {
        texts_in_a_row_are_stripped_apart(noise, plain);
    } else if noisy == plain + "\n"@ + noise {
        texts_in_a_row_are_stripped_apart(plain, noise);
    } else {
        let (before, after) = choose|before: Seq<char>, after: Seq<char>| #[trigger]
            lines::split_at_feed(plain, before, after) && noisy == before + "\n"@ + noise
                + "\n"@ + after;
        texts_in_a_row_are_stripped_apart(before + "\n"@ + noise, after);
        texts_in_a_row_are_stripped_apart(before, noise);
        texts_in_a_row_are_stripped_apart(before, after);
        assert(lines::split_at_feed(
            without_escapes(plain),
            without_escapes(before),
            without_escapes(after),
        ));
    }
}

/// An escape character, an opening bracket, digits and semicolons, and a letter are
/// removed together; what stands before and after them stays.
pub proof fn escape_sequences_are_removed(
    before: Seq<char>,
    params: Seq<char>,
    letter: char,
    after: Seq<char>,
)
    requires
        !before.contains('\u{1b}'),
        forall|i: int|
            0 <= i < params.len() ==> ('0' <= #[trigger] params[i] && params[i] <= '9') || params[i]
                == ';',
        ('a' <= letter && letter <= 'z') || ('A' <= letter && letter <= 'Z'),
    ensures
        without_escapes(before + (seq!['\u{1b}', '['] + params).push(letter) + after) == before
            + without_escapes(after),
    decreases before.len(),
{
    let code = (seq!['\u{1b}', '['] + params).push(letter);
    let s = before + code + after;
    if before.len() == 0 {
        let n = params.len() as int;
        let rest = s.skip(2);
        assert(s =~= code + after);
        assert(rest =~= params.push(letter) + after);
        assert forall|j: int| 0 <= j < n implies is_param(rest[j]) by {
            assert(rest[j] == params[j]);
        }
        assert(rest[n] == letter);
        lemma_params_len(rest, n);
        assert(s[0] == '\u{1b}' && s[1] == '[' && s[n + 2] == letter);
        assert(escape_len(s) == n + 3);
        assert(s.skip(n + 3) =~= after);
        assert(before + without_escapes(after) =~= without_escapes(after));
    } else {
        let rest = before.skip(1);
        assert(before[0] != '\u{1b}');
        assert(s[0] == before[0]);
        assert(s.skip(1) =~= rest + code + after);
        assert(!rest.contains('\u{1b}')) by {
            if rest.contains('\u{1b}') {
                let k = rest.index_of('\u{1b}');
                assert(rest[k] == before[k + 1]);
            }
        }
        escape_sequences_are_removed(rest, params, letter, after);
        assert(seq![before[0]] + (rest + without_escapes(after)) =~= before + without_escapes(
            after,
        ));
    }
}

/// An escape character that begins no such sequence stays, like any other character.
pub proof fn other_characters_stay(s: Seq<char>)
    requires
        s.len() > 0,
        forall|k: int|
            2 <= k < s.len() && s[0] == '\u{1b}' && s[1] == '[' && (forall|j: int|
                2 <= j < k ==> ('0' <= #[trigger] s[j] && s[j] <= '9') || s[j] == ';') ==> !(('a'
                <= #[trigger] s[k] && s[k] <= 'z') || ('A' <= s[k] && s[k] <= 'Z')),
    ensures
        without_escapes(s) == seq![s[0]] + without_escapes(s.skip(1)),
{
    if escape_len(s) > 0 {
        let n = params_len(s.skip(2)) as int;
        lemma_params_are_params(s.skip(2));
        assert forall|j: int| 2 <= j < n + 2 implies ('0' <= #[trigger] s[j] && s[j] <= '9') || s[j]
            == ';' by {
            assert(s.skip(2)[j - 2] == s[j]);
        }
        assert(is_letter(s[n + 2]));
    }
}

/// Nothing but parameter characters is counted as parameters.
proof fn lemma_params_are_params(s: Seq<char>)
    ensures
        params_len(s) <= s.len(),
        forall|j: int| 0 <= j < params_len(s) ==> is_param(#[trigger] s[j]),
    decreases s.len(),
{
    if s.len() > 0 && is_param(s[0]) {
        let rest = s.skip(1);
        lemma_params_are_params(rest);
        assert forall|j: int| 0 <= j < params_len(s) implies is_param(#[trigger] s[j]) by {
            if j > 0 {
                assert(rest[j - 1] == s[j]);
            }
        }
    }
}

} // verus!
