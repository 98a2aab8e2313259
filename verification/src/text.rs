//! Text primitives. A text is modelled as the sequence of its characters, and
//! every function here is stated over that sequence.

use crate::seqs;
use vstd::prelude::*;

verus! {

// ---------------------------------------------------------------------------
// What the standard library contributes
// ---------------------------------------------------------------------------

/// `String::push` appends the given character to the end of the string.
pub assume_specification[ String::push ](s: &mut String, c: char)
    ensures
        final(s)@ == old(s)@.push(c),
;

/// The lowercase equivalent of a text, in Unicode's sense of lowercase.
pub uninterp spec fn lowercase(s: Seq<char>) -> Seq<char>;

/// `str::to_lowercase` maps a text to its Unicode lowercase, which depends on
/// the text alone; its result bears the name [`lowercase`]. Of that result one
/// fact is claimed: ASCII letters are lowered as ASCII lowers them, so a text
/// of ASCII characters becomes the text of their ASCII lowercase.
pub assume_specification[ str::to_lowercase ](s: &str) -> (r: String)
    ensures
        r@ == lowercase(s@),
        all_ascii(s@) ==> r@ == ascii_lowercase(s@),
;

/// Every character lies in the ASCII range.
pub open spec fn all_ascii(s: Seq<char>) -> bool {
    forall|i: int| 0 <= i < s.len() ==> s[i] <= '\u{7f}'
}

/// `A` to `Z` become `a` to `z`; other characters stay.
pub open spec fn ascii_lowercase(s: Seq<char>) -> Seq<char> {
    s.map_values(
        |c: char|
            if 'A' <= c && c <= 'Z' {
                (c as u32 + 32) as char
            } else {
                c
            },
    )
}

/// The lowercase of a text: letter by letter for a text of ASCII characters, in
/// Unicode's sense for any other.
pub open spec fn lowered(s: Seq<char>) -> Seq<char> {
    if all_ascii(s) {
        ascii_lowercase(s)
    } else {
        lowercase(s)
    }
}

// ---------------------------------------------------------------------------
// Sequences of texts
// ---------------------------------------------------------------------------

/// The texts that a sequence of strings holds.
pub open spec fn texts(v: Seq<String>) -> Seq<Seq<char>> {
    v.map_values(|s: String| s@)
}

/// The text that an optional string holds.
pub open spec fn opt_text(v: Option<String>) -> Option<Seq<char>> {
    match v {
        Some(s) => Some(s@),
        None => None,
    }
}

/// The text that an optional string slice holds.
pub open spec fn opt_str(v: Option<&str>) -> Option<Seq<char>> {
    match v {
        Some(s) => Some(s@),
        None => None,
    }
}

/// The parts one after the other, with `sep` between neighbours.
pub open spec fn joined(parts: Seq<Seq<char>>, sep: Seq<char>) -> Seq<char>
    decreases parts.len(),
{
    if parts.len() == 0 {
        Seq::empty()
    } else if parts.len() == 1 {
        parts[0]
    } else {
        joined(parts.drop_last(), sep) + sep + parts.last()
    }
}

/// Joins strings with a separator.
pub fn join(parts: &[String], sep: &str) -> (r: String)
    ensures
        r@ == joined(texts(parts@), sep@),
{
    let mut out = String::new();
    let n: usize = parts.len();
    let ghost all = texts(parts@);
    for i in 0..n
        invariant
            n == parts@.len(),
            all == texts(parts@),
            out@ == joined(all.take(i as int), sep@),
    {
        proof {
            assert(all.take(i + 1).drop_last() =~= all.take(i as int));
            assert(all.take(i + 1).last() == parts@[i as int]@);
        }
        if i > 0 {
            out.append(sep);
        }
        out.append(parts[i].as_str());
        proof {
            if i == 0 {
                assert(out@ =~= parts@[0]@);
            }
        }
    }
    proof {
        assert(all.take(n as int) =~= all);
    }
    out
}

/// Copies the strings of a slice.
pub fn copy_all(v: &[String]) -> (r: Vec<String>)
    ensures
        r@ == v@,
{
    let mut out: Vec<String> = Vec::new();
    let n: usize = v.len();
    for i in 0..n
        invariant
            n == v@.len(),
            out@ == v@.take(i as int),
    {
        out.push(v[i].clone());
        assert(v@.take(i + 1) =~= v@.take(i as int).push(v@[i as int]));
    }
    assert(v@.take(n as int) =~= v@);
    out
}

// ---------------------------------------------------------------------------
// Characters
// ---------------------------------------------------------------------------

/// Unicode's White_Space property.
pub open spec fn is_white(c: char) -> bool {
    ||| '\u{9}' <= c && c <= '\u{d}'
    ||| c == ' '
    ||| c == '\u{85}'
    ||| c == '\u{a0}'
    ||| c == '\u{1680}'
    ||| '\u{2000}' <= c && c <= '\u{200a}'
    ||| c == '\u{2028}'
    ||| c == '\u{2029}'
    ||| c == '\u{202f}'
    ||| c == '\u{205f}'
    ||| c == '\u{3000}'
}

/// Whether a character is white space.
pub fn white(c: char) -> (r: bool)
    ensures
        r == is_white(c),
{
    ('\u{9}' <= c && c <= '\u{d}') || c == ' ' || c == '\u{85}' || c == '\u{a0}' || c == '\u{1680}'
        || ('\u{2000}' <= c && c <= '\u{200a}') || c == '\u{2028}' || c == '\u{2029}' || c
        == '\u{202f}' || c == '\u{205f}' || c == '\u{3000}'
}

/// The characters of a text.
pub fn chars(s: &str) -> (r: Vec<char>)
    ensures
        r@ == s@,
{
    let mut out: Vec<char> = Vec::new();
    for c in it: s.chars()
        invariant
            it.seq() == s@,
            out@ == s@.take(it.index() as int),
    {
        out.push(c);
        assert(s@.take(it.index() + 1) =~= s@.take(it.index() as int).push(c));
    }
    assert(s@.take(s@.len() as int) =~= s@);
    out
}

/// The text made of the characters from position `from` up to `to`.
pub fn slice(cs: &Vec<char>, from: usize, to: usize) -> (r: String)
    requires
        from <= to <= cs@.len(),
    ensures
        r@ == cs@.subrange(from as int, to as int),
{
    let mut out = String::new();
    for i in from..to
        invariant
            from <= to <= cs@.len(),
            out@ == cs@.subrange(from as int, i as int),
    {
        out.push(cs[i]);
        assert(cs@.subrange(from as int, i + 1) =~= cs@.subrange(from as int, i as int).push(
            cs@[i as int],
        ));
    }
    out
}

// ---------------------------------------------------------------------------
// Comparing and searching
// ---------------------------------------------------------------------------

/// `p` stands in `s` at position `i`.
pub open spec fn occurs_at(s: Seq<char>, p: Seq<char>, i: int) -> bool {
    &&& 0 <= i <= s.len() - p.len()
    &&& s.subrange(i, i + p.len()) == p
}

/// `p` stands somewhere in `s`.
pub open spec fn has_text(s: Seq<char>, p: Seq<char>) -> bool {
    exists|i: int| occurs_at(s, p, i)
}

/// A part of a part of a text is a part of the text.
pub proof fn lemma_part_of_part(s: Seq<char>, t: Seq<char>, u: Seq<char>)
    requires
        has_text(s, t),
        has_text(t, u),
    ensures
        has_text(s, u),
{
    let i = choose|i: int| occurs_at(s, t, i);
    let j = choose|j: int| occurs_at(t, u, j);
    assert(s.subrange(i + j, i + j + u.len()) =~= s.subrange(i, i + t.len()).subrange(
        j,
        j + u.len(),
    ));
    assert(occurs_at(s, u, i + j));
}

/// A text put together of three parts has the middle one.
pub proof fn lemma_middle_part(a: Seq<char>, t: Seq<char>, b: Seq<char>)
    ensures
        has_text(a + t + b, t),
{
    let s = a + t + b;
    assert(s.subrange(a.len() as int, (a.len() + t.len()) as int) =~= t);
    assert(occurs_at(s, t, a.len() as int));
}

/// A part of a text is a part of anything that begins or ends with the text.
pub proof fn lemma_part_of_sum(a: Seq<char>, b: Seq<char>, t: Seq<char>)
    requires
        has_text(a, t) || has_text(b, t),
    ensures
        has_text(a + b, t),
{
    if has_text(a, t) {
        let i = choose|i: int| occurs_at(a, t, i);
        assert((a + b).subrange(i, i + t.len()) =~= a.subrange(i, i + t.len()));
        assert(occurs_at(a + b, t, i));
    } else {
        let i = choose|i: int| occurs_at(b, t, i);
        let k = a.len() + i;
        assert((a + b).subrange(k, k + t.len()) =~= b.subrange(i, i + t.len()));
        assert(occurs_at(a + b, t, k));
    }
}

fn matches_at(cs: &Vec<char>, ps: &Vec<char>, at: usize) -> (r: bool)
    requires
        at <= cs@.len(),
    ensures
        r == occurs_at(cs@, ps@, at as int),
{
    let n: usize = cs.len();
    if n - at < ps.len() {
        return false;
    }
    for k in 0..ps.len()
        invariant
            n == cs@.len(),
            at + ps@.len() <= n,
            forall|j: int| 0 <= j < k ==> cs@[at + j] == ps@[j],
    {
        if cs[at + k] != ps[k] {
            assert(cs@.subrange(at as int, at + ps@.len())[k as int] == cs@[at + k]);
            return false;
        }
    }
    assert(cs@.subrange(at as int, at + ps@.len()) =~= ps@);
    true
}

/// Whether `s` begins with `p`.
pub fn starts_with(s: &str, p: &str) -> (r: bool)
    ensures
        r == p@.is_prefix_of(s@),
{
    let cs = chars(s);
    let ps = chars(p);
    let r = matches_at(&cs, &ps, 0);
    r
}

/// Whether the first character of `s` is `c`.
pub fn starts_with_char(s: &str, c: char) -> (r: bool)
    ensures
        r == (s@.len() > 0 && s@[0] == c),
{
    let cs = chars(s);
    cs.len() > 0 && cs[0] == c
}

/// Whether `p` stands somewhere in `s`.
pub fn contains(s: &str, p: &str) -> (r: bool)
    ensures
        r == has_text(s@, p@),
{
    let cs = chars(s);
    let ps = chars(p);
    if ps.len() > cs.len() {
        return false;
    }
    let last: usize = cs.len() - ps.len();
    for i in 0..last
        invariant
            cs@ == s@,
            ps@ == p@,
            last <= cs@.len(),
            forall|j: int| 0 <= j < i ==> !occurs_at(s@, p@, j),
    {
        if matches_at(&cs, &ps, i) {
            return true;
        }
    }
    matches_at(&cs, &ps, last)
}

/// Whether two texts are equal.
pub fn same_text(a: &str, b: &str) -> (r: bool)
    ensures
        r == (a@ == b@),
{
    a.to_owned() == b.to_owned()
}

/// Whether a text is one of the strings of a slice.
pub fn holds(v: &[String], t: &str) -> (r: bool)
    ensures
        r == texts(v@).contains(t@),
{
    let n: usize = v.len();
    let sought = t.to_owned();
    for i in 0..n
        invariant
            n == v@.len(),
            sought@ == t@,
            forall|j: int| 0 <= j < i ==> texts(v@)[j] != t@,
    {
        if v[i] == sought {
            assert(texts(v@)[i as int] == t@);
            return true;
        }
    }
    false
}

/// The distinct texts of a vector, in the order in which they first occur.
pub fn distinct_texts(keys: &Vec<String>) -> (r: Vec<String>)
    ensures
        texts(r@) == seqs::distinct(texts(keys@)),
{
    let mut out: Vec<String> = Vec::new();
    let ghost all = texts(keys@);
    assert(texts(out@) =~= seqs::distinct(all.take(0)));
    for i in 0..keys.len()
        invariant
            all == texts(keys@),
            texts(out@) == seqs::distinct(all.take(i as int)),
    {
        let ghost done = texts(out@);
        proof {
            seqs::lemma_distinct_step(all, i as int);
        }
        if !holds(out.as_slice(), keys[i].as_str()) {
            let k = keys[i].clone();
            out.push(k);
            assert(texts(out@) =~= done.push(k@));
        }
    }
    proof {
        seqs::lemma_take_all(all);
    }
    out
}

/// What follows the prefix `p`, for a text that begins with it.
pub open spec fn after_prefix(s: Seq<char>, p: Seq<char>) -> Option<Seq<char>> {
    if p.is_prefix_of(s) {
        Some(s.skip(p.len() as int))
    } else {
        None
    }
}

/// Removes a prefix; `None` for a text that does not begin with it.
pub fn without_prefix(s: &str, p: &str) -> (r: Option<String>)
    ensures
        opt_text(r) == after_prefix(s@, p@),
{
    let cs = chars(s);
    let ps = chars(p);
    let r = matches_at(&cs, &ps, 0);
    if r {
        assert(s@.subrange(p@.len() as int, s@.len() as int) =~= s@.skip(p@.len() as int));
        Some(slice(&cs, ps.len(), cs.len()))
    } else {
        None
    }
}

/// The position of the first `c`; the length of the text if there is none.
pub open spec fn first_index(s: Seq<char>, c: char) -> nat
    decreases s.len(),
{
    if s.len() == 0 || s[0] == c {
        0
    } else {
        1 + first_index(s.skip(1), c)
    }
}

/// `first_index` is the least position that holds the character, or the length.
pub proof fn lemma_first_index(s: Seq<char>, c: char)
    ensures
        first_index(s, c) <= s.len(),
        first_index(s, c) < s.len() ==> s[first_index(s, c) as int] == c,
        forall|j: int| 0 <= j < first_index(s, c) ==> s[j] != c,
    decreases s.len(),
{
    if s.len() > 0 && s[0] != c {
        lemma_first_index(s.skip(1), c);
        assert forall|j: int| 0 <= j < first_index(s, c) implies s[j] != c by {
            if j > 0 {
                assert(s.skip(1)[j - 1] == s[j]);
            }
        }
    }
}

/// The position of the first `c` from `from` on.
pub fn find_char(cs: &Vec<char>, from: usize, c: char) -> (r: usize)
    requires
        from <= cs@.len(),
    ensures
        r == from + first_index(cs@.skip(from as int), c),
        from <= r <= cs@.len(),
{
    proof {
        lemma_first_index(cs@.skip(from as int), c);
    }
    let mut i: usize = from;
    while i < cs.len() && cs[i] != c
        invariant
            from <= i <= cs@.len(),
            forall|j: int| from <= j < i ==> cs@[j] != c,
        decreases cs@.len() - i,
    {
        i += 1;
    }
    proof {
        let t = cs@.skip(from as int);
        let k = first_index(t, c);
        if i < cs@.len() {
            assert(t[i - from] == c);
        }
        if k < t.len() {
            assert(cs@[from + k] == c);
        }
    }
    i
}

/// The parts before and after the first `c`, for a text that has one.
pub open spec fn cut_at(s: Seq<char>, c: char) -> Option<(Seq<char>, Seq<char>)> {
    let k = first_index(s, c) as int;
    if k < s.len() {
        Some((s.take(k), s.skip(k + 1)))
    } else {
        None
    }
}

/// Splits a text at its first `c`.
pub fn split_once(s: &str, c: char) -> (r: Option<(String, String)>)
    ensures
        match r {
            Some((a, b)) => cut_at(s@, c) == Some((a@, b@)),
            None => cut_at(s@, c) is None,
        },
{
    let cs = chars(s);
    assert(cs@.skip(0) =~= cs@);
    let k: usize = find_char(&cs, 0, c);
    if k < cs.len() {
        assert(s@.subrange(0, k as int) =~= s@.take(k as int));
        assert(s@.subrange(k + 1, s@.len() as int) =~= s@.skip(k + 1));
        Some((slice(&cs, 0, k), slice(&cs, k + 1, cs.len())))
    } else {
        None
    }
}

// ---------------------------------------------------------------------------
// Trimming
// ---------------------------------------------------------------------------

/// The text without its leading characters that satisfy `p`.
pub open spec fn drop_leading(s: Seq<char>, p: spec_fn(char) -> bool) -> Seq<char>
    decreases s.len(),
{
    if s.len() > 0 && p(s[0]) {
        drop_leading(s.skip(1), p)
    } else {
        s
    }
}

/// The text without its trailing characters that satisfy `p`.
pub open spec fn drop_trailing(s: Seq<char>, p: spec_fn(char) -> bool) -> Seq<char>
    decreases s.len(),
{
    if s.len() > 0 && p(s.last()) {
        drop_trailing(s.drop_last(), p)
    } else {
        s
    }
}

/// White space as a predicate.
pub open spec fn whites() -> spec_fn(char) -> bool {
    |c: char| is_white(c)
}

/// What is not white space, as a predicate.
pub open spec fn solids() -> spec_fn(char) -> bool {
    |c: char| !is_white(c)
}

/// The characters equal to `c`, as a predicate.
pub open spec fn equals(c: char) -> spec_fn(char) -> bool {
    |x: char| x == c
}

pub open spec fn trimmed_start(s: Seq<char>) -> Seq<char> {
    drop_leading(s, whites())
}

pub open spec fn trimmed_end(s: Seq<char>) -> Seq<char> {
    drop_trailing(s, whites())
}

/// The text without white space at either end.
pub open spec fn trimmed(s: Seq<char>) -> Seq<char> {
    trimmed_end(trimmed_start(s))
}

proof fn lemma_drop_leading(s: Seq<char>, p: spec_fn(char) -> bool, k: int)
    requires
        0 <= k <= s.len(),
        forall|j: int| 0 <= j < k ==> p(s[j]),
        k < s.len() ==> !p(s[k]),
    ensures
        drop_leading(s, p) == s.skip(k),
    decreases k,
{
    if k == 0 {
        assert(s.skip(0) =~= s);
    } else {
        assert forall|j: int| 0 <= j < k - 1 implies p(s.skip(1)[j]) by {
            assert(s.skip(1)[j] == s[j + 1]);
        }
        lemma_drop_leading(s.skip(1), p, k - 1);
        assert(s.skip(1).skip(k - 1) =~= s.skip(k));
    }
}

proof fn lemma_drop_trailing(s: Seq<char>, p: spec_fn(char) -> bool, k: int)
    requires
        0 <= k <= s.len(),
        forall|j: int| k <= j < s.len() ==> p(s[j]),
        k > 0 ==> !p(s[k - 1]),
    ensures
        drop_trailing(s, p) == s.take(k),
    decreases s.len() - k,
{
    if k == s.len() {
        assert(s.take(k) =~= s);
    } else {
        lemma_drop_trailing(s.drop_last(), p, k);
        assert(s.drop_last().take(k) =~= s.take(k));
    }
}

/// Every character satisfies `p`.
pub open spec fn every(s: Seq<char>, p: spec_fn(char) -> bool) -> bool {
    forall|i: int| 0 <= i < s.len() ==> p(#[trigger] s[i])
}

/// Two texts in a row are made of what each of them is made of.
pub proof fn lemma_sum_chars(a: Seq<char>, b: Seq<char>, p: spec_fn(char) -> bool)
    requires
        every(a, p),
        every(b, p),
    ensures
        every(a + b, p),
{
    assert forall|i: int| 0 <= i < (a + b).len() implies p(#[trigger] (a + b)[i]) by {
        if i < a.len() {
            assert((a + b)[i] == a[i]);
        } else {
            assert((a + b)[i] == b[i - a.len()]);
        }
    }
}

/// What dropping leading characters leaves is made of the text's characters.
proof fn lemma_leading_chars(s: Seq<char>, q: spec_fn(char) -> bool, p: spec_fn(char) -> bool)
    requires
        every(s, p),
    ensures
        every(drop_leading(s, q), p),
        drop_leading(s, q).len() > 0 ==> !q(drop_leading(s, q)[0]),
    decreases s.len(),
{
    if s.len() > 0 && q(s[0]) {
        assert forall|i: int| 0 <= i < s.skip(1).len() implies p(#[trigger] s.skip(1)[i]) by {
            assert(s.skip(1)[i] == s[i + 1]);
        }
        lemma_leading_chars(s.skip(1), q, p);
    }
}

/// What trimming leaves is made of the text's characters, and neither begins nor
/// ends with white space.
pub proof fn lemma_trimmed_chars(s: Seq<char>, p: spec_fn(char) -> bool)
    requires
        every(s, p),
    ensures
        every(trimmed(s), p),
        trimmed(s).len() > 0 ==> !is_white(trimmed(s)[0]) && !is_white(trimmed(s).last()),
{
    let t = trimmed_start(s);
    lemma_leading_chars(s, whites(), p);
    lemma_trimmed_end(t);
    let k = trimmed_end(t).len() as int;
    assert forall|i: int| 0 <= i < trimmed(s).len() implies p(#[trigger] trimmed(s)[i]) by {
        assert(t.take(k)[i] == t[i]);
    }
}

/// Trimming the end of a text leaves a beginning of it that does not end with
/// white space, and takes away nothing but white space.
pub proof fn lemma_trimmed_end(s: Seq<char>)
    ensures
        trimmed_end(s).len() <= s.len(),
        trimmed_end(s) == s.take(trimmed_end(s).len() as int),
        trimmed_end(s).len() > 0 ==> !is_white(trimmed_end(s).last()),
        forall|j: int| trimmed_end(s).len() <= j < s.len() ==> is_white(#[trigger] s[j]),
    decreases s.len(),
{
    if s.len() > 0 && is_white(s.last()) {
        let t = s.drop_last();
        lemma_trimmed_end(t);
        let k = trimmed_end(t).len() as int;
        assert(t.take(k) =~= s.take(k));
        assert forall|j: int| k <= j < s.len() implies is_white(#[trigger] s[j]) by {
            if j < t.len() {
                assert(t[j] == s[j]);
            }
        }
    } else {
        assert(s.take(s.len() as int) =~= s);
    }
}

/// A text that is trimmed at its end is a part of the text.
pub proof fn lemma_trimmed_part(s: Seq<char>)
    ensures
        has_text(s, trimmed_end(s)),
        trimmed_end(s).len() > 0 ==> !is_white(trimmed_end(s).last()),
{
    let t = trimmed_end(s);
    lemma_trimmed_end(s);
    assert(s.subrange(0, t.len() as int) =~= t);
    assert(occurs_at(s, t, 0));
}

/// Trimming the end of a text keeps every part that does not end with white space.
pub proof fn lemma_trimming_keeps(s: Seq<char>, t: Seq<char>)
    requires
        has_text(s, t),
        t.len() > 0 ==> !is_white(t.last()),
    ensures
        has_text(trimmed_end(s), t),
{
    let i = choose|i: int| occurs_at(s, t, i);
    let r = trimmed_end(s);
    lemma_trimmed_end(s);
    if t.len() == 0 {
        assert(r.subrange(0, 0) =~= t);
        assert(occurs_at(r, t, 0));
    } else {
        assert(s.subrange(i, i + t.len())[t.len() - 1] == s[i + t.len() - 1]);
        assert(i + t.len() <= r.len());
        assert(r.subrange(i, i + t.len()) =~= s.subrange(i, i + t.len()));
        assert(occurs_at(r, t, i));
    }
}

/// A text that does not begin with white space is only trimmed at its end.
pub proof fn lemma_trimmed_at_end(s: Seq<char>)
    requires
        s.len() > 0 ==> !is_white(s[0]),
    ensures
        trimmed(s) == trimmed_end(s),
{
}

/// Removes leading white space.
pub fn trim_start(s: &str) -> (r: String)
    ensures
        r@ == trimmed_start(s@),
{
    let cs = chars(s);
    let mut k: usize = 0;
    while k < cs.len() && white(cs[k])
        invariant
            k <= cs@.len(),
            forall|j: int| 0 <= j < k ==> is_white(cs@[j]),
        decreases cs@.len() - k,
    {
        k += 1;
    }
    proof {
        lemma_drop_leading(s@, whites(), k as int);
        assert(s@.subrange(k as int, s@.len() as int) =~= s@.skip(k as int));
    }
    slice(&cs, k, cs.len())
}

/// Removes trailing white space.
pub fn trim_end(s: &str) -> (r: String)
    ensures
        r@ == trimmed_end(s@),
{
    let cs = chars(s);
    let mut k: usize = cs.len();
    while k > 0 && white(cs[k - 1])
        invariant
            k <= cs@.len(),
            forall|j: int| k <= j < cs@.len() ==> is_white(cs@[j]),
        decreases k,
    {
        k -= 1;
    }
    proof {
        lemma_drop_trailing(s@, whites(), k as int);
        assert(s@.subrange(0, k as int) =~= s@.take(k as int));
    }
    slice(&cs, 0, k)
}

/// Removes white space at both ends.
pub fn trim(s: &str) -> (r: String)
    ensures
        r@ == trimmed(s@),
{
    let t = trim_start(s);
    trim_end(t.as_str())
}

/// Removes every leading `c`.
pub fn trim_start_matches(s: &str, c: char) -> (r: String)
    ensures
        r@ == drop_leading(s@, equals(c)),
{
    let cs = chars(s);
    let mut k: usize = 0;
    while k < cs.len() && cs[k] == c
        invariant
            k <= cs@.len(),
            forall|j: int| 0 <= j < k ==> cs@[j] == c,
        decreases cs@.len() - k,
    {
        k += 1;
    }
    proof {
        lemma_drop_leading(s@, equals(c), k as int);
        assert(s@.subrange(k as int, s@.len() as int) =~= s@.skip(k as int));
    }
    slice(&cs, k, cs.len())
}

/// Removes every trailing `c`.
pub fn trim_end_matches(s: &str, c: char) -> (r: String)
    ensures
        r@ == drop_trailing(s@, equals(c)),
{
    let cs = chars(s);
    let mut k: usize = cs.len();
    while k > 0 && cs[k - 1] == c
        invariant
            k <= cs@.len(),
            forall|j: int| k <= j < cs@.len() ==> cs@[j] == c,
        decreases k,
    {
        k -= 1;
    }
    proof {
        lemma_drop_trailing(s@, equals(c), k as int);
        assert(s@.subrange(0, k as int) =~= s@.take(k as int));
    }
    slice(&cs, 0, k)
}

// ---------------------------------------------------------------------------
// Bytes
// ---------------------------------------------------------------------------

/// How many bytes UTF-8 takes for a character.
pub open spec fn utf8_width(c: char) -> nat {
    if c <= '\u{7f}' {
        1
    } else if c <= '\u{7ff}' {
        2
    } else if c <= '\u{ffff}' {
        3
    } else {
        4
    }
}

/// How many bytes UTF-8 takes for a text.
pub open spec fn utf8_len(s: Seq<char>) -> nat
    decreases s.len(),
{
    if s.len() == 0 {
        0
    } else {
        utf8_width(s[0]) + utf8_len(s.skip(1))
    }
}

/// The position of the character that begins after `n` bytes of UTF-8; `None`
/// where the text is shorter or a character spans that place.
pub open spec fn byte_index(s: Seq<char>, n: nat) -> Option<nat>
    decreases s.len(),
{
    if n == 0 {
        Some(0)
    } else if s.len() == 0 || utf8_width(s[0]) > n {
        None
    } else {
        match byte_index(s.skip(1), (n - utf8_width(s[0])) as nat) {
            Some(k) => Some(k + 1),
            None => None,
        }
    }
}

/// What follows the first `n` bytes of UTF-8, where a character begins there.
pub open spec fn after_bytes(s: Seq<char>, n: nat) -> Option<Seq<char>> {
    match byte_index(s, n) {
        Some(k) => Some(s.skip(k as int)),
        None => None,
    }
}

/// An ASCII text takes one byte for each character.
pub proof fn lemma_ascii_bytes(s: Seq<char>)
    requires
        all_ascii(s),
    ensures
        utf8_len(s) == s.len(),
    decreases s.len(),
{
    if s.len() > 0 {
        assert(all_ascii(s.skip(1))) by {
            assert forall|i: int| 0 <= i < s.skip(1).len() implies s.skip(1)[i] <= '\u{7f}' by {
                assert(s.skip(1)[i] == s[i + 1]);
            }
        }
        lemma_ascii_bytes(s.skip(1));
    }
}

/// In an ASCII text a character begins after every byte.
pub proof fn lemma_ascii_byte_index(s: Seq<char>, n: nat)
    requires
        all_ascii(s),
        n <= s.len(),
    ensures
        byte_index(s, n) == Some(n),
    decreases s.len(),
{
    if n > 0 {
        assert(all_ascii(s.skip(1))) by {
            assert forall|i: int| 0 <= i < s.skip(1).len() implies s.skip(1)[i] <= '\u{7f}' by {
                assert(s.skip(1)[i] == s[i + 1]);
            }
        }
        lemma_ascii_byte_index(s.skip(1), (n - 1) as nat);
    }
}

/// How many bytes UTF-8 takes for a character.
fn width(c: char) -> (r: u128)
    ensures
        r == utf8_width(c),
{
    if c <= '\u{7f}' {
        1
    } else if c <= '\u{7ff}' {
        2
    } else if c <= '\u{ffff}' {
        3
    } else {
        4
    }
}

/// How many bytes UTF-8 takes for a text.
fn byte_len(cs: &Vec<char>) -> (r: u128)
    ensures
        r == utf8_len(cs@),
{
    let n: usize = cs.len();
    let mut total: u128 = 0;
    let mut i: usize = n;
    while i > 0
        invariant
            n == cs@.len(),
            i <= n,
            total == utf8_len(cs@.skip(i as int)),
            total <= 4 * (n - i),
        decreases i,
    {
        i -= 1;
        total += width(cs[i]);
        assert(cs@.skip(i as int).skip(1) =~= cs@.skip(i + 1));
    }
    assert(cs@.skip(0) =~= cs@);
    total
}

/// What follows as many bytes as `prefix` takes, where a character begins there.
pub fn skip_bytes_of(s: &str, prefix: &str) -> (r: Option<String>)
    ensures
        opt_text(r) == after_bytes(s@, utf8_len(prefix@)),
{
    let cs = chars(s);
    let ps = chars(prefix);
    let n: usize = cs.len();
    let mut left: u128 = byte_len(&ps);
    let mut i: usize = 0;
    assert(cs@.skip(0) =~= cs@);
    while left > 0
        invariant
            n == cs@.len(),
            cs@ == s@,
            i <= n,
            byte_index(s@, utf8_len(prefix@)) == match byte_index(
                cs@.skip(i as int),
                left as nat,
            ) {
                Some(k) => Some(k + i as nat),
                None => None,
            },
        decreases n - i,
    {
        if i == n {
            return None;
        }
        let w: u128 = width(cs[i]);
        if w > left {
            return None;
        }
        assert(cs@.skip(i as int).skip(1) =~= cs@.skip(i + 1));
        left -= w;
        i += 1;
    }
    assert(s@.subrange(i as int, n as int) =~= s@.skip(i as int));
    Some(slice(&cs, i, n))
}

// ---------------------------------------------------------------------------
// Shortening and numbers
// ---------------------------------------------------------------------------

/// A text of at most `max` characters: the text itself where it fits, else its
/// beginning with `...` in place of the rest.
pub open spec fn truncated(s: Seq<char>, max: nat) -> Seq<char> {
    if s.len() <= max {
        s
    } else if max < 3 {
        "..."@
    } else {
        s.take(max - 3) + "..."@
    }
}

/// A shortened text has at most as many characters as are allowed; only a limit
/// below three is too small for the three dots.
pub proof fn shortened_text_fits(s: Seq<char>, max: nat)
    requires
        max >= 3,
    ensures
        truncated(s, max).len() <= max,
        s.len() <= max ==> truncated(s, max) == s,
{
    reveal_strlit("...");
}

/// A shortened text is empty, or ends with white space, only where the text does.
pub proof fn lemma_truncated_end(s: Seq<char>, max: nat)
    requires
        s.len() > 0,
        !is_white(s.last()),
    ensures
        truncated(s, max).len() > 0,
        !is_white(truncated(s, max).last()),
{
    reveal_strlit("...");
}

/// Shortens a text to `max` characters.
pub fn truncate(s: &str, max: usize) -> (r: String)
    ensures
        r@ == truncated(s@, max as nat),
{
    let cs = chars(s);
    if cs.len() <= max {
        s.to_owned()
    } else if max < 3 {
        "...".to_owned()
    } else {
        assert(s@.subrange(0, max - 3) =~= s@.take(max - 3));
        let mut out = slice(&cs, 0, max - 3);
        out.append("...");
        out
    }
}

/// The decimal digit of a number below ten.
pub open spec fn digit(d: nat) -> char {
    (48 + d) as char
}

/// A number in decimal, without leading zeros.
pub open spec fn decimal(n: nat) -> Seq<char>
    decreases n,
{
    if n < 10 {
        seq![digit(n)]
    } else {
        decimal(n / 10).push(digit(n % 10))
    }
}

/// Appends a number in decimal.
pub fn push_decimal(out: &mut String, n: u128)
    ensures
        final(out)@ == old(out)@ + decimal(n as nat),
    decreases n,
{
    if n >= 10 {
        push_decimal(out, n / 10);
    }
    let d: u8 = (n % 10) as u8;
    let c: char = (48u8 + d) as char;
    out.push(c);
    proof {
        assert(c == digit((n % 10) as nat));
        if n >= 10 {
            assert(out@ =~= old(out)@ + decimal(n as nat));
        } else {
            assert(out@ =~= old(out)@ + seq![digit(n as nat)]);
        }
    }
}

/// Appends a count in decimal.
pub fn push_count(out: &mut String, n: usize)
    ensures
        final(out)@ == old(out)@ + decimal(n as nat),
{
    push_decimal(out, n as u128)
}

// ---------------------------------------------------------------------------
// Laws
// ---------------------------------------------------------------------------

/// A text stands in another exactly where the other is what comes before it, the
/// text itself and what comes after it, in a row.
pub proof fn a_part_has_texts_around_it(s: Seq<char>, p: Seq<char>)
    ensures
        has_text(s, p) <==> exists|a: Seq<char>, b: Seq<char>| s == #[trigger] (a + p + b),
{
    if has_text(s, p) {
        let i = choose|i: int| occurs_at(s, p, i);
        let a = s.take(i);
        let b = s.skip(i + p.len());
        assert(s =~= a + s.subrange(i, i + p.len()) + b);
        assert(s == a + p + b);
    }
    if exists|a: Seq<char>, b: Seq<char>| s == #[trigger] (a + p + b) {
        let (a, b) = choose|a: Seq<char>, b: Seq<char>| s == #[trigger] (a + p + b);
        lemma_middle_part(a, p, b);
    }
}

/// What follows a prefix, put after the prefix, is the text; other texts do not begin
/// with it.
pub proof fn a_prefix_and_the_rest_are_the_text(s: Seq<char>, p: Seq<char>)
    ensures
        forall|rest: Seq<char>| #[trigger] after_prefix(p + rest, p) == Some(rest),
        after_prefix(s, p) is Some ==> s == p + after_prefix(s, p)->0,
{
    assert forall|rest: Seq<char>| #[trigger] after_prefix(p + rest, p) == Some(rest) by {
        let t = p + rest;
        assert(t.subrange(0, p.len() as int) =~= p);
        assert(t.skip(p.len() as int) =~= rest);
    }
    if after_prefix(s, p) is Some {
        assert(s =~= s.subrange(0, p.len() as int) + s.skip(p.len() as int));
    }
}

/// A text is cut at the first place where the character stands, and only where it
/// stands somewhere.
pub proof fn a_text_is_cut_at_the_first_place(s: Seq<char>, c: char, a: Seq<char>, b: Seq<char>)
    requires
        !a.contains(c),
    ensures
        cut_at(a.push(c) + b, c) == Some((a, b)),
        cut_at(s, c) is None <==> !s.contains(c),
{
    let t = a.push(c) + b;
    let k = first_index(t, c) as int;
    let n = a.len() as int;
    lemma_first_index(t, c);
    lemma_first_index(s, c);
    assert(t[n] == c);
    if k < n {
        assert(a[k] == c);
    }
    assert(k == n);
    assert(t.take(n) =~= a);
    assert(t.skip(n + 1) =~= b);
    if s.contains(c) {
        assert(s[s.index_of(c)] == c);
    }
}

/// Lists that are joined one after the other are joined with the separator between
/// them; a single part stays as it is, and no parts give nothing.
pub proof fn joined_lists_add_up(a: Seq<Seq<char>>, b: Seq<Seq<char>>, sep: Seq<char>)
    ensures
        a.len() > 0 && b.len() > 0 ==> joined(a + b, sep) == joined(a, sep) + sep + joined(b, sep),
        a.len() == 1 ==> joined(a, sep) == a[0],
        a.len() == 0 ==> joined(a, sep).len() == 0,
    decreases b.len(),
{
    if a.len() > 0 && b.len() > 0 {
        let all = a + b;
        assert(all.last() == b.last());
        if b.len() == 1 {
            assert(all.drop_last() =~= a);
        } else {
            joined_lists_add_up(a, b.drop_last(), sep);
            assert(all.drop_last() =~= a + b.drop_last());
            assert(joined(all, sep) =~= joined(a, sep) + sep + joined(b, sep));
        }
    }
}

/// Characters that satisfy a predicate are dropped from the beginning of a text, or
/// from its end, as far as they go.
pub proof fn only_outer_characters_are_dropped(
    a: Seq<char>,
    t: Seq<char>,
    p: spec_fn(char) -> bool,
)
    requires
        forall|i: int| 0 <= i < a.len() ==> p(#[trigger] a[i]),
    ensures
        t.len() == 0 || !p(t[0]) ==> drop_leading(a + t, p) == t,
        t.len() == 0 || !p(t.last()) ==> drop_trailing(t + a, p) == t,
{
    let n = a.len() as int;
    let s = a + t;
    let e = t + a;
    if t.len() == 0 || !p(t[0]) {
        assert forall|j: int| 0 <= j < n implies p(s[j]) by {
            assert(s[j] == a[j]);
        }
        if n < s.len() {
            assert(s[n] == t[0]);
        }
        lemma_drop_leading(s, p, n);
        assert(s.skip(n) =~= t);
    }
    if t.len() == 0 || !p(t.last()) {
        let m = t.len() as int;
        assert forall|j: int| m <= j < e.len() implies p(e[j]) by {
            assert(e[j] == a[j - m]);
        }
        if m > 0 {
            assert(e[m - 1] == t.last());
        }
        lemma_drop_trailing(e, p, m);
        assert(e.take(m) =~= t);
    }
}

/// Trimming takes away the white space around a text, and nothing of the text.
pub proof fn trimming_takes_white_space_away(before: Seq<char>, t: Seq<char>, after: Seq<char>)
    requires
        forall|i: int| 0 <= i < before.len() ==> is_white(#[trigger] before[i]),
        forall|i: int| 0 <= i < after.len() ==> is_white(#[trigger] after[i]),
        t.len() > 0,
        !is_white(t[0]),
        !is_white(t.last()),
    ensures
        trimmed(before + t + after) == t,
        trimmed_start(before + t + after) == t + after,
        trimmed_end(before + t + after) == before + t,
        trimmed(before).len() == 0,
        trimmed_start(before).len() == 0,
        trimmed_end(before).len() == 0,
{
    let none = Seq::<char>::empty();
    only_outer_characters_are_dropped(before, t + after, whites());
    assert(before + t + after =~= before + (t + after));
    only_outer_characters_are_dropped(after, t, whites());
    only_outer_characters_are_dropped(after, before + t, whites());
    assert((before + t).last() == t.last());
    only_outer_characters_are_dropped(before, none, whites());
    assert(before + none =~= before);
    assert(none + before =~= before);
    only_outer_characters_are_dropped(none, none, whites());
    assert(none + none =~= none);
}

/// Dropping every leading or trailing `c` leaves what has no `c` there.
pub proof fn only_the_given_character_is_dropped(a: Seq<char>, t: Seq<char>, c: char)
    requires
        forall|i: int| 0 <= i < a.len() ==> #[trigger] a[i] == c,
    ensures
        t.len() == 0 || t[0] != c ==> drop_leading(a + t, equals(c)) == t,
        t.len() == 0 || t.last() != c ==> drop_trailing(t + a, equals(c)) == t,
{
    only_outer_characters_are_dropped(a, t, equals(c));
}

/// White space is the characters of Unicode's White_Space property: tab, line feed,
/// vertical tab, form feed, carriage return, space, next line and the spaces and
/// separators beyond Latin-1.
pub proof fn white_space_is_that_of_unicode(c: char)
    ensures
        is_white(c) <==> seq![
            9u32, 10, 11, 12, 13, 32, 0x85, 0xa0, 0x1680, 0x2000, 0x2001, 0x2002, 0x2003, 0x2004,
            0x2005, 0x2006, 0x2007, 0x2008, 0x2009, 0x200a, 0x2028, 0x2029, 0x202f, 0x205f, 0x3000,
        ].contains(c as u32),
{
    let codes = seq![
        9u32, 10, 11, 12, 13, 32, 0x85, 0xa0, 0x1680, 0x2000, 0x2001, 0x2002, 0x2003, 0x2004,
        0x2005, 0x2006, 0x2007, 0x2008, 0x2009, 0x200a, 0x2028, 0x2029, 0x202f, 0x205f, 0x3000,
    ];
    let n = c as u32;
    if is_white(c) {
        let k: int = if n <= 13 {
            n - 9
        } else if n == 32 {
            5
        } else if n == 0x85 {
            6
        } else if n == 0xa0 {
            7
        } else if n == 0x1680 {
            8
        } else if n <= 0x200a {
            n - 0x2000 + 9
        } else if n == 0x2028 {
            20
        } else if n == 0x2029 {
            21
        } else if n == 0x202f {
            22
        } else if n == 0x205f {
            23
        } else {
            24
        };
        assert(codes[k] == n);
    }
    if codes.contains(n) {
        let k = codes.index_of(n);
        assert(codes[k] == n);
    }
}

/// A text that is too long keeps its beginning and ends with three dots, so that it
/// is as long as is allowed.
pub proof fn shortened_text_ends_with_dots(s: Seq<char>, max: nat)
    requires
        s.len() > max,
    ensures
        max >= 3 ==> truncated(s, max).len() == max,
        max >= 3 ==> s.take(max - 3).is_prefix_of(truncated(s, max)),
        seq!['.', '.', '.'].is_suffix_of(truncated(s, max)),
        max < 3 ==> truncated(s, max).len() == 3,
{
    reveal_strlit("...");
    let t = truncated(s, max);
    assert("..."@ =~= seq!['.', '.', '.']);
    if max >= 3 {
        assert(t.subrange(0, max - 3) =~= s.take(max - 3));
    }
    assert(t.subrange(t.len() - 3, t.len() as int) =~= seq!['.', '.', '.']);
}

/// The number that a row of decimal digits stands for.
pub open spec fn number_in(digits: Seq<char>) -> int
    decreases digits.len(),
{
    if digits.len() == 0 {
        0
    } else {
        10 * number_in(digits.drop_last()) + (digits.last() as u32 - '0' as u32)
    }
}

/// A number in decimal is a row of digits that stands for the number, without a zero
/// at its beginning unless it is zero.
pub proof fn decimal_stands_for_the_number(n: nat)
    ensures
        number_in(decimal(n)) == n,
        decimal(n).len() > 0,
        forall|i: int|
            0 <= i < decimal(n).len() ==> '0' <= #[trigger] decimal(n)[i] && decimal(n)[i] <= '9',
        n > 0 ==> decimal(n)[0] != '0',
        n < 10 ==> decimal(n).len() == 1,
    decreases n,
{
    if n >= 10 {
        decimal_stands_for_the_number(n / 10);
        assert(decimal(n).drop_last() =~= decimal(n / 10));
    } else {
        assert(decimal(n).drop_last() =~= Seq::<char>::empty());
        assert(number_in(decimal(n).drop_last()) == 0);
    }
}

/// A text of ASCII characters is lowered letter by letter, and nothing else changes
/// in it.
pub proof fn ascii_letters_are_lowered(s: Seq<char>, i: int)
    requires
        forall|j: int| 0 <= j < s.len() ==> #[trigger] s[j] <= '\u{7f}',
        0 <= i < s.len(),
    ensures
        lowered(s).len() == s.len(),
        'A' <= s[i] && s[i] <= 'Z' ==> lowered(s)[i] as u32 - 'a' as u32 == s[i] as u32
            - 'A' as u32,
        !('A' <= s[i] && s[i] <= 'Z') ==> lowered(s)[i] == s[i],
{
    assert(all_ascii(s));
}

/// The bytes that a text takes are those of its encoding in UTF-8.
pub proof fn bytes_are_those_of_utf8(s: Seq<char>)
    ensures
        utf8_len(s) == vstd::utf8::encode_utf8(s).len(),
    decreases s.len(),
{
    if s.len() > 0 {
        bytes_are_those_of_utf8(s.skip(1));
        assert(s.drop_first() =~= s.skip(1));
        lemma_bytes_of_a_character(s[0]);
    }
}

/// The bytes that a character takes are those of its encoding in UTF-8.
proof fn lemma_bytes_of_a_character(c: char)
    ensures
        utf8_width(c) == vstd::utf8::encode_scalar(c as u32).len(),
{
    vstd::utf8::char_is_scalar(c);
}

/// What follows the bytes of a text's beginning is the rest of the text; there is a
/// rest only after the bytes of a beginning.
pub proof fn the_rest_follows_the_bytes_of_a_beginning(a: Seq<char>, b: Seq<char>, n: nat)
    ensures
        after_bytes(a + b, utf8_len(a)) == Some(b),
        after_bytes(a, n) is Some ==> exists|k: int|
            0 <= k <= a.len() && utf8_len(#[trigger] a.take(k)) == n && after_bytes(a, n) == Some(
                a.skip(k),
            ),
{
    lemma_bytes_of_a_beginning(a, b);
    let s = a + b;
    assert(s.skip(a.len() as int) =~= b);
    if after_bytes(a, n) is Some {
        lemma_bytes_before(a, n);
        let k = byte_index(a, n)->0 as int;
        assert(utf8_len(a.take(k)) == n);
    }
}

/// The character after the bytes of a text's beginning.
proof fn lemma_bytes_of_a_beginning(a: Seq<char>, b: Seq<char>)
    ensures
        byte_index(a + b, utf8_len(a)) == Some(a.len()),
    decreases a.len(),
{
    if a.len() > 0 {
        let s = a + b;
        assert(s[0] == a[0]);
        assert(s.skip(1) =~= a.skip(1) + b);
        lemma_bytes_of_a_beginning(a.skip(1), b);
    }
}

/// So many bytes come before the character that begins after them.
proof fn lemma_bytes_before(s: Seq<char>, n: nat)
    requires
        byte_index(s, n) is Some,
    ensures
        byte_index(s, n)->0 <= s.len(),
        utf8_len(s.take(byte_index(s, n)->0 as int)) == n,
    decreases s.len(),
{
    let k = byte_index(s, n)->0 as int;
    if n > 0 {
        let rest = s.skip(1);
        let m = (n - utf8_width(s[0])) as nat;
        lemma_bytes_before(rest, m);
        assert(s.take(k)[0] == s[0]);
        assert(s.take(k).skip(1) =~= rest.take(k - 1));
    }
}

/// A text with a character beyond ASCII is lowered in Unicode's sense, as the standard
/// library does it.
pub proof fn other_texts_are_lowered_by_unicode(s: Seq<char>, i: int)
    requires
        0 <= i < s.len(),
        s[i] > '\u{7f}',
    ensures
        lowered(s) == lowercase(s),
{
}

/// Strings are seen as their texts, one by one and in order.
pub proof fn strings_are_seen_as_texts(v: Seq<String>, o: Option<String>, t: Option<&str>)
    ensures
        texts(v).len() == v.len(),
        forall|i: int| 0 <= i < v.len() ==> #[trigger] texts(v)[i] == v[i]@,
        o is Some ==> opt_text(o) == Some(o->0@),
        o is None ==> opt_text(o) is None,
        t is Some ==> opt_str(t) == Some(t->0@),
        t is None ==> opt_str(t) is None,
{
}

/// Each part stands in the parts that are joined.
pub proof fn lemma_part_of_joined(parts: Seq<Seq<char>>, sep: Seq<char>, i: int)
    requires
        0 <= i < parts.len(),
    ensures
        has_text(joined(parts, sep), parts[i]),
    decreases parts.len(),
{
    let none = Seq::<char>::empty();
    if parts.len() == 1 {
        lemma_middle_part(none, parts[0], none);
        assert(none + parts[0] + none =~= parts[0]);
    } else {
        let before = parts.drop_last();
        if i == parts.len() - 1 {
            lemma_middle_part(joined(before, sep) + sep, parts[i], none);
            assert(joined(before, sep) + sep + parts[i] + none =~= joined(parts, sep));
        } else {
            lemma_part_of_joined(before, sep, i);
            lemma_part_of_sum(joined(before, sep), sep, before[i]);
            lemma_part_of_sum(joined(before, sep) + sep, parts.last(), before[i]);
        }
    }
}

} // verus!
