//! Decoding records with a decoder that the caller brings.

use crate::lines;
use crate::seqs;
use crate::text;
use vstd::prelude::*;

verus! {

/// `decode` may answer `value` for the text `record`; `None` stands for a record
/// that it cannot decode.
pub open spec fn decodes_to<T, D: Fn(&str) -> Option<T>>(
    decode: D,
    record: Seq<char>,
    value: Option<T>,
) -> bool {
    exists|s: &str| s@ == record && #[trigger] call_ensures(decode, (s,), value)
}

/// The values are what `decode` answers for the records, one by one.
pub open spec fn decodes<T, D: Fn(&str) -> Option<T>>(
    decode: D,
    records: Seq<Seq<char>>,
    values: Seq<Option<T>>,
) -> bool {
    &&& values.len() == records.len()
    &&& forall|i: int|
        0 <= i < records.len() ==> decodes_to(decode, #[trigger] records[i], values[i])
}

/// Decodes the records one by one.
pub fn decode_all<T, D: Fn(&str) -> Option<T>>(records: &Vec<String>, decode: D) -> (r: Vec<
    Option<T>,
>)
    requires
        forall|s: &str| call_requires(decode, (s,)),
    ensures
        decodes(decode, text::texts(records@), r@),
{
    let mut out: Vec<Option<T>> = Vec::new();
    for i in 0..records.len()
        invariant
            forall|s: &str| call_requires(decode, (s,)),
            out@.len() == i,
            forall|j: int|
                0 <= j < i ==> decodes_to(decode, #[trigger] text::texts(records@)[j], out@[j]),
    {
        let s = records[i].as_str();
        let value = decode(s);
        assert(decodes_to(decode, text::texts(records@)[i as int], value));
        out.push(value);
    }
    out
}

/// `decode` always answers the same for a text, as far as `seen` looks at the
/// answer.
pub open spec fn determinate<T, V, D: Fn(&str) -> Option<T>>(
    decode: D,
    seen: spec_fn(Option<T>) -> Option<V>,
) -> bool {
    forall|record: Seq<char>, x: Option<T>, y: Option<T>|
        #![trigger decodes_to(decode, record, x), decodes_to(decode, record, y)]
        decodes_to(decode, record, x) && decodes_to(decode, record, y) ==> seen(x) == seen(y)
}

/// Whatever `decode` answers for a text, there is nothing to be seen in it.
pub open spec fn meaningless<T, V, D: Fn(&str) -> Option<T>>(
    decode: D,
    seen: spec_fn(Option<T>) -> Option<V>,
    record: Seq<char>,
) -> bool {
    forall|x: Option<T>| #[trigger] decodes_to(decode, record, x) ==> seen(x) is None
}

/// What is seen in an answer of `decode` for a text, as a mapping.
pub open spec fn answer<T, V, D: Fn(&str) -> Option<T>>(
    decode: D,
    seen: spec_fn(Option<T>) -> Option<V>,
) -> spec_fn(Seq<char>) -> Option<V> {
    |record: Seq<char>| seen(choose|x: Option<T>| decodes_to(decode, record, x))
}

/// What is seen in the answers for some records depends on the records alone, for a
/// decoder that always answers the same.
pub proof fn lemma_answers<T, V, D: Fn(&str) -> Option<T>>(
    decode: D,
    seen: spec_fn(Option<T>) -> Option<V>,
    records: Seq<Seq<char>>,
    values: Seq<Option<T>>,
)
    requires
        determinate(decode, seen),
        decodes(decode, records, values),
    ensures
        values.filter_map(seen) == records.filter_map(answer(decode, seen)),
{
    assert forall|i: int| 0 <= i < values.len() implies seen(#[trigger] values[i]) == answer(
        decode,
        seen,
    )(records[i]) by {
        assert(decodes_to(decode, records[i], values[i]));
        let x = choose|x: Option<T>| decodes_to(decode, records[i], x);
        assert(decodes_to(decode, records[i], x));
    }
    seqs::lemma_filter_map_same(values, seen, records, answer(decode, seen));
}

/// Records whose answers show nothing make no difference to what the answers for
/// the records around them show, where `answers` relates a record to all answers
/// that it may be given and the same is seen in all of them.
pub proof fn lemma_noise_is_not_seen<P, A, V>(
    answers: spec_fn(P, A) -> bool,
    seen: spec_fn(A) -> Option<V>,
    before: Seq<P>,
    noise: Seq<P>,
    after: Seq<P>,
    noisy: Seq<A>,
    plain: Seq<A>,
)
    requires
        forall|p: P, x: A, y: A| #[trigger]
            answers(p, x) && #[trigger] answers(p, y) ==> seen(x) == seen(y),
        forall|i: int, x: A|
            0 <= i < noise.len() && #[trigger] answers(noise[i], x) ==> seen(x) is None,
        noisy.len() == before.len() + noise.len() + after.len(),
        plain.len() == before.len() + after.len(),
        forall|i: int|
            0 <= i < noisy.len() ==> answers((before + noise + after)[i], #[trigger] noisy[i]),
        forall|i: int| 0 <= i < plain.len() ==> answers((before + after)[i], #[trigger] plain[i]),
    ensures
        noisy.filter_map(seen) == plain.filter_map(seen),
{
    let a = before.len() as int;
    let n = noise.len() as int;
    let all = before + noise + after;
    let rest = before + after;
    let first = noisy.take(a);
    let middle = noisy.subrange(a, a + n);
    let last = noisy.skip(a + n);
    assert(noisy =~= first + middle + last);
    assert(plain =~= plain.take(a) + plain.skip(a));
    seqs::lemma_filter_map_add(first + middle, last, seen);
    seqs::lemma_filter_map_add(first, middle, seen);
    seqs::lemma_filter_map_add(plain.take(a), plain.skip(a), seen);
    assert forall|i: int| 0 <= i < first.len() implies seen(#[trigger] first[i]) == seen(
        plain.take(a)[i],
    ) by {
        assert(all[i] == before[i] && rest[i] == before[i]);
        assert(answers(all[i], noisy[i]) && answers(rest[i], plain[i]));
    }
    seqs::lemma_filter_map_same(first, seen, plain.take(a), seen);
    assert forall|i: int| 0 <= i < middle.len() implies seen(#[trigger] middle[i]) is None by {
        assert(all[a + i] == noise[i]);
        assert(answers(all[a + i], noisy[a + i]));
    }
    seqs::lemma_filter_map_nothing(middle, seen);
    assert forall|i: int| 0 <= i < last.len() implies seen(#[trigger] last[i]) == seen(
        plain.skip(a)[i],
    ) by {
        assert(all[a + n + i] == after[i] && rest[a + i] == after[i]);
        assert(answers(all[a + n + i], noisy[a + n + i]) && answers(rest[a + i], plain[a + i]));
    }
    seqs::lemma_filter_map_same(last, seen, plain.skip(a), seen);
    assert(first.filter_map(seen) + Seq::<V>::empty() =~= first.filter_map(seen));
}

/// Lines in which there is nothing to be seen, put in anywhere among the lines of a
/// text, make no difference to what is seen in the records of the text.
pub proof fn lemma_noise_lines<T, V, D: Fn(&str) -> Option<T>>(
    decode: D,
    seen: spec_fn(Option<T>) -> Option<V>,
    plain: Seq<char>,
    noise: Seq<char>,
    noisy: Seq<char>,
    plain_records: Seq<Option<T>>,
    noisy_records: Seq<Option<T>>,
)
    requires
        determinate(decode, seen),
        lines::lines_inserted(plain, noise, noisy),
        forall|i: int|
            0 <= i < lines::object_lines_of(noise).len() ==> meaningless(
                decode,
                seen,
                #[trigger] lines::object_lines_of(noise)[i],
            ),
        decodes(decode, lines::object_lines_of(plain), plain_records),
        decodes(decode, lines::object_lines_of(noisy), noisy_records),
    ensures
        noisy_records.filter_map(seen) == plain_records.filter_map(seen),
{
    let (before, after) = lines::lemma_lines_inserted(plain, noise, noisy);
    let between = lines::object_lines_of(noise);
    let answers = |record: Seq<char>, x: Option<T>| decodes_to(decode, record, x);
    assert forall|i: int| 0 <= i < noisy_records.len() implies answers(
        (before + between + after)[i],
        #[trigger] noisy_records[i],
    ) by {
        assert(decodes_to(decode, lines::object_lines_of(noisy)[i], noisy_records[i]));
    }
    assert forall|i: int| 0 <= i < plain_records.len() implies answers(
        (before + after)[i],
        #[trigger] plain_records[i],
    ) by {
        assert(decodes_to(decode, lines::object_lines_of(plain)[i], plain_records[i]));
    }
    assert forall|i: int, x: Option<T>|
        0 <= i < between.len() && #[trigger] answers(between[i], x) implies seen(x) is None by {
        assert(meaningless(decode, seen, between[i]));
        assert(decodes_to(decode, between[i], x));
    }
    lemma_noise_is_not_seen(answers, seen, before, between, after, noisy_records, plain_records);
}

/// Every record is decoded, one by one and in order: an answer for each, and none
/// besides.
pub proof fn every_record_is_decoded<T, D: Fn(&str) -> Option<T>>(
    decode: D,
    records: Seq<Seq<char>>,
    values: Seq<Option<T>>,
    record: Seq<char>,
    value: Option<T>,
)
    ensures
        decodes(decode, records.push(record), values.push(value)) <==> decodes(
            decode,
            records,
            values,
        ) && decodes_to(decode, record, value),
        decodes(decode, Seq::empty(), values) <==> values.len() == 0,
{
    let rs = records.push(record);
    let vs = values.push(value);
    let n = records.len() as int;
    if decodes(decode, rs, vs) {
        assert(decodes_to(decode, rs[n], vs[n]));
        assert forall|i: int| 0 <= i < n implies decodes_to(
            decode,
            #[trigger] records[i],
            values[i],
        ) by {
            assert(rs[i] == records[i]);
        }
    }
    if decodes(decode, records, values) && decodes_to(decode, record, value) {
        assert forall|i: int| 0 <= i < rs.len() implies decodes_to(
            decode,
            #[trigger] rs[i],
            vs[i],
        ) by {
            if i < n {
                assert(rs[i] == records[i]);
            }
        }
    }
}

/// A decoder is handed the record as it stands, and its answer is taken as it stands.
pub proof fn a_decoder_is_handed_the_record<T, D: Fn(&str) -> Option<T>>(
    decode: D,
    s: &str,
    value: Option<T>,
)
    ensures
        call_ensures(decode, (s,), value) ==> decodes_to(decode, s@, value),
        decodes_to(decode, s@, value) ==> exists|t: &str|
            t@ == s@ && #[trigger] call_ensures(decode, (t,), value),
{
}

} // verus!
