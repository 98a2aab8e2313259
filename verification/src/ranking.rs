//! Ranking rules by how often they occur.

use crate::seqs;
use crate::text;
use vstd::prelude::*;

verus! {

/// The order of texts by their characters, a text before its extensions.
pub open spec fn text_le(a: Seq<char>, b: Seq<char>) -> bool
    decreases a.len(),
{
    a.len() == 0 || (b.len() > 0 && (a[0] < b[0] || (a[0] == b[0] && text_le(a.skip(1), b.skip(1)))))
}

proof fn lemma_text_le_reflexive(a: Seq<char>)
    ensures
        text_le(a, a),
    decreases a.len(),
{
    if a.len() > 0 {
        lemma_text_le_reflexive(a.skip(1));
    }
}

proof fn lemma_text_le_antisymmetric(a: Seq<char>, b: Seq<char>)
    requires
        text_le(a, b),
        text_le(b, a),
    ensures
        a == b,
    decreases a.len(),
{
    if a.len() == 0 {
        assert(a =~= b);
    } else {
        lemma_text_le_antisymmetric(a.skip(1), b.skip(1));
        assert(a =~= seq![a[0]] + a.skip(1));
        assert(b =~= seq![b[0]] + b.skip(1));
    }
}

proof fn lemma_text_le_transitive(a: Seq<char>, b: Seq<char>, c: Seq<char>)
    requires
        text_le(a, b),
        text_le(b, c),
    ensures
        text_le(a, c),
    decreases a.len(),
{
    if a.len() > 0 && a[0] == b[0] && b[0] == c[0] {
        lemma_text_le_transitive(a.skip(1), b.skip(1), c.skip(1));
    }
}

proof fn lemma_text_le_total(a: Seq<char>, b: Seq<char>)
    ensures
        text_le(a, b) || text_le(b, a),
    decreases a.len(),
{
    if a.len() > 0 && b.len() > 0 {
        lemma_text_le_total(a.skip(1), b.skip(1));
    }
}

/// Whether `a` comes before `b`, or is `b`.
pub fn text_not_after(a: &str, b: &str) -> (r: bool)
    ensures
        r == text_le(a@, b@),
{
    let x = text::chars(a);
    let y = text::chars(b);
    let mut i: usize = 0;
    assert(x@.skip(0) =~= x@);
    assert(y@.skip(0) =~= y@);
    while i < x.len() && i < y.len() && x[i] == y[i]
        invariant
            x@ == a@,
            y@ == b@,
            i <= x@.len(),
            i <= y@.len(),
            text_le(a@, b@) == text_le(x@.skip(i as int), y@.skip(i as int)),
        decreases x@.len() - i,
    {
        assert(x@.skip(i as int).skip(1) =~= x@.skip(i + 1));
        assert(y@.skip(i as int).skip(1) =~= y@.skip(i + 1));
        i += 1;
    }
    i == x.len() || (i < y.len() && x[i] < y[i])
}

/// The texts equal to `rule`, as a predicate.
pub open spec fn is_rule(rule: Seq<char>) -> spec_fn(Seq<char>) -> bool {
    |k: Seq<char>| k == rule
}

/// How often a rule occurs.
pub open spec fn occurrences(keys: Seq<Seq<char>>, rule: Seq<char>) -> nat {
    keys.filter(is_rule(rule)).len()
}

/// The order in which rules are reported: the more frequent first, rules of the
/// same frequency by name.
pub open spec fn rank(keys: Seq<Seq<char>>) -> spec_fn(Seq<char>, Seq<char>) -> bool {
    |a: Seq<char>, b: Seq<char>|
        occurrences(keys, a) > occurrences(keys, b) || (occurrences(keys, a) == occurrences(keys, b)
            && text_le(a, b))
}

/// The rules that occur, each once, in reporting order.
pub open spec fn ranked(keys: Seq<Seq<char>>) -> Seq<Seq<char>> {
    seqs::distinct(keys).sort_by(rank(keys))
}

/// The reporting order is a total order.
pub proof fn lemma_rank_total(keys: Seq<Seq<char>>)
    ensures
        vstd::relations::total_ordering(rank(keys)),
{
    let r = rank(keys);
    assert forall|x: Seq<char>| #[trigger] r(x, x) by {
        lemma_text_le_reflexive(x);
    }
    assert forall|x: Seq<char>, y: Seq<char>| #[trigger] r(x, y) && #[trigger] r(y, x) implies x
        == y by {
        lemma_text_le_antisymmetric(x, y);
    }
    assert forall|x: Seq<char>, y: Seq<char>, z: Seq<char>| #[trigger]
        r(x, y) && #[trigger] r(y, z) implies r(x, z) by {
        if occurrences(keys, x) == occurrences(keys, y) && occurrences(keys, y) == occurrences(
            keys,
            z,
        ) {
            lemma_text_le_transitive(x, y, z);
        }
    }
    assert forall|x: Seq<char>, y: Seq<char>| #[trigger] r(x, y) || #[trigger] r(y, x) by {
        lemma_text_le_total(x, y);
    }
}

/// Any arrangement of the distinct rules that respects the reporting order is
/// the ranking.
pub proof fn lemma_ranked_unique(keys: Seq<Seq<char>>, s: Seq<Seq<char>>)
    requires
        vstd::relations::sorted_by(s, rank(keys)),
        s.to_multiset() == seqs::distinct(keys).to_multiset(),
    ensures
        s == ranked(keys),
{
    lemma_rank_total(keys);
    seqs::distinct(keys).lemma_sort_by_ensures(rank(keys));
    vstd::seq_lib::lemma_sorted_unique(s, ranked(keys), rank(keys));
}

/// The ranking lists each rule that occurs exactly once, and a rule never comes
/// before a more frequent one, nor before one of the same frequency with a lesser
/// name.
pub proof fn ranking_is_ordered(keys: Seq<Seq<char>>)
    ensures
        ranked(keys).no_duplicates(),
        forall|k: Seq<char>| ranked(keys).contains(k) <==> keys.contains(k),
        forall|i: int, j: int|
            0 <= i < j < ranked(keys).len() ==> {
                let a = #[trigger] ranked(keys)[i];
                let b = #[trigger] ranked(keys)[j];
                ||| occurrences(keys, a) > occurrences(keys, b)
                ||| occurrences(keys, a) == occurrences(keys, b) && text_le(a, b)
            },
{
    let d = seqs::distinct(keys);
    let s = ranked(keys);
    lemma_rank_total(keys);
    d.lemma_sort_by_ensures(rank(keys));
    seqs::lemma_distinct(keys);
    d.lemma_multiset_has_no_duplicates();
    s.lemma_multiset_has_no_duplicates_conv();
    d.to_multiset_ensures();
    s.to_multiset_ensures();
    assert forall|k: Seq<char>| s.contains(k) <==> keys.contains(k) by {
        assert(d.contains(k) <==> d.to_multiset().count(k) > 0);
        assert(s.contains(k) <==> s.to_multiset().count(k) > 0);
    }
    assert forall|i: int, j: int| 0 <= i < j < s.len() implies ({
        let a = #[trigger] s[i];
        let b = #[trigger] s[j];
        ||| occurrences(keys, a) > occurrences(keys, b)
        ||| occurrences(keys, a) == occurrences(keys, b) && text_le(a, b)
    }) by {
        assert(rank(keys)(s[i], s[j]));
    }
}

/// A rule occurs where it is counted.
proof fn lemma_occurs(keys: Seq<Seq<char>>, k: Seq<char>)
    ensures
        keys.contains(k) <==> occurrences(keys, k) > 0,
{
    let p = is_rule(k);
    let kept = keys.filter(p);
    if keys.contains(k) {
        keys.lemma_filter_contains(p, keys.index_of(k));
        assert(kept.contains(k));
    }
    if kept.len() > 0 {
        keys.lemma_filter_pred(p, 0);
        assert(kept.contains(kept[0]));
        keys.lemma_filter_contains_rev(p, kept[0]);
    }
}

/// The ranking depends on how often each rule occurs, not on where.
pub proof fn ranking_depends_on_counts(a: Seq<Seq<char>>, b: Seq<Seq<char>>)
    requires
        forall|k: Seq<char>| #[trigger] occurrences(a, k) == occurrences(b, k),
    ensures
        ranked(a) == ranked(b),
{
    let x = seqs::distinct(a);
    let y = seqs::distinct(b);
    assert(rank(a) =~= rank(b));
    seqs::lemma_distinct(a);
    seqs::lemma_distinct(b);
    x.lemma_multiset_has_no_duplicates();
    y.lemma_multiset_has_no_duplicates();
    x.to_multiset_ensures();
    y.to_multiset_ensures();
    assert forall|k: Seq<char>| x.to_multiset().count(k) == y.to_multiset().count(k) by {
        lemma_occurs(a, k);
        lemma_occurs(b, k);
        assert(occurrences(a, k) == occurrences(b, k));
        assert(x.contains(k) <==> a.contains(k));
        assert(y.contains(k) <==> b.contains(k));
        assert(x.contains(k) <==> x.to_multiset().count(k) > 0);
        assert(y.contains(k) <==> y.to_multiset().count(k) > 0);
        assert(x.to_multiset().contains(k) ==> x.to_multiset().count(k) == 1);
        assert(y.to_multiset().contains(k) ==> y.to_multiset().count(k) == 1);
    }
    assert(x.to_multiset() =~= y.to_multiset());
    lemma_rank_total(a);
    x.lemma_sort_by_ensures(rank(a));
    lemma_ranked_unique(b, ranked(a));
}

/// A rule and how often it occurs.
pub struct Counted {
    pub rule: String,
    pub count: usize,
}

/// The rules of a sequence of counted rules.
pub open spec fn rules(v: Seq<Counted>) -> Seq<Seq<char>> {
    v.map_values(|c: Counted| c.rule@)
}

/// Each count is the number of occurrences of its rule.
pub open spec fn counts_right(v: Seq<Counted>, keys: Seq<Seq<char>>) -> bool {
    forall|i: int| 0 <= i < v.len() ==> (#[trigger] v[i]).count == occurrences(keys, v[i].rule@)
}

/// Counts the occurrences of a rule.
pub fn count(keys: &Vec<String>, rule: &str) -> (r: usize)
    ensures
        r == occurrences(text::texts(keys@), rule@),
{
    let mut n: usize = 0;
    let ghost all = text::texts(keys@);
    let ghost p = is_rule(rule@);
    proof {
        seqs::lemma_filter_none(all, p);
    }
    for i in 0..keys.len()
        invariant
            all == text::texts(keys@),
            p == is_rule(rule@),
            n == all.take(i as int).filter(p).len(),
            n <= i,
    {
        proof {
            seqs::lemma_filter_step(all, p, i as int);
        }
        if text::same_text(keys[i].as_str(), rule) {
            n += 1;
        }
    }
    proof {
        seqs::lemma_take_all(all);
    }
    n
}

/// Whether a counted rule is reported no later than another.
fn ranks_before(a: &Counted, b: &Counted, Ghost(keys): Ghost<Seq<Seq<char>>>) -> (r: bool)
    requires
        a.count == occurrences(keys, a.rule@),
        b.count == occurrences(keys, b.rule@),
    ensures
        r == rank(keys)(a.rule@, b.rule@),
{
    a.count > b.count || (a.count == b.count && text_not_after(a.rule.as_str(), b.rule.as_str()))
}

/// Ranks the rules that occur and counts their occurrences.
#[verifier::rlimit(50)]
pub fn rank_rules(keys: &Vec<String>) -> (r: Vec<Counted>)
    ensures
        rules(r@) == ranked(text::texts(keys@)),
        counts_right(r@, text::texts(keys@)),
{
    let ghost all = text::texts(keys@);
    let found = text::distinct_texts(keys);
    let ghost d = text::texts(found@);
    let mut out: Vec<Counted> = Vec::new();
    proof {
        lemma_rank_total(all);
        assert(rules(out@) =~= d.take(0));
    }
    for i in 0..found.len()
        invariant
            all == text::texts(keys@),
            d == text::texts(found@),
            vstd::relations::total_ordering(rank(all)),
            counts_right(out@, all),
            vstd::relations::sorted_by(rules(out@), rank(all)),
            rules(out@).to_multiset() == d.take(i as int).to_multiset(),
    {
        let rule = found[i].clone();
        let n: usize = count(keys, rule.as_str());
        let item = Counted { rule, count: n };
        let mut at: usize = 0;
        while at < out.len() && ranks_before(&out[at], &item, Ghost(all))
            invariant
                counts_right(out@, all),
                item.count == occurrences(all, item.rule@),
                at <= out@.len(),
                forall|j: int| 0 <= j < at ==> #[trigger] rank(all)(rules(out@)[j], item.rule@),
            ensures
                at <= out@.len(),
                forall|j: int| 0 <= j < at ==> #[trigger] rank(all)(rules(out@)[j], item.rule@),
                at < out@.len() ==> !rank(all)(rules(out@)[at as int], item.rule@),
            decreases out@.len() - at,
        {
            at += 1;
        }
        let ghost before = rules(out@);
        proof {
            assert forall|j: int| at <= j < before.len() implies #[trigger] rank(all)(
                item.rule@,
                before[j],
            ) by {
                assert(rank(all)(item.rule@, before[at as int]));
                if j > at {
                    assert(rank(all)(before[at as int], before[j]));
                }
            }
            before.insert_ensures(at as int, item.rule@);
            before.to_multiset_ensures();
            d.take(i as int).to_multiset_ensures();
            assert(d.take(i + 1) =~= d.take(i as int).push(item.rule@));
            vstd::seq_lib::to_multiset_insert(before, at as int, item.rule@);
            vstd::seq_lib::to_multiset_build(d.take(i as int), item.rule@);
        }
        let ghost old_out = out@;
        out.insert(at, item);
        proof {
            assert(rules(out@) =~= before.insert(at as int, item.rule@));
            assert(counts_right(out@, all)) by {
                assert forall|j: int| 0 <= j < out@.len() implies (#[trigger] out@[j]).count
                    == occurrences(all, out@[j].rule@) by {
                    if j < at {
                        assert(out@[j] == old_out[j]);
                    } else if j > at {
                        assert(out@[j] == old_out[j - 1]);
                    }
                }
            }
            let now = rules(out@);
            assert forall|x: int, y: int| 0 <= x < y < now.len() implies #[trigger] rank(all)(
                now[x],
                now[y],
            ) by {
                let xo = if x < at { x } else { x - 1 };
                let yo = if y < at { y } else { y - 1 };
                if x != at {
                    assert(now[x] == before[xo]);
                }
                if y != at {
                    assert(now[y] == before[yo]);
                }
            }
        }
    }
    proof {
        seqs::lemma_take_all(d);
        lemma_ranked_unique(all, rules(out@));
    }
    out
}

/// The ranking lists the rules that occur by how often they occur: a rule that is
/// listed earlier occurs at least as often as one that is listed later, and where the
/// two occur equally often its name is the lesser one.
pub proof fn frequent_rules_come_first(keys: Seq<Seq<char>>, i: int, j: int)
    requires
        0 <= i < j < ranked(keys).len(),
    ensures
        ({
            let a = ranked(keys)[i];
            let b = ranked(keys)[j];
            let often_a = keys.filter(|k: Seq<char>| k == a).len();
            let often_b = keys.filter(|k: Seq<char>| k == b).len();
            &&& often_a >= often_b > 0
            &&& often_a == often_b ==> text_le(a, b) && a != b
        }),
{
    let a = ranked(keys)[i];
    let b = ranked(keys)[j];
    ranking_is_ordered(keys);
    assert(is_rule(a) =~= (|k: Seq<char>| k == a));
    assert(is_rule(b) =~= (|k: Seq<char>| k == b));
    assert(ranked(keys).contains(b));
    lemma_occurs(keys, b);
}

/// Each rule that occurs is listed, and nothing else is.
pub proof fn occurring_rules_are_ranked(keys: Seq<Seq<char>>, k: Seq<char>)
    ensures
        ranked(keys).contains(k) <==> exists|i: int| 0 <= i < keys.len() && keys[i] == k,
        ranked(keys).no_duplicates(),
        ranked(keys).len() <= keys.len(),
{
    ranking_is_ordered(keys);
    seqs::lemma_distinct(keys);
    lemma_rank_total(keys);
    seqs::distinct(keys).lemma_sort_by_ensures(rank(keys));
    if keys.contains(k) {
        assert(keys[keys.index_of(k)] == k);
    }
    assert(ranked(keys).contains(k) <==> keys.contains(k));
    vstd::seq_lib::to_multiset_len(ranked(keys));
    vstd::seq_lib::to_multiset_len(seqs::distinct(keys));
}

/// The order of names is that of a dictionary: of two texts that differ, the lesser
/// one is a beginning of the other, or has the lesser character where they first
/// differ.
pub proof fn names_are_in_dictionary_order(a: Seq<char>, b: Seq<char>, k: int)
    requires
        0 <= k <= a.len(),
        k <= b.len(),
        a.take(k) == b.take(k),
        k == a.len() || k == b.len() || a[k] != b[k],
    ensures
        text_le(a, b) <==> k == a.len() || (k < b.len() && a[k] < b[k]),
    decreases k,
{
    if k > 0 {
        assert(a.take(k)[0] == a[0]);
        assert(b.take(k)[0] == b[0]);
        let x = a.skip(1);
        let y = b.skip(1);
        assert(x.take(k - 1) =~= a.take(k).skip(1));
        assert(y.take(k - 1) =~= b.take(k).skip(1));
        if k < a.len() && k < b.len() {
            assert(x[k - 1] == a[k]);
            assert(y[k - 1] == b[k]);
        }
        names_are_in_dictionary_order(x, y, k - 1);
    }
}

/// A rule occurs as often as it stands among the keys.
pub proof fn every_occurrence_counts(keys: Seq<Seq<char>>, key: Seq<char>, rule: Seq<char>)
    ensures
        occurrences(keys.push(key), rule) == occurrences(keys, rule) + if key == rule {
            1nat
        } else {
            0nat
        },
        occurrences(Seq::empty(), rule) == 0,
        occurrences(keys, rule) == keys.filter(|k: Seq<char>| k == rule).len(),
{
    let all = keys.push(key);
    let n = keys.len() as int;
    seqs::lemma_filter_step(all, is_rule(rule), n);
    assert(all.take(n) =~= keys);
    assert(all.take(n + 1) =~= all);
    Seq::<Seq<char>>::empty().lemma_filter_len(is_rule(rule));
    assert(is_rule(rule) =~= (|k: Seq<char>| k == rule));
}

} // verus!
