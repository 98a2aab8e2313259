//! Facts about sequences that are built up one element at a time.

use vstd::prelude::*;

verus! {

/// Keeping what satisfies `p` of no elements gives no elements.
pub proof fn lemma_filter_none<A>(s: Seq<A>, p: spec_fn(A) -> bool)
    ensures
        s.take(0).filter(p) == Seq::<A>::empty(),
{
    reveal(Seq::filter);
    assert(s.take(0) =~= Seq::<A>::empty());
}

/// Keeping what satisfies `p`, one element further.
pub proof fn lemma_filter_step<A>(s: Seq<A>, p: spec_fn(A) -> bool, i: int)
    requires
        0 <= i < s.len(),
    ensures
        p(s[i]) ==> s.take(i + 1).filter(p) == s.take(i).filter(p).push(s[i]),
        !p(s[i]) ==> s.take(i + 1).filter(p) == s.take(i).filter(p),
{
    broadcast use Seq::lemma_filter_push;

    assert(s.take(i + 1) =~= s.take(i).push(s[i]));
}

/// What two sequences in a row map to is what each of them maps to.
pub proof fn lemma_filter_map_add<A, B>(a: Seq<A>, b: Seq<A>, f: spec_fn(A) -> Option<B>)
    ensures
        (a + b).filter_map(f) == a.filter_map(f) + b.filter_map(f),
    decreases b.len(),
{
    let s = a + b;
    if b.len() == 0 {
        assert(s =~= a);
        assert(b.filter_map(f) =~= Seq::<B>::empty());
        assert(a.filter_map(f) + b.filter_map(f) =~= a.filter_map(f));
    } else {
        let k = b.len() - 1;
        lemma_filter_map_add(a, b.take(k), f);
        assert(s.take(s.len() - 1) =~= a + b.take(k));
        assert(s.take(s.len() as int) =~= s);
        assert(b.take(k + 1) =~= b);
        s.lemma_filter_map_take_succ(f, s.len() - 1);
        b.lemma_filter_map_take_succ(f, k);
    }
}

/// An element that maps to nothing makes no difference.
pub proof fn lemma_filter_map_skips<A, B>(a: Seq<A>, x: A, b: Seq<A>, f: spec_fn(A) -> Option<B>)
    requires
        f(x) is None,
    ensures
        (a.push(x) + b).filter_map(f) == (a + b).filter_map(f),
{
    lemma_filter_map_add(a.push(x), b, f);
    lemma_filter_map_add(a, b, f);
    lemma_filter_map_add(a, seq![x], f);
    Seq::lemma_filter_map_singleton(x, f);
    assert(a + seq![x] =~= a.push(x));
    assert(a.filter_map(f) + Seq::<B>::empty() =~= a.filter_map(f));
}

/// Sequences whose elements map to the same, one by one, map to the same.
pub proof fn lemma_filter_map_same<A, B, C>(
    a: Seq<A>,
    f: spec_fn(A) -> Option<C>,
    b: Seq<B>,
    g: spec_fn(B) -> Option<C>,
)
    requires
        a.len() == b.len(),
        forall|i: int| 0 <= i < a.len() ==> f(#[trigger] a[i]) == g(b[i]),
    ensures
        a.filter_map(f) == b.filter_map(g),
    decreases a.len(),
{
    if a.len() == 0 {
        assert(a.filter_map(f) =~= b.filter_map(g));
    } else {
        let k = a.len() - 1;
        assert forall|i: int| 0 <= i < k implies f(#[trigger] a.take(k)[i]) == g(b.take(k)[i]) by {
            assert(a.take(k)[i] == a[i]);
        }
        lemma_filter_map_same(a.take(k), f, b.take(k), g);
        a.lemma_filter_map_take_succ(f, k);
        b.lemma_filter_map_take_succ(g, k);
        lemma_take_all(a);
        lemma_take_all(b);
    }
}

/// Elements that all map to nothing give nothing.
pub proof fn lemma_filter_map_nothing<A, B>(a: Seq<A>, f: spec_fn(A) -> Option<B>)
    requires
        forall|i: int| 0 <= i < a.len() ==> f(#[trigger] a[i]) is None,
    ensures
        a.filter_map(f) == Seq::<B>::empty(),
    decreases a.len(),
{
    if a.len() > 0 {
        let k = a.len() - 1;
        assert forall|i: int| 0 <= i < k implies f(#[trigger] a.take(k)[i]) is None by {
            assert(a.take(k)[i] == a[i]);
        }
        lemma_filter_map_nothing(a.take(k), f);
        a.lemma_filter_map_take_succ(f, k);
        lemma_take_all(a);
    }
}

/// Elements that all map to nothing, put in anywhere, make no difference.
pub proof fn lemma_filter_map_drops<A, B>(
    a: Seq<A>,
    noise: Seq<A>,
    b: Seq<A>,
    f: spec_fn(A) -> Option<B>,
)
    requires
        forall|i: int| 0 <= i < noise.len() ==> f(#[trigger] noise[i]) is None,
    ensures
        (a + noise + b).filter_map(f) == (a + b).filter_map(f),
{
    lemma_filter_map_add(a + noise, b, f);
    lemma_filter_map_add(a, noise, f);
    lemma_filter_map_add(a, b, f);
    lemma_filter_map_nothing(noise, f);
    assert(a.filter_map(f) + Seq::<B>::empty() =~= a.filter_map(f));
}

/// Elements none of which satisfies `p`, put in anywhere, make no difference.
pub proof fn lemma_filter_drops<A>(a: Seq<A>, noise: Seq<A>, b: Seq<A>, p: spec_fn(A) -> bool)
    requires
        forall|i: int| 0 <= i < noise.len() ==> !p(#[trigger] noise[i]),
    ensures
        (a + noise + b).filter(p) == (a + b).filter(p),
{
    Seq::filter_distributes_over_add(a + noise, b, p);
    Seq::filter_distributes_over_add(a, noise, p);
    Seq::filter_distributes_over_add(a, b, p);
    if noise.filter(p).len() > 0 {
        noise.lemma_filter_pred(p, 0);
        assert(noise.filter(p).contains(noise.filter(p)[0]));
        noise.lemma_filter_contains_rev(p, noise.filter(p)[0]);
    }
    assert(noise.filter(p) =~= Seq::<A>::empty());
    assert(a.filter(p) + Seq::<A>::empty() =~= a.filter(p));
}

/// What a sequence maps to, as far as it satisfies `p`, is what those elements map to
/// whose image satisfies `p`.
pub proof fn lemma_filter_of_filter_map<A, B>(
    s: Seq<A>,
    f: spec_fn(A) -> Option<B>,
    p: spec_fn(B) -> bool,
    q: spec_fn(A) -> bool,
)
    requires
        forall|x: A| #[trigger] q(x) <==> f(x) is Some && p(f(x)->0),
    ensures
        s.filter_map(f).filter(p) == s.filter(q).filter_map(f),
    decreases s.len(),
{
    if s.len() == 0 {
        s.filter_map(f).lemma_filter_len(p);
        s.lemma_filter_len(q);
        assert(s.filter_map(f).filter(p) =~= s.filter(q).filter_map(f));
    } else {
        let k = s.len() - 1;
        let t = s.take(k);
        let x = s[k];
        lemma_take_all(s);
        lemma_filter_of_filter_map(t, f, p, q);
        lemma_filter_step(s, q, k);
        s.lemma_filter_map_take_succ(f, k);
        lemma_filter_map_add(t.filter(q), seq![x], f);
        Seq::lemma_filter_map_singleton(x, f);
        assert(t.filter(q) + seq![x] =~= t.filter(q).push(x));
        let done = t.filter_map(f);
        assert(done + Seq::<B>::empty() =~= done);
        if f(x) is Some {
            let y = f(x)->0;
            let more = done.push(y);
            assert(done + seq![y] =~= more);
            lemma_filter_step(more, p, done.len() as int);
            assert(more.take(done.len() as int) =~= done);
            lemma_take_all(more);
            assert(q(x) <==> p(y));
            assert(done.filter(p) + seq![y] =~= done.filter(p).push(y));
        } else {
            assert(!q(x));
        }
    }
}

/// An element that maps to something is represented.
pub proof fn lemma_filter_map_keeps<A, B>(s: Seq<A>, i: int, f: spec_fn(A) -> Option<B>)
    requires
        0 <= i < s.len(),
        f(s[i]) is Some,
    ensures
        s.filter_map(f).contains(f(s[i])->0),
{
    let x = f(s[i])->0;
    lemma_filter_map_add(s.take(i + 1), s.skip(i + 1), f);
    assert(s.take(i + 1) + s.skip(i + 1) =~= s);
    s.lemma_filter_map_take_succ(f, i);
    let k = s.take(i).filter_map(f).len() as int;
    assert(s.filter_map(f)[k] == x);
}

/// All elements of a sequence are the sequence.
pub proof fn lemma_take_all<A>(s: Seq<A>)
    ensures
        s.take(s.len() as int) == s,
{
    assert(s.take(s.len() as int) =~= s);
}

/// The first `n` elements, or all where there are fewer.
pub open spec fn first<A>(s: Seq<A>, n: nat) -> Seq<A> {
    if s.len() <= n {
        s
    } else {
        s.take(n as int)
    }
}

/// No elements give no text.
pub proof fn lemma_rows_none<A>(s: Seq<A>, f: spec_fn(A) -> Seq<char>)
    ensures
        s.take(0).flat_map(f) == Seq::<char>::empty(),
{
    assert(s.take(0).map_values(f) =~= Seq::<Seq<char>>::empty());
}

/// The text of a sequence of rows, one row further.
pub proof fn lemma_rows_step<A>(s: Seq<A>, f: spec_fn(A) -> Seq<char>, i: int)
    requires
        0 <= i < s.len(),
    ensures
        s.take(i + 1).flat_map(f) == s.take(i).flat_map(f) + f(s[i]),
{
    s.lemma_flat_map_take_append(f, i);
}

/// The distinct elements, in the order in which they first occur.
pub open spec fn distinct<A>(s: Seq<A>) -> Seq<A>
    decreases s.len(),
{
    if s.len() == 0 {
        s
    } else if distinct(s.drop_last()).contains(s.last()) {
        distinct(s.drop_last())
    } else {
        distinct(s.drop_last()).push(s.last())
    }
}

/// The distinct elements, one element further.
pub proof fn lemma_distinct_step<A>(s: Seq<A>, i: int)
    requires
        0 <= i < s.len(),
    ensures
        distinct(s.take(i + 1)) == if distinct(s.take(i)).contains(s[i]) {
            distinct(s.take(i))
        } else {
            distinct(s.take(i)).push(s[i])
        },
{
    assert(s.take(i + 1).drop_last() =~= s.take(i));
    assert(s.take(i + 1).last() == s[i]);
}

/// The distinct elements with one more element at the end.
pub proof fn lemma_distinct_push<A>(s: Seq<A>, x: A)
    ensures
        distinct(s.push(x)) == if distinct(s).contains(x) {
            distinct(s)
        } else {
            distinct(s).push(x)
        },
{
    assert(s.push(x).drop_last() =~= s);
}

/// There are as many distinct elements as the set of the elements has.
pub proof fn lemma_distinct_len<A>(s: Seq<A>)
    ensures
        distinct(s).len() == s.to_set().len(),
{
    lemma_distinct(s);
    distinct(s).unique_seq_to_set();
    assert forall|x: A| s.to_set().contains(x) <==> distinct(s).to_set().contains(x) by {
        assert(distinct(s).contains(x) <==> s.contains(x));
    }
    assert(s.to_set() =~= distinct(s).to_set());
}

/// The distinct elements of a sequence are its elements, each of them once.
pub proof fn lemma_distinct<A>(s: Seq<A>)
    ensures
        distinct(s).no_duplicates(),
        distinct(s).len() <= s.len(),
        forall|x: A| #[trigger] distinct(s).contains(x) <==> s.contains(x),
    decreases s.len(),
{
    if s.len() > 0 {
        let t = s.drop_last();
        lemma_distinct(t);
        assert(s =~= t.push(s.last()));
        let d = distinct(t);
        assert forall|x: A| #[trigger] distinct(s).contains(x) <==> s.contains(x) by {
            assert(d.contains(x) <==> t.contains(x));
            broadcast use vstd::seq_lib::group_seq_properties;

            assert(s.contains(x) <==> t.contains(x) || x == s.last());
            assert(d.push(s.last()).contains(x) <==> d.contains(x) || x == s.last());
        }
    }
}

/// The distinct elements come in the order in which they first occur: what the
/// beginning of a sequence has of them comes first.
pub proof fn distinct_elements_keep_their_order<A>(s: Seq<A>, k: int)
    requires
        0 <= k <= s.len(),
    ensures
        distinct(s.take(k)).is_prefix_of(distinct(s)),
    decreases s.len() - k,
{
    if k == s.len() {
        lemma_take_all(s);
        assert(distinct(s).subrange(0, distinct(s).len() as int) =~= distinct(s));
    } else {
        let now = distinct(s.take(k));
        let next = distinct(s.take(k + 1));
        distinct_elements_keep_their_order(s, k + 1);
        lemma_distinct_step(s, k);
        assert(next.subrange(0, now.len() as int) =~= now);
        assert(distinct(s).subrange(0, now.len() as int) =~= now) by {
            assert forall|i: int| 0 <= i < now.len() implies distinct(s)[i] == now[i] by {
                assert(distinct(s).subrange(0, next.len() as int)[i] == next[i]);
            }
        }
    }
}

/// Keeping what satisfies `p` keeps every occurrence of an element that does.
proof fn lemma_filter_count<A>(s: Seq<A>, p: spec_fn(A) -> bool, x: A)
    requires
        p(x),
    ensures
        s.filter(p).to_multiset().count(x) == s.to_multiset().count(x),
    decreases s.len(),
{
    if s.len() == 0 {
        s.lemma_filter_len(p);
        assert(s.filter(p) =~= s);
    } else {
        let k = s.len() - 1;
        let t = s.take(k);
        lemma_filter_count(t, p, x);
        lemma_filter_step(s, p, k);
        lemma_take_all(s);
        assert(t.push(s[k]) =~= s);
        vstd::seq_lib::to_multiset_build(t, s[k]);
        vstd::seq_lib::to_multiset_build(t.filter(p), s[k]);
    }
}

/// The elements with the given key, as a predicate.
pub open spec fn with_key<A, K>(key: spec_fn(A) -> K, k: K) -> spec_fn(A) -> bool {
    |x: A| key(x) == k
}

/// The elements with the given key, in their order.
pub open spec fn group<A, K>(s: Seq<A>, key: spec_fn(A) -> K, k: K) -> Seq<A> {
    s.filter(with_key(key, k))
}

/// Sequences that have the same elements under each key, in the same order, are
/// equally long.
pub proof fn lemma_same_groups_same_len<A, K>(a: Seq<A>, b: Seq<A>, key: spec_fn(A) -> K)
    requires
        forall|k: K| #[trigger] group(a, key, k) == group(b, key, k),
    ensures
        a.len() == b.len(),
{
    assert forall|x: A| a.to_multiset().count(x) == b.to_multiset().count(x) by {
        let p = with_key(key, key(x));
        lemma_filter_count(a, p, x);
        lemma_filter_count(b, p, x);
        assert(group(a, key, key(x)) == group(b, key, key(x)));
    }
    assert(a.to_multiset() =~= b.to_multiset());
    vstd::seq_lib::to_multiset_len(a);
    vstd::seq_lib::to_multiset_len(b);
}

/// As many keys are equal to `k` as there are elements under `k`.
pub proof fn lemma_group_len<A, K>(s: Seq<A>, key: spec_fn(A) -> K, k: K, p: spec_fn(K) -> bool)
    requires
        forall|x: K| #[trigger] p(x) <==> x == k,
    ensures
        s.map_values(key).filter(p).len() == group(s, key, k).len(),
    decreases s.len(),
{
    let q = with_key(key, k);
    let keys = s.map_values(key);
    if s.len() == 0 {
        keys.lemma_filter_len(p);
        s.lemma_filter_len(q);
    } else {
        let n = s.len() - 1;
        lemma_group_len(s.take(n), key, k, p);
        assert(s.take(n).map_values(key) =~= keys.take(n));
        lemma_filter_step(keys, p, n);
        lemma_filter_step(s, q, n);
        lemma_take_all(s);
        lemma_take_all(keys);
    }
}

/// The first elements are a beginning of the sequence, as long as is allowed.
pub proof fn first_elements_are_a_beginning<A>(s: Seq<A>, n: nat)
    ensures
        first(s, n).is_prefix_of(s),
        first(s, n).len() == if s.len() < n {
            s.len()
        } else {
            n
        },
{
    assert(first(s, n) =~= s.subrange(0, first(s, n).len() as int));
}

} // verus!
