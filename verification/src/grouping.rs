//! Grouping a sequence by an integer key, keeping the order within each
//! group: the model of a stable bucket sort, and the proof that it only
//! rearranges.

use vstd::multiset::Multiset;
use vstd::prelude::*;
use vstd::seq_lib::{lemma_multiset_commutative, to_multiset_build};

verus! {

/// The items whose key is `c`.
pub open spec fn with_key<A>(key: spec_fn(A) -> int, c: int) -> spec_fn(A) -> bool {
    |x: A| key(x) == c
}

/// The items whose key is one of `0 .. c`.
pub open spec fn below_key<A>(key: spec_fn(A) -> int, c: int) -> spec_fn(A) -> bool {
    |x: A| 0 <= key(x) < c
}

/// The items of `s` with key 0 in their order in `s`, then those with key
/// 1, and so on up to key `c - 1`.
pub open spec fn grouped<A>(s: Seq<A>, key: spec_fn(A) -> int, c: int) -> Seq<A>
    decreases c,
{
    if c <= 0 {
        Seq::empty()
    } else {
        grouped(s, key, c - 1) + s.filter(with_key(key, c - 1))
    }
}

/// Filtering by either of two conditions that exclude each other keeps what
/// the two filters keep together.
pub proof fn lemma_filter_split<A>(
    s: Seq<A>,
    f: spec_fn(A) -> bool,
    g: spec_fn(A) -> bool,
    h: spec_fn(A) -> bool,
)
    requires
        forall|x: A| #[trigger] h(x) == (f(x) || g(x)),
        forall|x: A| !(#[trigger] f(x) && g(x)),
    ensures
        s.filter(h).to_multiset() =~= s.filter(f).to_multiset().add(s.filter(g).to_multiset()),
    decreases s.len(),
{
    broadcast use vstd::multiset::group_multiset_axioms;

    reveal(Seq::filter);
    if s.len() == 0 {
        assert(s.filter(h) =~= Seq::<A>::empty());
        assert(s.filter(f) =~= Seq::<A>::empty());
        assert(s.filter(g) =~= Seq::<A>::empty());
        Seq::<A>::empty().to_multiset_ensures();
        assert(Seq::<A>::empty().to_multiset().len() == 0);
        assert(Seq::<A>::empty().to_multiset() =~= Multiset::<A>::empty());
    } else {
        let t = s.drop_last();
        let x = s.last();
        lemma_filter_split(t, f, g, h);
        to_multiset_build(t.filter(h), x);
        to_multiset_build(t.filter(f), x);
        to_multiset_build(t.filter(g), x);
        assert(h(x) == (f(x) || g(x)));
        assert(!(f(x) && g(x)));
    }
}

/// A filter that every item passes keeps the sequence.
pub proof fn lemma_filter_all<A>(s: Seq<A>, f: spec_fn(A) -> bool)
    requires
        forall|i: int| 0 <= i < s.len() ==> f(#[trigger] s[i]),
    ensures
        s.filter(f) == s,
    decreases s.len(),
{
    reveal(Seq::filter);
    if s.len() > 0 {
        let t = s.drop_last();
        assert forall|i: int| 0 <= i < t.len() implies f(#[trigger] t[i]) by {
            assert(t[i] == s[i]);
        }
        lemma_filter_all(t, f);
        assert(f(s[s.len() - 1]));
        assert(t.push(s.last()) =~= s);
    }
}

/// A filter that no item passes keeps nothing.
pub proof fn lemma_filter_none<A>(s: Seq<A>, f: spec_fn(A) -> bool)
    requires
        forall|i: int| 0 <= i < s.len() ==> !f(#[trigger] s[i]),
    ensures
        s.filter(f) == Seq::<A>::empty(),
    decreases s.len(),
{
    reveal(Seq::filter);
    if s.len() > 0 {
        let t = s.drop_last();
        assert forall|i: int| 0 <= i < t.len() implies !f(#[trigger] t[i]) by {
            assert(t[i] == s[i]);
        }
        lemma_filter_none(t, f);
        assert(!f(s[s.len() - 1]));
    }
}

/// Grouping up to key `c` holds exactly the items with a key in `0 .. c`,
/// each as often as `s` does.
pub proof fn lemma_grouped_multiset<A>(s: Seq<A>, key: spec_fn(A) -> int, c: int)
    requires
        0 <= c,
    ensures
        grouped(s, key, c).to_multiset() =~= s.filter(below_key(key, c)).to_multiset(),
    decreases c,
{
    if c == 0 {
        assert forall|i: int| 0 <= i < s.len() implies !below_key(key, 0)(#[trigger] s[i]) by {}
        lemma_filter_none(s, below_key(key, 0));
    } else {
        lemma_grouped_multiset(s, key, c - 1);
        lemma_filter_split(s, below_key(key, c - 1), with_key(key, c - 1), below_key(key, c));
        lemma_multiset_commutative(grouped(s, key, c - 1), s.filter(with_key(key, c - 1)));
    }
}

/// Where every key is one of `0 .. c`, grouping only rearranges: the
/// result holds each item as often as `s` does, and is as long.
pub proof fn lemma_grouped_permutes<A>(s: Seq<A>, key: spec_fn(A) -> int, c: int)
    requires
        0 <= c,
        forall|i: int| 0 <= i < s.len() ==> 0 <= key(#[trigger] s[i]) < c,
    ensures
        grouped(s, key, c).to_multiset() =~= s.to_multiset(),
        grouped(s, key, c).len() == s.len(),
{
    lemma_grouped_multiset(s, key, c);
    assert forall|i: int| 0 <= i < s.len() implies below_key(key, c)(#[trigger] s[i]) by {}
    lemma_filter_all(s, below_key(key, c));
    vstd::seq_lib::to_multiset_len(grouped(s, key, c));
    vstd::seq_lib::to_multiset_len(s);
}

/// Grouping up to a later key extends grouping up to an earlier one.
pub proof fn lemma_grouped_prefix<A>(s: Seq<A>, key: spec_fn(A) -> int, c: int, d: int)
    requires
        0 <= c <= d,
    ensures
        grouped(s, key, c).len() <= grouped(s, key, d).len(),
        grouped(s, key, d).subrange(0, grouped(s, key, c).len() as int) =~= grouped(s, key, c),
    decreases d - c,
{
    if c < d {
        lemma_grouped_prefix(s, key, c, d - 1);
    }
}

/// What a filter keeps comes from the sequence it filtered.
pub proof fn lemma_filter_member<A>(s: Seq<A>, f: spec_fn(A) -> bool, x: A)
    requires
        s.filter(f).contains(x),
    ensures
        s.contains(x),
    decreases s.len(),
{
    reveal(Seq::filter);
    if s.len() > 0 {
        let t = s.drop_last();
        let i = choose|i: int| 0 <= i < s.filter(f).len() && s.filter(f)[i] == x;
        if f(s.last()) && i == t.filter(f).len() {
            assert(s[s.len() - 1] == x);
        } else {
            assert(t.filter(f)[i] == x);
            lemma_filter_member(t, f, x);
            let j = choose|j: int| 0 <= j < t.len() && t[j] == x;
            assert(s[j] == x);
        }
    }
}

/// Every item of a grouping is an item of the sequence that was grouped.
pub proof fn lemma_grouped_member<A>(s: Seq<A>, key: spec_fn(A) -> int, m: int, k: int)
    requires
        0 <= m,
        0 <= k < grouped(s, key, m).len(),
    ensures
        s.contains(grouped(s, key, m)[k]),
    decreases m,
{
    if m > 0 {
        let head = grouped(s, key, m - 1);
        if k < head.len() {
            lemma_grouped_member(s, key, m - 1, k);
        } else {
            let run = s.filter(with_key(key, m - 1));
            assert(run[k - head.len()] == grouped(s, key, m)[k]);
            lemma_filter_member(s, with_key(key, m - 1), run[k - head.len()]);
        }
    }
}

/// The items of key `c` stand in the grouping from where the grouping up to
/// `c` ends, in their order in `s`.
pub proof fn lemma_grouped_run<A>(s: Seq<A>, key: spec_fn(A) -> int, m: int, c: int, r: int)
    requires
        0 <= c < m,
        0 <= r < s.filter(with_key(key, c)).len(),
    ensures
        grouped(s, key, c).len() + r < grouped(s, key, c + 1).len() <= grouped(s, key, m).len(),
        grouped(s, key, m)[grouped(s, key, c).len() + r] == s.filter(with_key(key, c))[r],
        key(s.filter(with_key(key, c))[r]) == c,
{
    lemma_grouped_prefix(s, key, c + 1, m);
    let upto = grouped(s, key, c + 1);
    let k = grouped(s, key, c).len() + r;
    assert(grouped(s, key, m).subrange(0, upto.len() as int)[k] == grouped(s, key, m)[k]);
    s.lemma_filter_pred(with_key(key, c), r);
}

} // verus!
