//! Spec-level helpers shared by the glued cloud and the summaries: joining a
//! sequence of sequences in order, and reading a list of (value, count) pairs
//! as a multiset.

use vstd::multiset::Multiset;
use vstd::prelude::*;

verus! {

broadcast use vstd::multiset::group_multiset_axioms;

/// All the inner sequences of `ss`, joined in the order supplied.
pub open spec fn concat_all<X>(ss: Seq<Seq<X>>) -> Seq<X>
    decreases ss.len(),
{
    if ss.len() == 0 {
        Seq::empty()
    } else {
        concat_all(ss.drop_last()) + ss.last()
    }
}

/// Index in the joined sequence at which inner sequence `k` begins.
pub open spec fn concat_offset<X>(ss: Seq<Seq<X>>, k: int) -> int {
    concat_all(ss.take(k)).len() as int
}

pub proof fn lemma_concat_take_succ<X>(ss: Seq<Seq<X>>, k: int)
    requires
        0 <= k < ss.len(),
    ensures
        concat_all(ss.take(k + 1)) == concat_all(ss.take(k)) + ss[k],
{
    assert(ss.take(k + 1).drop_last() =~= ss.take(k));
    assert(ss.take(k + 1).last() == ss[k]);
}

/// The join of a prefix is a prefix of the whole join.
pub proof fn lemma_concat_prefix<X>(ss: Seq<Seq<X>>, k: int)
    requires
        0 <= k <= ss.len(),
    ensures
        concat_all(ss.take(k)).len() <= concat_all(ss).len(),
        forall|x: int|
            0 <= x < concat_all(ss.take(k)).len() ==> concat_all(ss)[x] == concat_all(
                ss.take(k),
            )[x],
    decreases ss.len() - k,
{
    if k == ss.len() {
        assert(ss.take(k) =~= ss);
    } else {
        lemma_concat_take_succ(ss, k);
        lemma_concat_prefix(ss, k + 1);
    }
}

/// Element `j` of inner sequence `k` sits at `concat_offset(ss, k) + j` in the join.
pub proof fn lemma_concat_index<X>(ss: Seq<Seq<X>>, k: int, j: int)
    requires
        0 <= k < ss.len(),
        0 <= j < ss[k].len(),
    ensures
        0 <= concat_offset(ss, k),
        concat_offset(ss, k) + j < concat_all(ss).len(),
        concat_all(ss)[concat_offset(ss, k) + j] == ss[k][j],
{
    lemma_concat_take_succ(ss, k);
    lemma_concat_prefix(ss, k + 1);
}

/// The join is empty exactly when every inner sequence is.
pub proof fn lemma_concat_all_empty<X>(ss: Seq<Seq<X>>)
    ensures
        (concat_all(ss).len() == 0) <==> (forall|k: int|
            0 <= k < ss.len() ==> ss[k].len() == 0),
    decreases ss.len(),
{
    if ss.len() > 0 {
        lemma_concat_all_empty(ss.drop_last());
        assert(forall|k: int|
            0 <= k < ss.len() - 1 ==> ss.drop_last()[k] == ss[k]);
        if concat_all(ss).len() == 0 {
            assert(forall|k: int| 0 <= k < ss.len() ==> ss[k].len() == 0) by {
                assert(ss[ss.len() - 1] == ss.last());
            }
        }
    }
}

/// A multiset holding `n` copies of `v`.
pub open spec fn copies<V>(v: V, n: nat) -> Multiset<V>
    decreases n,
{
    if n == 0 {
        Multiset::empty()
    } else {
        copies(v, (n - 1) as nat).insert(v)
    }
}

pub proof fn lemma_copies_count<V>(v: V, n: nat, w: V)
    ensures
        copies(v, n).count(w) == if w == v {
            n
        } else {
            0nat
        },
        copies(v, n).len() == n,
    decreases n,
{
    if n > 0 {
        lemma_copies_count(v, (n - 1) as nat, w);
        lemma_copies_count(v, (n - 1) as nat, v);
    }
}

pub proof fn lemma_copies_add<V>(v: V, a: nat, b: nat)
    ensures
        copies(v, a + b) == copies(v, a).add(copies(v, b)),
{
    assert forall|w: V| copies(v, a + b).count(w) == copies(v, a).add(copies(v, b)).count(
        w,
    ) by {
        lemma_copies_count(v, a + b, w);
        lemma_copies_count(v, a, w);
        lemma_copies_count(v, b, w);
    }
    assert(copies(v, a + b) =~= copies(v, a).add(copies(v, b)));
}

/// No two pairs in the list carry the same value.
pub open spec fn distinct_keys<V>(s: Seq<(V, usize)>) -> bool {
    forall|i: int, j: int| 0 <= i < j < s.len() ==> s[i].0 != s[j].0
}

/// The multiset described by a list of (value, count) pairs.
pub open spec fn pairs_vals<V>(s: Seq<(V, usize)>) -> Multiset<V>
    decreases s.len(),
{
    if s.len() == 0 {
        Multiset::empty()
    } else {
        pairs_vals(s.drop_last()).add(copies(s.last().0, s.last().1 as nat))
    }
}

pub proof fn lemma_pairs_vals_push<V>(s: Seq<(V, usize)>, v: V, c: usize)
    ensures
        pairs_vals(s.push((v, c))) == pairs_vals(s).add(copies(v, c as nat)),
{
    assert(s.push((v, c)).drop_last() =~= s);
    assert(s.push((v, c)).last() == (v, c));
}

pub proof fn lemma_pairs_take_succ<V>(s: Seq<(V, usize)>, k: int)
    requires
        0 <= k < s.len(),
    ensures
        pairs_vals(s.take(k + 1)) == pairs_vals(s.take(k)).add(
            copies(s[k].0, s[k].1 as nat),
        ),
{
    assert(s.take(k + 1).drop_last() =~= s.take(k));
    assert(s.take(k + 1).last() == s[k]);
}

pub proof fn lemma_pairs_prefix_len<V>(s: Seq<(V, usize)>, k: int)
    requires
        0 <= k <= s.len(),
    ensures
        pairs_vals(s.take(k)).len() <= pairs_vals(s).len(),
    decreases s.len() - k,
{
    if k == s.len() {
        assert(s.take(k) =~= s);
    } else {
        lemma_pairs_take_succ(s, k);
        lemma_pairs_prefix_len(s, k + 1);
        lemma_copies_count(s[k].0, s[k].1 as nat, s[k].0);
    }
}

/// With distinct keys, the multiset's count of a listed value is the listed
/// count, and of an unlisted value zero.
pub proof fn lemma_pairs_count<V>(s: Seq<(V, usize)>, w: V)
    requires
        distinct_keys(s),
    ensures
        (forall|i: int| 0 <= i < s.len() ==> s[i].0 != w) ==> pairs_vals(s).count(w)
            == 0,
        forall|i: int|
            0 <= i < s.len() && s[i].0 == w ==> pairs_vals(s).count(w) == s[i].1,
    decreases s.len(),
{
    if s.len() > 0 {
        let d = s.drop_last();
        assert(distinct_keys(d));
        lemma_pairs_count(d, w);
        lemma_copies_count(s.last().0, s.last().1 as nat, w);
        assert(forall|i: int| 0 <= i < s.len() - 1 ==> d[i] == s[i]);
        if s.last().0 == w {
            assert(forall|i: int| 0 <= i < s.len() - 1 ==> s[i].0 != w);
        }
    }
}

/// Adding `c` to the count of the pair at `i` adds `c` copies of its value.
pub proof fn lemma_pairs_update_add<V>(s: Seq<(V, usize)>, i: int, c: usize)
    requires
        distinct_keys(s),
        0 <= i < s.len(),
        s[i].1 + c <= usize::MAX,
    ensures
        pairs_vals(s.update(i, (s[i].0, (s[i].1 + c) as usize))) == pairs_vals(s).add(
            copies(s[i].0, c as nat),
        ),
    decreases s.len(),
{
    let t = s.update(i, (s[i].0, (s[i].1 + c) as usize));
    if i == s.len() - 1 {
        assert(t.drop_last() =~= s.drop_last());
        lemma_copies_add(s[i].0, s[i].1 as nat, c as nat);
        assert(pairs_vals(t) =~= pairs_vals(s).add(copies(s[i].0, c as nat)));
    } else {
        let d = s.drop_last();
        assert(distinct_keys(d));
        lemma_pairs_update_add(d, i, c);
        assert(t.drop_last() =~= d.update(i, (d[i].0, (d[i].1 + c) as usize)));
        assert(t.last() == s.last());
        assert(pairs_vals(t) =~= pairs_vals(s).add(copies(s[i].0, c as nat)));
    }
}

/// One copy of a value is the singleton multiset.
pub proof fn lemma_copies_one<V>(v: V)
    ensures
        copies(v, 1) == Multiset::<V>::empty().insert(v),
{
    assert forall|w: V| copies(v, 1).count(w) == Multiset::<V>::empty().insert(v).count(
        w,
    ) by {
        lemma_copies_count(v, 1, w);
    }
    assert(copies(v, 1) =~= Multiset::<V>::empty().insert(v));
}

} // verus!
