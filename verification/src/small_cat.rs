//! A summary for a small number of integer categories: an inline list of
//! (value, occurrence-count) pairs, scanned linearly. Expected cardinality is
//! low enough that the linear scan beats hashing.

use crate::errors::PointCloudError;
use crate::seqs::distinct_keys;
use crate::seqs::lemma_copies_count;
use crate::seqs::lemma_copies_one;
use crate::seqs::lemma_pairs_count;
use crate::seqs::lemma_pairs_prefix_len;
use crate::seqs::lemma_pairs_take_succ;
use crate::seqs::lemma_pairs_update_add;
use crate::seqs::lemma_pairs_vals_push;
use crate::seqs::pairs_vals;
use crate::summary::Summary;
use vstd::multiset::Multiset;
use vstd::prelude::*;

verus! {

broadcast use vstd::multiset::group_multiset_axioms;

/// Backing list for the categorical summary's pairs. Holds a
/// `smallvec::SmallVec` so that small summaries stay inline.
#[verifier::external_body]
pub struct CatItems {
    items: smallvec::SmallVec<[(i64, usize); 4]>,
}

/// The (value, count) pairs a `CatItems` holds, in storage order.
pub uninterp spec fn cat_items_seq(items: CatItems) -> Seq<(i64, usize)>;

/// Relies on smallvec::SmallVec::new: a freshly created vector is empty.
#[verifier::external_body]
fn cat_items_new() -> (r: CatItems)
    ensures
        cat_items_seq(r) == Seq::<(i64, usize)>::empty(),
{
    CatItems { items: smallvec::SmallVec::new() }
}

/// Relies on smallvec::SmallVec::len: the number of items held.
#[verifier::external_body]
fn cat_items_len(items: &CatItems) -> (r: usize)
    ensures
        r == cat_items_seq(*items).len(),
{
    items.items.len()
}

/// Relies on smallvec's Index impl: the pair at position `i`.
#[verifier::external_body]
fn cat_items_get(items: &CatItems, i: usize) -> (r: (i64, usize))
    requires
        i < cat_items_seq(*items).len(),
    ensures
        r == cat_items_seq(*items)[i as int],
{
    items.items[i]
}

/// Relies on smallvec's IndexMut impl: overwrites the pair at position `i`.
#[verifier::external_body]
fn cat_items_set(items: &mut CatItems, i: usize, v: (i64, usize))
    requires
        i < cat_items_seq(*old(items)).len(),
    ensures
        cat_items_seq(*final(items)) == cat_items_seq(*old(items)).update(i as int, v),
{
    items.items[i] = v;
}

/// Relies on smallvec::SmallVec::push: appends one pair at the end.
#[verifier::external_body]
fn cat_items_push(items: &mut CatItems, v: (i64, usize))
    ensures
        cat_items_seq(*final(items)) == cat_items_seq(*old(items)).push(v),
{
    items.items.push(v);
}

/// Relies on smallvec::SmallVec::clone: the clone holds the same items.
#[verifier::external_body]
fn cat_items_clone(items: &CatItems) -> (r: CatItems)
    ensures
        cat_items_seq(r) == cat_items_seq(*items),
{
    CatItems { items: items.items.clone() }
}

/// A summary for a small number of categories. Stores (value, count) pairs
/// inline and scans linearly; a lookup that finds no existing match appends a
/// new pair. Absences and failures are tracked by independent counters.
pub struct SmallCatSummary {
    items: CatItems,
    nones: usize,
    errors: usize,
}

/// Position of `v` among the stored pairs, if it is there.
fn cat_find(items: &CatItems, v: i64) -> (r: Option<usize>)
    ensures
        match r {
            Some(i) => i < cat_items_seq(*items).len() && cat_items_seq(*items)[i as int].0 == v,
            None => forall|j: int|
                0 <= j < cat_items_seq(*items).len() ==> cat_items_seq(*items)[j].0 != v,
        },
{
    let n = cat_items_len(items);
    let mut i: usize = 0;
    while i < n
        invariant
            n == cat_items_seq(*items).len(),
            i <= n,
            forall|j: int| 0 <= j < i ==> cat_items_seq(*items)[j].0 != v,
        decreases n - i,
    {
        let p = cat_items_get(items, i);
        if p.0 == v {
            return Some(i);
        }
        i += 1;
    }
    None
}

impl SmallCatSummary {
    pub closed spec fn items_seq(&self) -> Seq<(i64, usize)> {
        cat_items_seq(self.items)
    }

    /// The occurrence count recorded for one category value.
    pub fn value_count(&self, v: i64) -> (r: usize)
        requires
            self.wf(),
        ensures
            r as nat == self.vals().count(v),
    {
        proof {
            lemma_pairs_count(self.items_seq(), v);
        }
        match cat_find(&self.items, v) {
            Some(i) => cat_items_get(&self.items, i).1,
            None => 0,
        }
    }
}

impl Clone for SmallCatSummary {
    fn clone(&self) -> (r: Self)
        ensures
            r.items_seq() == self.items_seq(),
            r.nones_spec() == self.nones_spec(),
            r.errors_spec() == self.errors_spec(),
    {
        SmallCatSummary {
            items: cat_items_clone(&self.items),
            nones: self.nones,
            errors: self.errors,
        }
    }
}

impl Default for SmallCatSummary {
    /// A fresh, empty summary.
    fn default() -> (r: Self)
        ensures
            r.wf(),
            r.vals() == Multiset::<i64>::empty(),
            r.nones_spec() == 0,
            r.errors_spec() == 0,
    {
        <SmallCatSummary as Summary<i64>>::empty()
    }
}

impl Summary<i64> for SmallCatSummary {
    open spec fn vals(&self) -> Multiset<i64> {
        pairs_vals(self.items_seq())
    }

    closed spec fn nones_spec(&self) -> nat {
        self.nones as nat
    }

    closed spec fn errors_spec(&self) -> nat {
        self.errors as nat
    }

    open spec fn wf(&self) -> bool {
        &&& distinct_keys(self.items_seq())
        &&& pairs_vals(self.items_seq()).len() <= usize::MAX
    }

    fn empty() -> (r: Self) {
        let r = SmallCatSummary { items: cat_items_new(), nones: 0, errors: 0 };
        proof {
            assert(r.items_seq().len() == 0);
        }
        r
    }

    fn add(&mut self, v: Result<Option<&i64>, PointCloudError>) {
        match v {
            Ok(Some(val)) => {
                let ghost s0 = self.items_seq();
                match cat_find(&self.items, *val) {
                    Some(i) => {
                        let p = cat_items_get(&self.items, i);
                        proof {
                            lemma_pairs_count(s0, p.0);
                            assert(pairs_vals(s0).count(p.0) == p.1);
                        }
                        cat_items_set(&mut self.items, i, (p.0, p.1 + 1));
                        proof {
                            lemma_pairs_update_add(s0, i as int, 1);
                            lemma_copies_one(p.0);
                            lemma_copies_count(p.0, 1, p.0);
                            assert(self.items_seq() == s0.update(i as int, (p.0, (p.1 + 1) as usize)));
                            assert(distinct_keys(self.items_seq())) by {
                                assert(forall|k: int|
                                    0 <= k < s0.len() ==> self.items_seq()[k].0 == s0[k].0);
                            }
                        }
                    },
                    None => {
                        cat_items_push(&mut self.items, (*val, 1));
                        proof {
                            lemma_pairs_vals_push(s0, *val, 1);
                            lemma_copies_one(*val);
                            lemma_copies_count(*val, 1, *val);
                            assert(distinct_keys(self.items_seq())) by {
                                assert(forall|k: int|
                                    0 <= k < s0.len() ==> self.items_seq()[k] == s0[k]);
                                assert(self.items_seq()[s0.len() as int].0 == *val);
                            }
                        }
                    },
                }
            },
            Ok(None) => {
                self.nones = self.nones + 1;
                proof {
                    assert(self.vals().add(Multiset::<i64>::empty()) =~= self.vals());
                }
            },
            Err(_) => {
                self.errors = self.errors + 1;
                proof {
                    assert(self.vals().add(Multiset::<i64>::empty()) =~= self.vals());
                }
            },
        }
    }

    fn combine(&mut self, other: Self) {
        let ghost a0 = pairs_vals(cat_items_seq(self.items));
        let ghost n0 = self.nones as nat;
        let ghost e0 = self.errors as nat;
        let ghost oseq = cat_items_seq(other.items);
        let n = cat_items_len(&other.items);
        let mut k: usize = 0;
        while k < n
            invariant
                n == oseq.len(),
                k <= n,
                oseq == cat_items_seq(other.items),
                distinct_keys(oseq),
                distinct_keys(cat_items_seq(self.items)),
                pairs_vals(cat_items_seq(self.items)) == a0.add(pairs_vals(oseq.take(k as int))),
                self.nones as nat == n0,
                self.errors as nat == e0,
                a0.len() + pairs_vals(oseq).len() <= usize::MAX,
            decreases n - k,
        {
            let p = cat_items_get(&other.items, k);
            let ghost sseq = cat_items_seq(self.items);
            proof {
                lemma_pairs_take_succ(oseq, k as int);
                lemma_pairs_count(oseq, p.0);
                assert(pairs_vals(oseq).count(p.0) == p.1);
                assert(distinct_keys(oseq.take(k as int)));
                lemma_pairs_count(oseq.take(k as int), p.0);
                assert(forall|j: int| 0 <= j < k ==> oseq.take(k as int)[j].0 != p.0);
                assert(pairs_vals(oseq.take(k as int)).count(p.0) == 0);
            }
            match cat_find(&self.items, p.0) {
                Some(i) => {
                    let q = cat_items_get(&self.items, i);
                    proof {
                        lemma_pairs_count(sseq, q.0);
                        assert(pairs_vals(sseq).count(q.0) == q.1);
                        assert(q.1 == a0.count(p.0));
                        assert(q.1 + p.1 <= a0.len() + pairs_vals(oseq).len());
                    }
                    cat_items_set(&mut self.items, i, (q.0, q.1 + p.1));
                    proof {
                        lemma_pairs_update_add(sseq, i as int, p.1);
                        assert(pairs_vals(cat_items_seq(self.items)) =~= a0.add(
                            pairs_vals(oseq.take(k as int + 1)),
                        ));
                        assert(distinct_keys(cat_items_seq(self.items))) by {
                            assert(forall|j: int|
                                0 <= j < sseq.len() ==> cat_items_seq(self.items)[j].0
                                    == sseq[j].0);
                        }
                    }
                },
                None => {
                    cat_items_push(&mut self.items, p);
                    proof {
                        lemma_pairs_vals_push(sseq, p.0, p.1);
                        assert(pairs_vals(cat_items_seq(self.items)) =~= a0.add(
                            pairs_vals(oseq.take(k as int + 1)),
                        ));
                        assert(distinct_keys(cat_items_seq(self.items))) by {
                            assert(forall|j: int|
                                0 <= j < sseq.len() ==> cat_items_seq(self.items)[j] == sseq[j]);
                            assert(cat_items_seq(self.items)[sseq.len() as int].0 == p.0);
                        }
                    }
                },
            }
            k += 1;
        }
        proof {
            assert(oseq.take(n as int) =~= oseq);
        }
        self.nones = self.nones + other.nones;
        self.errors = self.errors + other.errors;
    }

    fn count(&self) -> (r: usize) {
        let ghost sseq = self.items_seq();
        let n = cat_items_len(&self.items);
        let mut acc: usize = 0;
        let mut k: usize = 0;
        while k < n
            invariant
                n == sseq.len(),
                sseq == self.items_seq(),
                k <= n,
                acc as nat == pairs_vals(sseq.take(k as int)).len(),
                pairs_vals(sseq).len() <= usize::MAX,
            decreases n - k,
        {
            let p = cat_items_get(&self.items, k);
            proof {
                lemma_pairs_take_succ(sseq, k as int);
                lemma_copies_count(p.0, p.1 as nat, p.0);
                lemma_pairs_prefix_len(sseq, k as int + 1);
            }
            acc = acc + p.1;
            k += 1;
        }
        proof {
            assert(sseq.take(n as int) =~= sseq);
        }
        acc
    }

    fn nones(&self) -> (r: usize) {
        self.nones
    }

    fn errors(&self) -> (r: usize) {
        self.errors
    }
}

} // verus!
