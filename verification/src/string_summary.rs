//! A frequency-table summary over exact string values: a hash map from value
//! to occurrence count, for unbounded cardinality.

use crate::errors::PointCloudError;
use crate::seqs::copies;
use crate::seqs::distinct_keys;
use crate::seqs::lemma_copies_count;
use crate::seqs::lemma_copies_one;
use crate::seqs::lemma_pairs_count;
use crate::seqs::lemma_pairs_prefix_len;
use crate::seqs::lemma_pairs_take_succ;
use crate::seqs::pairs_vals;
use crate::summary::lookup_vals;
use crate::summary::view_lookup;
use crate::summary::Summary;
use vstd::multiset::Multiset;
use vstd::prelude::*;

verus! {

broadcast use vstd::multiset::group_multiset_axioms;

/// Backing table for the string summary. Holds a `hashbrown::HashMap` from
/// string value to occurrence count.
#[verifier::external_body]
pub struct StrCounts {
    m: hashbrown::HashMap<String, usize>,
}

/// The value-to-count table a `StrCounts` holds, keyed by string content.
pub uninterp spec fn str_counts_map(c: StrCounts) -> Map<Seq<char>, usize>;

/// Relies on hashbrown::HashMap::new: a freshly created map is empty.
#[verifier::external_body]
fn str_counts_new() -> (r: StrCounts)
    ensures
        str_counts_map(r) =~= Map::empty(),
{
    StrCounts { m: hashbrown::HashMap::new() }
}

/// Relies on hashbrown::HashMap::get: the count stored under a key, if any.
#[verifier::external_body]
fn str_counts_get(c: &StrCounts, k: &String) -> (r: Option<usize>)
    ensures
        match r {
            Some(v) => str_counts_map(*c).contains_key(k@) && str_counts_map(*c)[k@] == v,
            None => !str_counts_map(*c).contains_key(k@),
        },
{
    c.m.get(k).copied()
}

/// Relies on hashbrown::HashMap::insert: stores `v` under the key's content.
#[verifier::external_body]
fn str_counts_set(c: &mut StrCounts, k: &String, v: usize)
    ensures
        str_counts_map(*final(c)) == str_counts_map(*old(c)).insert(k@, v),
{
    c.m.insert(k.clone(), v);
}

/// Relies on hashbrown::HashMap::iter: every (value, count) entry, each key
/// once, in no promised order.
#[verifier::external_body]
fn str_counts_entries(c: &StrCounts) -> (r: Vec<(String, usize)>)
    ensures
        forall|i: int|
            0 <= i < r@.len() ==> str_counts_map(*c).contains_key(r@[i].0@) && str_counts_map(
                *c,
            )[r@[i].0@] == r@[i].1,
        forall|i: int, j: int| 0 <= i < j < r@.len() ==> r@[i].0@ != r@[j].0@,
        forall|k: Seq<char>|
            str_counts_map(*c).contains_key(k) ==> exists|i: int|
                0 <= i < r@.len() && r@[i].0@ == k,
{
    c.m.iter().map(|(k, v)| (k.clone(), *v)).collect()
}

/// Relies on hashbrown::HashMap::clone: the clone holds the same entries.
#[verifier::external_body]
fn str_counts_clone(c: &StrCounts) -> (r: StrCounts)
    ensures
        str_counts_map(r) == str_counts_map(*c),
{
    StrCounts { m: c.m.clone() }
}

/// The multiset a value-to-count table describes.
pub open spec fn counts_multiset(m: Map<Seq<char>, usize>) -> Multiset<Seq<char>> {
    Multiset::from_map(Map::new(|k: Seq<char>| m.contains_key(k), |k: Seq<char>| m[k] as nat))
}

/// A summary over exact string values, hash-based, for unbounded
/// cardinality. Absences and failures are tracked by independent counters.
pub struct StringSummary {
    items: StrCounts,
    total: usize,
    nones: usize,
    errors: usize,
}

impl StringSummary {
    pub closed spec fn counts(&self) -> Map<Seq<char>, usize> {
        str_counts_map(self.items)
    }

    /// The occurrence count recorded for one string value.
    pub fn value_count(&self, v: &String) -> (r: usize)
        requires
            self.wf(),
        ensures
            r as nat == self.vals().count(v@),
    {
        proof {
            lemma_counts_multiset_count(self.counts(), v@);
        }
        match str_counts_get(&self.items, v) {
            Some(c) => c,
            None => 0,
        }
    }
}

/// The count a table's multiset gives each value.
proof fn lemma_counts_multiset_count(m: Map<Seq<char>, usize>, k: Seq<char>)
    requires
        m.dom().finite(),
    ensures
        counts_multiset(m).count(k) == if m.contains_key(k) {
            m[k] as nat
        } else {
            0nat
        },
{
    let inner = Map::new(|k: Seq<char>| m.contains_key(k), |k: Seq<char>| m[k] as nat);
    assert(inner.dom() =~= m.dom());
}

impl Clone for StringSummary {
    fn clone(&self) -> (r: Self)
        ensures
            r.counts() == self.counts(),
            r.wf() == self.wf(),
            r.nones_spec() == self.nones_spec(),
            r.errors_spec() == self.errors_spec(),
    {
        StringSummary {
            items: str_counts_clone(&self.items),
            total: self.total,
            nones: self.nones,
            errors: self.errors,
        }
    }
}

impl Default for StringSummary {
    /// A fresh, empty summary.
    fn default() -> (r: Self)
        ensures
            r.wf(),
            r.vals() == Multiset::<Seq<char>>::empty(),
            r.nones_spec() == 0,
            r.errors_spec() == 0,
    {
        <StringSummary as Summary<String>>::empty()
    }
}

impl Summary<String> for StringSummary {
    open spec fn vals(&self) -> Multiset<Seq<char>> {
        counts_multiset(self.counts())
    }

    closed spec fn nones_spec(&self) -> nat {
        self.nones as nat
    }

    closed spec fn errors_spec(&self) -> nat {
        self.errors as nat
    }

    closed spec fn wf(&self) -> bool {
        &&& self.counts().dom().finite()
        &&& self.total as nat == counts_multiset(self.counts()).len()
    }

    fn empty() -> (r: Self) {
        let r = StringSummary { items: str_counts_new(), total: 0, nones: 0, errors: 0 };
        proof {
            assert forall|w: Seq<char>| r.vals().count(w) == 0nat by {
                lemma_counts_multiset_count(r.counts(), w);
            }
            assert(r.vals() =~= Multiset::<Seq<char>>::empty());
        }
        r
    }

    fn add(&mut self, v: Result<Option<&String>, PointCloudError>) {
        match v {
            Ok(Some(val)) => {
                let ghost m0 = self.counts();
                let c0 = match str_counts_get(&self.items, val) {
                    Some(c) => c,
                    None => 0,
                };
                proof {
                    lemma_counts_multiset_count(m0, val@);
                    assert(c0 as nat == counts_multiset(m0).count(val@));
                }
                str_counts_set(&mut self.items, val, c0 + 1);
                self.total = self.total + 1;
                proof {
                    broadcast use vstd::multiset::group_multiset_properties;

                    assert forall|w: Seq<char>| self.vals().count(w) == counts_multiset(
                        m0,
                    ).insert(val@).count(w) by {
                        lemma_counts_multiset_count(self.counts(), w);
                        lemma_counts_multiset_count(m0, w);
                    }
                    assert(self.vals() =~= counts_multiset(m0).insert(val@));
                    lemma_copies_one(val@);
                    assert(counts_multiset(m0).add(lookup_vals(view_lookup(v))) =~= counts_multiset(
                        m0,
                    ).insert(val@));
                }
            },
            Ok(None) => {
                self.nones = self.nones + 1;
                proof {
                    assert(self.vals().add(Multiset::<Seq<char>>::empty()) =~= self.vals());
                }
            },
            Err(_) => {
                self.errors = self.errors + 1;
                proof {
                    assert(self.vals().add(Multiset::<Seq<char>>::empty()) =~= self.vals());
                }
            },
        }
    }

    fn combine(&mut self, other: Self) {
        let ghost a0 = counts_multiset(str_counts_map(self.items));
        let ghost n0 = self.nones as nat;
        let ghost e0 = self.errors as nat;
        let ghost t0 = self.total as nat;
        let entries = str_counts_entries(&other.items);
        let ghost eseq = entries@.map_values(|p: (String, usize)| (p.0@, p.1));
        proof {
            assert(distinct_keys(eseq));
            assert forall|kk: Seq<char>|
                str_counts_map(other.items).contains_key(kk) implies exists|i: int|
                0 <= i < eseq.len() && eseq[i].0 == kk by {
                let i = choose|i: int| 0 <= i < entries@.len() && entries@[i].0@ == kk;
                assert(eseq[i].0 == kk);
            }
            lemma_entries_vals(str_counts_map(other.items), eseq);
        }
        let n = entries.len();
        let mut k: usize = 0;
        while k < n
            invariant
                n == entries@.len(),
                k <= n,
                eseq == entries@.map_values(|p: (String, usize)| (p.0@, p.1)),
                eseq.len() == n,
                distinct_keys(eseq),
                str_counts_map(self.items).dom().finite(),
                counts_multiset(str_counts_map(self.items)) == a0.add(
                    pairs_vals(eseq.take(k as int)),
                ),
                self.nones as nat == n0,
                self.errors as nat == e0,
                self.total as nat == t0 + pairs_vals(eseq.take(k as int)).len(),
                t0 == a0.len(),
                a0.len() + pairs_vals(eseq).len() <= usize::MAX,
            decreases n - k,
        {
            let (val, c) = &entries[k];
            let ghost m1 = str_counts_map(self.items);
            proof {
                assert(eseq[k as int] == (val@, *c));
                lemma_pairs_take_succ(eseq, k as int);
                lemma_pairs_count(eseq, val@);
                assert(pairs_vals(eseq).count(val@) == *c);
                assert(distinct_keys(eseq.take(k as int)));
                lemma_pairs_count(eseq.take(k as int), val@);
                assert(forall|j: int| 0 <= j < k ==> eseq.take(k as int)[j].0 != val@);
                assert(pairs_vals(eseq.take(k as int)).count(val@) == 0);
                lemma_pairs_prefix_len(eseq, k as int + 1);
                lemma_copies_count(val@, *c as nat, val@);
            }
            let c0 = match str_counts_get(&self.items, val) {
                Some(c1) => c1,
                None => 0,
            };
            proof {
                lemma_counts_multiset_count(m1, val@);
                assert(c0 as nat == counts_multiset(m1).count(val@));
                assert(c0 as nat == a0.count(val@));
                assert(c0 + *c <= a0.len() + pairs_vals(eseq).len());
            }
            str_counts_set(&mut self.items, val, c0 + *c);
            self.total = self.total + *c;
            proof {
                assert forall|w: Seq<char>| counts_multiset(str_counts_map(self.items)).count(w)
                    == counts_multiset(m1).add(copies(val@, *c as nat)).count(w) by {
                    lemma_counts_multiset_count(str_counts_map(self.items), w);
                    lemma_counts_multiset_count(m1, w);
                    lemma_copies_count(val@, *c as nat, w);
                }
                assert(counts_multiset(str_counts_map(self.items)) =~= counts_multiset(m1).add(
                    copies(val@, *c as nat),
                ));
                assert(counts_multiset(str_counts_map(self.items)) =~= a0.add(
                    pairs_vals(eseq.take(k as int + 1)),
                ));
            }
            k += 1;
        }
        proof {
            assert(eseq.take(n as int) =~= eseq);
        }
        self.nones = self.nones + other.nones;
        self.errors = self.errors + other.errors;
    }

    fn count(&self) -> (r: usize) {
        self.total
    }

    fn nones(&self) -> (r: usize) {
        self.nones
    }

    fn errors(&self) -> (r: usize) {
        self.errors
    }
}

/// The entry list a table's wrapper hands out describes the table's multiset.
proof fn lemma_entries_vals(m: Map<Seq<char>, usize>, eseq: Seq<(Seq<char>, usize)>)
    requires
        m.dom().finite(),
        distinct_keys(eseq),
        forall|i: int| 0 <= i < eseq.len() ==> m.contains_key(eseq[i].0) && m[eseq[i].0] == eseq[i].1,
        forall|k: Seq<char>|
            m.contains_key(k) ==> exists|i: int| 0 <= i < eseq.len() && eseq[i].0 == k,
    ensures
        pairs_vals(eseq) == counts_multiset(m),
{
    assert forall|w: Seq<char>| pairs_vals(eseq).count(w) == counts_multiset(m).count(w) by {
        lemma_counts_multiset_count(m, w);
        lemma_pairs_count(eseq, w);
        if m.contains_key(w) {
            let i = choose|i: int| 0 <= i < eseq.len() && eseq[i].0 == w;
            assert(pairs_vals(eseq).count(w) == eseq[i].1);
        } else {
            assert(forall|i: int| 0 <= i < eseq.len() ==> eseq[i].0 != w);
        }
    }
    assert(pairs_vals(eseq) =~= counts_multiset(m));
}

} // verus!
