//! The mergeable label-summary contract, and the order-independence laws
//! that make summaries safe to aggregate in parallel over index subsets and
//! combine at join points.

use crate::errors::PointCloudError;
use vstd::multiset::Multiset;
use vstd::prelude::*;

verus! {

broadcast use vstd::multiset::group_multiset_axioms;

/// One label lookup outcome, at the specification level: a present value, a
/// successful absence, or a failed access.
pub enum LabelLookup<V> {
    Present(V),
    Absent,
    Failure,
}

/// The exec-level lookup result seen as a `LabelLookup` over label views.
pub open spec fn view_lookup<L: DeepView>(v: Result<Option<&L>, PointCloudError>) -> LabelLookup<
    <L as DeepView>::V,
> {
    match v {
        Ok(Some(l)) => LabelLookup::Present(l.deep_view()),
        Ok(None) => LabelLookup::Absent,
        Err(_) => LabelLookup::Failure,
    }
}

/// The values one lookup contributes to a summary.
pub open spec fn lookup_vals<V>(x: LabelLookup<V>) -> Multiset<V> {
    match x {
        LabelLookup::Present(v) => Multiset::empty().insert(v),
        _ => Multiset::empty(),
    }
}

/// The absences one lookup contributes.
pub open spec fn lookup_nones<V>(x: LabelLookup<V>) -> nat {
    if x is Absent {
        1
    } else {
        0
    }
}

/// The failures one lookup contributes.
pub open spec fn lookup_errors<V>(x: LabelLookup<V>) -> nat {
    if x is Failure {
        1
    } else {
        0
    }
}

/// The values a whole sequence of lookups contributes, fed front to back.
pub open spec fn summed_vals<V>(s: Seq<LabelLookup<V>>) -> Multiset<V>
    decreases s.len(),
{
    if s.len() == 0 {
        Multiset::empty()
    } else {
        summed_vals(s.drop_last()).add(lookup_vals(s.last()))
    }
}

pub open spec fn summed_nones<V>(s: Seq<LabelLookup<V>>) -> nat
    decreases s.len(),
{
    if s.len() == 0 {
        0
    } else {
        summed_nones(s.drop_last()) + lookup_nones(s.last())
    }
}

pub open spec fn summed_errors<V>(s: Seq<LabelLookup<V>>) -> nat
    decreases s.len(),
{
    if s.len() == 0 {
        0
    } else {
        summed_errors(s.drop_last()) + lookup_errors(s.last())
    }
}

/// A mergeable accumulator over one label type. `vals`, `nones_spec` and
/// `errors_spec` model a summary as the multiset of present values it has
/// absorbed plus independent counters of absences and failures, so every
/// reported total depends only on the multiset of lookups fed to it, never
/// on their order or on how they were grouped before `combine`.
pub trait Summary<L: DeepView>: Sized {
    spec fn vals(&self) -> Multiset<<L as DeepView>::V>;

    spec fn nones_spec(&self) -> nat;

    spec fn errors_spec(&self) -> nat;

    spec fn wf(&self) -> bool;

    /// A fresh summary that has absorbed nothing.
    fn empty() -> (r: Self)
        ensures
            r.wf(),
            r.vals() == Multiset::<<L as DeepView>::V>::empty(),
            r.nones_spec() == 0,
            r.errors_spec() == 0,
    ;

    /// Absorb one label lookup outcome.
    fn add(&mut self, v: Result<Option<&L>, PointCloudError>)
        requires
            old(self).wf(),
            old(self).vals().len() < usize::MAX,
            old(self).nones_spec() < usize::MAX,
            old(self).errors_spec() < usize::MAX,
        ensures
            final(self).wf(),
            final(self).vals() == old(self).vals().add(lookup_vals(view_lookup(v))),
            final(self).nones_spec() == old(self).nones_spec() + lookup_nones(view_lookup(v)),
            final(self).errors_spec() == old(self).errors_spec() + lookup_errors(view_lookup(v)),
    ;

    /// Merge another summary of the same type into this one.
    fn combine(&mut self, other: Self)
        requires
            old(self).wf(),
            other.wf(),
            old(self).vals().len() + other.vals().len() <= usize::MAX,
            old(self).nones_spec() + other.nones_spec() <= usize::MAX,
            old(self).errors_spec() + other.errors_spec() <= usize::MAX,
        ensures
            final(self).wf(),
            final(self).vals() == old(self).vals().add(other.vals()),
            final(self).nones_spec() == old(self).nones_spec() + other.nones_spec(),
            final(self).errors_spec() == old(self).errors_spec() + other.errors_spec(),
    ;

    /// How many present values were absorbed, counted with multiplicity.
    fn count(&self) -> (r: usize)
        requires
            self.wf(),
        ensures
            r as nat == self.vals().len(),
    ;

    /// How many successful absences were absorbed.
    fn nones(&self) -> (r: usize)
        requires
            self.wf(),
        ensures
            r as nat == self.nones_spec(),
    ;

    /// How many failed lookups were absorbed.
    fn errors(&self) -> (r: usize)
        requires
            self.wf(),
        ensures
            r as nat == self.errors_spec(),
    ;
}

/// The lookup a cloud with the given label slots answers for one index.
pub open spec fn lookup_at<V>(labels: Seq<Option<V>>, pn: crate::errors::PointIndex) -> LabelLookup<
    V,
> {
    if (pn as nat) < labels.len() {
        match labels[pn as int] {
            Some(v) => LabelLookup::Present(v),
            None => LabelLookup::Absent,
        }
    } else {
        LabelLookup::Failure
    }
}

/// The lookups a cloud answers for a list of indexes, in input order.
pub open spec fn lookups_of<V>(
    labels: Seq<Option<V>>,
    pns: Seq<crate::errors::PointIndex>,
) -> Seq<LabelLookup<V>> {
    pns.map_values(|pn: crate::errors::PointIndex| lookup_at(labels, pn))
}

/// Each lookup contributes to exactly one of the three totals.
pub proof fn lemma_summed_bounds<V>(s: Seq<LabelLookup<V>>)
    ensures
        summed_vals(s).len() + summed_nones(s) + summed_errors(s) == s.len(),
    decreases s.len(),
{
    if s.len() > 0 {
        lemma_summed_bounds(s.drop_last());
    }
}

/// Splitting a batch of lookups anywhere and aggregating the parts
/// independently contributes exactly what aggregating the whole batch does:
/// `combine` after partitioned aggregation cannot be told apart from one
/// in-order pass.
pub proof fn lemma_summary_split<V>(a: Seq<LabelLookup<V>>, b: Seq<LabelLookup<V>>)
    ensures
        summed_vals(a + b) == summed_vals(a).add(summed_vals(b)),
        summed_nones(a + b) == summed_nones(a) + summed_nones(b),
        summed_errors(a + b) == summed_errors(a) + summed_errors(b),
    decreases b.len(),
{
    if b.len() == 0 {
        assert(a + b =~= a);
        assert(summed_vals(a).add(summed_vals(b)) =~= summed_vals(a));
    } else {
        lemma_summary_split(a, b.drop_last());
        assert((a + b).drop_last() =~= a + b.drop_last());
        assert((a + b).last() == b.last());
        assert(summed_vals(a).add(summed_vals(b.drop_last())).add(lookup_vals(b.last()))
            =~= summed_vals(a).add(summed_vals(b)));
    }
}

proof fn lemma_summed_remove<V>(s: Seq<LabelLookup<V>>, i: int)
    requires
        0 <= i < s.len(),
    ensures
        summed_vals(s) == summed_vals(s.remove(i)).add(lookup_vals(s[i])),
        summed_nones(s) == summed_nones(s.remove(i)) + lookup_nones(s[i]),
        summed_errors(s) == summed_errors(s.remove(i)) + lookup_errors(s[i]),
    decreases s.len(),
{
    if i == s.len() - 1 {
        assert(s.remove(i) =~= s.drop_last());
    } else {
        let d = s.drop_last();
        lemma_summed_remove(d, i);
        assert(s.remove(i).drop_last() =~= d.remove(i));
        assert(s.remove(i).last() == s.last());
        assert(summed_vals(s.remove(i)).add(lookup_vals(s[i])) =~= summed_vals(s));
    }
}

/// Feeding the same lookups in any order contributes the same values,
/// absences and failures: a summary's reports are order-independent.
pub proof fn lemma_summary_any_order<V>(a: Seq<LabelLookup<V>>, b: Seq<LabelLookup<V>>)
    requires
        a.to_multiset() == b.to_multiset(),
    ensures
        summed_vals(a) == summed_vals(b),
        summed_nones(a) == summed_nones(b),
        summed_errors(a) == summed_errors(b),
    decreases a.len(),
{
    broadcast use vstd::seq_lib::group_to_multiset_ensures;

    if a.len() == 0 {
        assert(b.to_multiset().len() == 0);
        assert(b.len() == 0);
    } else {
        let x = a.last();
        let la = a.len() - 1;
        assert(a.remove(la) =~= a.drop_last());
        assert(a.to_multiset().count(x) > 0) by {
            assert(a.contains(x));
        }
        assert(b.contains(x));
        let i = choose|i: int| 0 <= i < b.len() && b[i] == x;
        let a1 = a.drop_last();
        let b1 = b.remove(i);
        assert(a1.to_multiset() =~= a.to_multiset().remove(x));
        assert(b1.to_multiset() =~= b.to_multiset().remove(x));
        lemma_summary_any_order(a1, b1);
        lemma_summed_remove(b, i);
    }
}

} // verus!
