//! The point-cloud capability contracts -- metric-space access over a fixed
//! logical index range, and label access with summary aggregation on top --
//! plus two simple in-memory sources that satisfy them.

use crate::errors::PointCloudError;
use crate::errors::PointCloudResult;
use crate::errors::PointIndex;
use crate::small_cat::SmallCatSummary;
use crate::summary::lookup_at;
use crate::summary::lookups_of;
use crate::summary::summed_nones;
use crate::summary::summed_vals;
use crate::summary::view_lookup;
use crate::summary::Summary;
use vstd::prelude::*;

verus! {

/// Metric-space access over a fixed logical index range. A conforming cloud
/// is logically immutable: `points()` never changes under these methods.
pub trait PointCloud: Sized {
    type Point;

    /// Internal consistency; constructors establish it and every method may
    /// rely on it.
    spec fn inv(&self) -> bool;

    /// The points, in logical index order.
    spec fn points(&self) -> Seq<Self::Point>;

    /// The common dimensionality of the points.
    spec fn dim_spec(&self) -> nat;

    /// What `is_empty` reports. A composite of zero sources reports false:
    /// "no sources" is not the claim "all sources are empty".
    spec fn is_empty_spec(&self) -> bool;

    /// Whether this cloud has a dimension to report.
    spec fn dim_defined(&self) -> bool;

    /// Total number of points in the cloud.
    fn len(&self) -> (r: usize)
        requires
            self.inv(),
        ensures
            r == self.points().len(),
    ;

    fn is_empty(&self) -> (r: bool)
        requires
            self.inv(),
        ensures
            r == self.is_empty_spec(),
    ;

    /// Dimension of the data in the cloud.
    fn dim(&self) -> (r: usize)
        requires
            self.inv(),
            self.dim_defined(),
        ensures
            r == self.dim_spec(),
    ;

    /// The point at `pn`, or a data-access error naming `pn`.
    fn point(&self, pn: PointIndex) -> (r: PointCloudResult<&Self::Point>)
        requires
            self.inv(),
        ensures
            match r {
                Ok(p) => (pn as nat) < self.points().len() && *p == self.points()[pn as int],
                Err(e) => (pn as nat) >= self.points().len() && e.index_spec() == pn,
            },
    ;

    /// The indexes this cloud answers to, each once, in no promised order.
    fn reference_indexes(&self) -> (r: Vec<PointIndex>)
        requires
            self.inv(),
        ensures
            r@.no_duplicates(),
            forall|i: int| 0 <= i < r@.len() ==> ((#[trigger] r@[i]) as nat) < self.points().len(),
            forall|g: PointIndex| (g as nat) < self.points().len() ==> r@.contains(g),
    ;
}

/// A point cloud whose points carry optional labels, rolled up through a
/// mergeable summary.
pub trait LabeledCloud: PointCloud {
    type Label: DeepView;

    type LabelSummary: Summary<Self::Label>;

    /// The label of each point, by logical index: present or absent.
    spec fn labels(&self) -> Seq<Option<<Self::Label as DeepView>::V>>;

    /// There is one label slot per point.
    proof fn lemma_labels_len(&self)
        requires
            self.inv(),
        ensures
            self.labels().len() == self.points().len(),
    ;

    /// The label at `pn`, or a data-access error naming `pn`.
    fn label(&self, pn: PointIndex) -> (r: PointCloudResult<Option<&Self::Label>>)
        requires
            self.inv(),
        ensures
            match r {
                Ok(Some(l)) => (pn as nat) < self.labels().len() && self.labels()[pn as int]
                    == Some(l.deep_view()),
                Ok(None) => (pn as nat) < self.labels().len() && self.labels()[pn as int] is None,
                Err(e) => (pn as nat) >= self.labels().len() && e.index_spec() == pn,
            },
    ;

    /// One fresh summary fed the label lookup of each index in `pns`, in
    /// input order; or, when some index is not in this cloud, the error for
    /// the first such index.
    fn label_summary(&self, pns: &[PointIndex]) -> (r: PointCloudResult<Self::LabelSummary>)
        requires
            self.inv(),
            pns@.len() < usize::MAX,
        ensures
            match r {
                Ok(s) => {
                    &&& forall|i: int|
                        0 <= i < pns@.len() ==> ((#[trigger] pns@[i]) as nat)
                            < self.points().len()
                    &&& s.wf()
                    &&& s.vals() == summed_vals(lookups_of(self.labels(), pns@))
                    &&& s.nones_spec() == summed_nones(lookups_of(self.labels(), pns@))
                    &&& s.errors_spec() == 0
                },
                Err(e) => exists|i: int|
                    {
                        &&& 0 <= i < pns@.len()
                        &&& ((#[trigger] pns@[i]) as nat) >= self.points().len()
                        &&& e.index_spec() == pns@[i]
                        &&& forall|j: int|
                            0 <= j < i ==> ((#[trigger] pns@[j]) as nat) < self.points().len()
                    },
            },
    ;
}

/// An in-memory point source: points stored in supply order, all of one
/// caller-stated dimensionality.
pub struct VecCloud<P> {
    points: Vec<P>,
    dim: usize,
}

impl<P> VecCloud<P> {
    /// A cloud over `points`; stating their common dimensionality is the
    /// caller's obligation, as sources are assumed dimension-homogeneous.
    pub fn new(points: Vec<P>, dim: usize) -> (r: Self)
        ensures
            r.inv(),
            r.points() == points@,
            r.dim_spec() == dim,
    {
        VecCloud { points, dim }
    }
}

impl<P> PointCloud for VecCloud<P> {
    type Point = P;

    open spec fn inv(&self) -> bool {
        true
    }

    closed spec fn points(&self) -> Seq<P> {
        self.points@
    }

    closed spec fn dim_spec(&self) -> nat {
        self.dim as nat
    }

    open spec fn is_empty_spec(&self) -> bool {
        self.points().len() == 0
    }

    open spec fn dim_defined(&self) -> bool {
        true
    }

    fn len(&self) -> (r: usize) {
        self.points.len()
    }

    fn is_empty(&self) -> (r: bool) {
        self.points.len() == 0
    }

    fn dim(&self) -> (r: usize) {
        self.dim
    }

    fn point(&self, pn: PointIndex) -> (r: PointCloudResult<&P>) {
        if pn < self.points.len() as u64 {
            Ok(&self.points[pn as usize])
        } else {
            Err(PointCloudError::DataAccessError { index: pn, reason: "address not found".to_string() })
        }
    }

    fn reference_indexes(&self) -> (r: Vec<PointIndex>) {
        index_range(self.points.len())
    }
}

/// The indexes `0 .. n`, in order.
fn index_range(n: usize) -> (r: Vec<PointIndex>)
    ensures
        r@.len() == n,
        forall|i: int| 0 <= i < n ==> r@[i] == i as u64,
        r@.no_duplicates(),
        forall|g: PointIndex| (g as nat) < n ==> r@.contains(g),
{
    let mut r: Vec<PointIndex> = Vec::new();
    let mut i: usize = 0;
    while i < n
        invariant
            i <= n,
            r@.len() == i,
            forall|j: int| 0 <= j < i ==> r@[j] == j as u64,
        decreases n - i,
    {
        r.push(i as u64);
        i += 1;
    }
    proof {
        assert forall|g: PointIndex| (g as nat) < n implies r@.contains(g) by {
            assert(r@[g as int] == g);
        }
    }
    r
}

/// A point source paired with an optional small-integer label per point,
/// summarized categorically.
pub struct SimpleLabeledCloud<D: PointCloud> {
    data: D,
    labels: Vec<Option<i64>>,
}

impl<D: PointCloud> SimpleLabeledCloud<D> {
    /// Pairs a source with one label slot per point.
    pub fn new(data: D, labels: Vec<Option<i64>>) -> (r: Self)
        requires
            data.inv(),
            labels@.len() == data.points().len(),
        ensures
            r.inv(),
            r.points() == data.points(),
            r.labels() == labels@,
            r.dim_spec() == data.dim_spec(),
            r.dim_defined() == data.dim_defined(),
            r.is_empty_spec() == data.is_empty_spec(),
    {
        SimpleLabeledCloud { data, labels }
    }
}

impl<D: PointCloud> PointCloud for SimpleLabeledCloud<D> {
    type Point = D::Point;

    closed spec fn inv(&self) -> bool {
        self.data.inv() && self.labels@.len() == self.data.points().len()
    }

    closed spec fn points(&self) -> Seq<D::Point> {
        self.data.points()
    }

    closed spec fn dim_spec(&self) -> nat {
        self.data.dim_spec()
    }

    closed spec fn is_empty_spec(&self) -> bool {
        self.data.is_empty_spec()
    }

    closed spec fn dim_defined(&self) -> bool {
        self.data.dim_defined()
    }

    fn len(&self) -> (r: usize) {
        self.data.len()
    }

    fn is_empty(&self) -> (r: bool) {
        self.data.is_empty()
    }

    fn dim(&self) -> (r: usize) {
        self.data.dim()
    }

    fn point(&self, pn: PointIndex) -> (r: PointCloudResult<&D::Point>) {
        self.data.point(pn)
    }

    fn reference_indexes(&self) -> (r: Vec<PointIndex>) {
        self.data.reference_indexes()
    }
}

impl<D: PointCloud> LabeledCloud for SimpleLabeledCloud<D> {
    type Label = i64;

    type LabelSummary = SmallCatSummary;

    closed spec fn labels(&self) -> Seq<Option<i64>> {
        self.labels@
    }

    proof fn lemma_labels_len(&self) {
    }

    fn label(&self, pn: PointIndex) -> (r: PointCloudResult<Option<&i64>>) {
        if pn < self.labels.len() as u64 {
            match &self.labels[pn as usize] {
                Some(v) => Ok(Some(v)),
                None => Ok(None),
            }
        } else {
            Err(PointCloudError::DataAccessError { index: pn, reason: "address not found".to_string() })
        }
    }

    fn label_summary(&self, pns: &[PointIndex]) -> (r: PointCloudResult<SmallCatSummary>) {
        summarize_i64_lookups(&self.labels, pns)
    }
}

/// Feeds one fresh summary the label lookup of each index in `pns`, in input
/// order, stopping at the first index outside the label list.
fn summarize_i64_lookups(labels: &Vec<Option<i64>>, pns: &[PointIndex]) -> (r: PointCloudResult<
    SmallCatSummary,
>)
    requires
        pns@.len() < usize::MAX,
    ensures
        match r {
            Ok(s) => {
                &&& forall|i: int|
                    0 <= i < pns@.len() ==> ((#[trigger] pns@[i]) as nat) < labels@.len()
                &&& s.wf()
                &&& s.vals() == summed_vals(lookups_of(labels@, pns@))
                &&& s.nones_spec() == summed_nones(lookups_of(labels@, pns@))
                &&& s.errors_spec() == 0
            },
            Err(e) => exists|i: int|
                {
                    &&& 0 <= i < pns@.len()
                    &&& ((#[trigger] pns@[i]) as nat) >= labels@.len()
                    &&& e.index_spec() == pns@[i]
                    &&& forall|j: int|
                        0 <= j < i ==> ((#[trigger] pns@[j]) as nat) < labels@.len()
                },
        },
{
    let ghost lks = lookups_of(labels@, pns@);
    let mut s = <SmallCatSummary as Summary<i64>>::empty();
    let mut k: usize = 0;
    while k < pns.len()
        invariant
            lks == lookups_of(labels@, pns@),
            pns@.len() < usize::MAX,
            k <= pns@.len(),
            s.wf(),
            s.vals() == summed_vals(lks.take(k as int)),
            s.nones_spec() == summed_nones(lks.take(k as int)),
            s.errors_spec() == 0,
            forall|j: int| 0 <= j < k ==> ((#[trigger] pns@[j]) as nat) < labels@.len(),
        decreases pns@.len() - k,
    {
        let pn = pns[k];
        proof {
            crate::summary::lemma_summed_bounds(lks.take(k as int));
            assert(lks.take(k as int).len() == k);
            assert(lks.take(k as int + 1).drop_last() =~= lks.take(k as int));
            assert(lks.take(k as int + 1).last() == lookup_at(labels@, pn));
        }
        if pn < labels.len() as u64 {
            match &labels[pn as usize] {
                Some(v) => {
                    let lres: PointCloudResult<Option<&i64>> = Ok(Some(v));
                    proof {
                        assert(view_lookup(lres) == lookup_at(labels@, pn));
                    }
                    s.add(lres);
                },
                None => {
                    let lres: PointCloudResult<Option<&i64>> = Ok(None);
                    proof {
                        assert(view_lookup(lres) == lookup_at(labels@, pn));
                    }
                    s.add(lres);
                },
            }
        } else {
            proof {
                assert(((pns@[k as int]) as nat) >= labels@.len());
            }
            return Err(
                PointCloudError::DataAccessError {
                    index: pn,
                    reason: "address not found".to_string(),
                },
            );
        }
        k += 1;
    }
    proof {
        assert(lks.take(pns@.len() as int) =~= lks);
    }
    Ok(s)
}

} // verus!
