//! The glued cloud: one logical index space over an ordered list of physical
//! sources. An address map from global index to (source ordinal, local index)
//! is built once, at construction, by concatenating sources in the order
//! supplied, and never mutated afterward.

use crate::cloud::LabeledCloud;
use crate::cloud::PointCloud;
use crate::errors::PointCloudError;
use crate::errors::PointCloudResult;
use crate::errors::PointIndex;
use crate::seqs::concat_all;
use crate::seqs::concat_offset;
use crate::seqs::lemma_concat_all_empty;
use crate::seqs::lemma_concat_index;
use crate::seqs::lemma_concat_prefix;
use crate::seqs::lemma_concat_take_succ;
use crate::summary::lemma_summed_bounds;
use crate::summary::lookup_at;
use crate::summary::lookups_of;
use crate::summary::summed_nones;
use crate::summary::summed_vals;
use crate::summary::view_lookup;
use crate::summary::Summary;
use vstd::prelude::*;

verus! {

/// Each source's points, in source order.
pub open spec fn points_of<D: PointCloud>(srcs: Seq<D>) -> Seq<Seq<D::Point>> {
    srcs.map_values(|d: D| d.points())
}

/// The one logical index space: all sources' points, concatenated in order.
pub open spec fn glued_points<D: PointCloud>(srcs: Seq<D>) -> Seq<D::Point> {
    concat_all(points_of(srcs))
}

/// The global index at which source `k`'s points begin.
pub open spec fn source_offset<D: PointCloud>(srcs: Seq<D>, k: int) -> int {
    concat_offset(points_of(srcs), k)
}

/// Each source's label slots, in source order.
pub open spec fn labels_of<D: LabeledCloud>(srcs: Seq<D>) -> Seq<
    Seq<Option<<D::Label as DeepView>::V>>,
> {
    srcs.map_values(|d: D| d.labels())
}

/// What it means for `(source ordinal, local index)` to be the resolution of
/// global index `i`.
pub open spec fn valid_address<D: PointCloud>(
    srcs: Seq<D>,
    a: (usize, PointIndex),
    i: PointIndex,
) -> bool {
    &&& (a.0 as int) < srcs.len()
    &&& (a.1 as nat) < srcs[a.0 as int].points().len()
    &&& source_offset(srcs, a.0 as int) + a.1 == i
}

/// Address table from global point index to (source ordinal, local index).
/// Holds a `hashbrown::HashMap` keyed with fxhash's fast hasher.
#[verifier::external_body]
pub struct AddrMap {
    m: hashbrown::HashMap<u64, (usize, u64), fxhash::FxBuildHasher>,
}

/// The address table an `AddrMap` holds.
pub uninterp spec fn addr_map(m: AddrMap) -> Map<u64, (usize, u64)>;

/// Relies on hashbrown::HashMap::with_hasher, with fxhash::FxBuildHasher's
/// Default: a freshly created map is empty.
#[verifier::external_body]
fn addr_map_new() -> (r: AddrMap)
    ensures
        addr_map(r) =~= Map::empty(),
{
    AddrMap { m: hashbrown::HashMap::with_hasher(fxhash::FxBuildHasher::default()) }
}

/// Relies on hashbrown::HashMap::insert: stores `v` under `k`.
#[verifier::external_body]
fn addr_map_insert(m: &mut AddrMap, k: u64, v: (usize, PointIndex))
    ensures
        addr_map(*final(m)) == addr_map(*old(m)).insert(k, v),
{
    m.m.insert(k, v);
}

/// Relies on hashbrown::HashMap::get: the stored address under `k`, if any.
#[verifier::external_body]
fn addr_map_get(m: &AddrMap, k: u64) -> (r: Option<(usize, PointIndex)>)
    ensures
        match r {
            Some(a) => addr_map(*m).contains_key(k) && addr_map(*m)[k] == a,
            None => !addr_map(*m).contains_key(k),
        },
{
    m.m.get(&k).copied()
}

/// Relies on hashbrown::HashMap::keys: every key, each once, in no promised
/// order.
#[verifier::external_body]
fn addr_map_keys(m: &AddrMap) -> (r: Vec<u64>)
    ensures
        r@.no_duplicates(),
        forall|i: int| 0 <= i < r@.len() ==> addr_map(*m).contains_key(#[trigger] r@[i]),
        forall|g: u64| addr_map(*m).contains_key(g) ==> r@.contains(g),
{
    m.m.keys().copied().collect()
}

/// For large numbers of underlying point clouds: a composite cloud over an
/// ordered list of sources, resolved through the address map.
pub struct HashGluedCloud<D: PointCloud> {
    addresses: AddrMap,
    data_sources: Vec<D>,
}

impl<D: PointCloud> HashGluedCloud<D> {
    /// The sources, in the order supplied at construction.
    pub closed spec fn sources(&self) -> Seq<D> {
        self.data_sources@
    }

    /// Creates a new one; preserves the order of the supplied sources.
    pub fn new(data_sources: Vec<D>) -> (r: HashGluedCloud<D>)
        requires
            glued_points(data_sources@).len() <= usize::MAX,
            forall|k: int| 0 <= k < data_sources@.len() ==> (#[trigger] data_sources@[k]).inv(),
        ensures
            r.inv(),
            r.sources() == data_sources@,
    {
        let ghost srcs = data_sources@;
        let ghost total = glued_points(data_sources@).len() as int;
        let mut addresses = addr_map_new();
        let mut pi: PointIndex = 0;
        let mut i: usize = 0;
        while i < data_sources.len()
            invariant
                srcs == data_sources@,
                total == glued_points(srcs).len() as int,
                total <= usize::MAX,
                forall|k: int| 0 <= k < srcs.len() ==> (#[trigger] srcs[k]).inv(),
                i <= srcs.len(),
                pi as int == source_offset(srcs, i as int),
                forall|g: u64| addr_map(addresses).contains_key(g) <==> (g as int) < pi as int,
                forall|g: u64|
                    addr_map(addresses).contains_key(g) ==> valid_address(
                        srcs,
                        #[trigger] addr_map(addresses)[g],
                        g,
                    ),
            decreases srcs.len() - i,
        {
            proof {
                lemma_concat_take_succ(points_of(srcs), i as int);
                lemma_concat_prefix(points_of(srcs), i as int + 1);
                assert(points_of(srcs)[i as int] == srcs[i as int].points());
            }
            let n = self_len(&data_sources, i);
            let mut j: usize = 0;
            while j < n
                invariant
                    srcs == data_sources@,
                    total == glued_points(srcs).len() as int,
                    total <= usize::MAX,
                    forall|k: int| 0 <= k < srcs.len() ==> (#[trigger] srcs[k]).inv(),
                    i < srcs.len(),
                    n == srcs[i as int].points().len(),
                    j <= n,
                    source_offset(srcs, i as int) + n <= total,
                    pi as int == source_offset(srcs, i as int) + j,
                    forall|g: u64| addr_map(addresses).contains_key(g) <==> (g as int) < pi as int,
                    forall|g: u64|
                        addr_map(addresses).contains_key(g) ==> valid_address(
                            srcs,
                            #[trigger] addr_map(addresses)[g],
                            g,
                        ),
                decreases n - j,
            {
                addr_map_insert(&mut addresses, pi, (i, j as u64));
                pi = pi + 1;
                j += 1;
            }
            i += 1;
        }
        proof {
            assert(points_of(srcs).take(srcs.len() as int) =~= points_of(srcs));
        }
        HashGluedCloud { addresses, data_sources }
    }

    /// Extracts the underlying point clouds.
    pub fn take_data_sources(self) -> (r: Vec<D>)
        ensures
            r@ == self.sources(),
    {
        self.data_sources
    }

    /// Resolves a global index to (source ordinal, local index) through the
    /// address map, or reports a data-access error naming the index.
    pub fn get_address(&self, pn: PointIndex) -> (r: PointCloudResult<(usize, PointIndex)>)
        requires
            self.inv(),
        ensures
            match r {
                Ok(a) => (pn as nat) < glued_points(self.sources()).len() && valid_address(
                    self.sources(),
                    a,
                    pn,
                ),
                Err(e) => (pn as nat) >= glued_points(self.sources()).len() && e.index_spec()
                    == pn,
            },
    {
        match addr_map_get(&self.addresses, pn) {
            Some(a) => Ok(a),
            None => Err(
                PointCloudError::DataAccessError {
                    index: pn,
                    reason: "address not found".to_string(),
                },
            ),
        }
    }
}

/// The length of source `i`, read through its own capability.
fn self_len<D: PointCloud>(data_sources: &Vec<D>, i: usize) -> (r: usize)
    requires
        i < data_sources@.len(),
        data_sources@[i as int].inv(),
    ensures
        r == data_sources@[i as int].points().len(),
{
    data_sources[i].len()
}

impl<D: PointCloud> PointCloud for HashGluedCloud<D> {
    type Point = D::Point;

    closed spec fn inv(&self) -> bool {
        &&& forall|k: int|
            0 <= k < self.data_sources@.len() ==> (#[trigger] self.data_sources@[k]).inv()
        &&& glued_points(self.data_sources@).len() <= usize::MAX
        &&& forall|g: u64|
            addr_map(self.addresses).contains_key(g) <==> (g as nat) < glued_points(
                self.data_sources@,
            ).len()
        &&& forall|g: u64|
            addr_map(self.addresses).contains_key(g) ==> valid_address(
                self.data_sources@,
                #[trigger] addr_map(self.addresses)[g],
                g,
            )
    }

    open spec fn points(&self) -> Seq<D::Point> {
        glued_points(self.sources())
    }

    open spec fn dim_spec(&self) -> nat {
        self.sources()[0].dim_spec()
    }

    /// A composite of zero sources reports itself nonempty; with sources, it
    /// is empty exactly when every source reports empty.
    open spec fn is_empty_spec(&self) -> bool {
        self.sources().len() > 0 && (forall|k: int|
            0 <= k < self.sources().len() ==> (#[trigger] self.sources()[k]).is_empty_spec())
    }

    open spec fn dim_defined(&self) -> bool {
        self.sources().len() > 0 && self.sources()[0].dim_defined()
    }

    fn len(&self) -> (r: usize) {
        let ghost srcs = self.data_sources@;
        let mut acc: usize = 0;
        let mut k: usize = 0;
        while k < self.data_sources.len()
            invariant
                self.inv(),
                srcs == self.data_sources@,
                k <= srcs.len(),
                acc as int == source_offset(srcs, k as int),
            decreases srcs.len() - k,
        {
            proof {
                lemma_concat_take_succ(points_of(srcs), k as int);
                lemma_concat_prefix(points_of(srcs), k as int + 1);
                assert(points_of(srcs)[k as int] == srcs[k as int].points());
            }
            let n = self_len(&self.data_sources, k);
            acc = acc + n;
            k += 1;
        }
        proof {
            assert(points_of(srcs).take(srcs.len() as int) =~= points_of(srcs));
        }
        acc
    }

    fn is_empty(&self) -> (r: bool) {
        if self.data_sources.len() == 0 {
            false
        } else {
            let mut k: usize = 0;
            while k < self.data_sources.len()
                invariant
                    self.inv(),
                    k <= self.data_sources@.len(),
                    forall|j: int|
                        0 <= j < k ==> (#[trigger] self.data_sources@[j]).is_empty_spec(),
                decreases self.data_sources@.len() - k,
            {
                if !self.data_sources[k].is_empty() {
                    return false;
                }
                k += 1;
            }
            true
        }
    }

    fn dim(&self) -> (r: usize) {
        self.data_sources[0].dim()
    }

    fn point(&self, pn: PointIndex) -> (r: PointCloudResult<&D::Point>) {
        match self.get_address(pn) {
            Ok((i, j)) => {
                proof {
                    lemma_concat_index(points_of(self.data_sources@), i as int, j as int);
                    assert(points_of(self.data_sources@)[i as int]
                        == self.data_sources@[i as int].points());
                }
                self.data_sources[i].point(j)
            },
            Err(e) => Err(e),
        }
    }

    fn reference_indexes(&self) -> (r: Vec<PointIndex>) {
        addr_map_keys(&self.addresses)
    }
}

/// The label offsets of a source list line up with its point offsets: each
/// source holds one label slot per point.
proof fn lemma_label_offsets<D: LabeledCloud>(srcs: Seq<D>, k: int)
    requires
        0 <= k <= srcs.len(),
        forall|m: int| 0 <= m < srcs.len() ==> (#[trigger] srcs[m]).inv(),
    ensures
        concat_all(labels_of(srcs).take(k)).len() == concat_all(points_of(srcs).take(k)).len(),
    decreases k,
{
    if k > 0 {
        lemma_label_offsets(srcs, k - 1);
        lemma_concat_take_succ(labels_of(srcs), k - 1);
        lemma_concat_take_succ(points_of(srcs), k - 1);
        assert(labels_of(srcs)[k - 1] == srcs[k - 1].labels());
        assert(points_of(srcs)[k - 1] == srcs[k - 1].points());
        srcs[k - 1].lemma_labels_len();
    }
}

impl<D: LabeledCloud> LabeledCloud for HashGluedCloud<D> {
    type Label = D::Label;

    type LabelSummary = D::LabelSummary;

    open spec fn labels(&self) -> Seq<Option<<D::Label as DeepView>::V>> {
        concat_all(labels_of(self.sources()))
    }

    proof fn lemma_labels_len(&self) {
        lemma_label_offsets(self.data_sources@, self.data_sources@.len() as int);
        assert(labels_of(self.data_sources@).take(self.data_sources@.len() as int) =~= labels_of(
            self.data_sources@,
        ));
        assert(points_of(self.data_sources@).take(self.data_sources@.len() as int) =~= points_of(
            self.data_sources@,
        ));
    }

    fn label(&self, pn: PointIndex) -> (r: PointCloudResult<Option<&D::Label>>) {
        proof {
            self.lemma_labels_len();
        }
        match self.get_address(pn) {
            Ok((i, j)) => {
                proof {
                    self.data_sources@[i as int].lemma_labels_len();
                    lemma_label_offsets(self.data_sources@, i as int);
                    lemma_concat_index(labels_of(self.data_sources@), i as int, j as int);
                    assert(labels_of(self.data_sources@)[i as int]
                        == self.data_sources@[i as int].labels());
                    assert(points_of(self.data_sources@)[i as int]
                        == self.data_sources@[i as int].points());
                }
                self.data_sources[i].label(j)
            },
            Err(e) => Err(e),
        }
    }

    fn label_summary(&self, pns: &[PointIndex]) -> (r: PointCloudResult<D::LabelSummary>) {
        proof {
            self.lemma_labels_len();
        }
        let ghost lks = lookups_of(self.labels(), pns@);
        let mut s = <D::LabelSummary as Summary<D::Label>>::empty();
        let mut k: usize = 0;
        while k < pns.len()
            invariant
                self.inv(),
                self.labels().len() == self.points().len(),
                lks == lookups_of(self.labels(), pns@),
                pns@.len() < usize::MAX,
                k <= pns@.len(),
                s.wf(),
                s.vals() == summed_vals(lks.take(k as int)),
                s.nones_spec() == summed_nones(lks.take(k as int)),
                s.errors_spec() == 0,
                forall|j: int| 0 <= j < k ==> ((#[trigger] pns@[j]) as nat) < self.points().len(),
            decreases pns@.len() - k,
        {
            let pn = pns[k];
            proof {
                lemma_summed_bounds(lks.take(k as int));
                assert(lks.take(k as int).len() == k);
                assert(lks.take(k as int + 1).drop_last() =~= lks.take(k as int));
                assert(lks.take(k as int + 1).last() == lookup_at(self.labels(), pn));
            }
            match self.get_address(pn) {
                Err(e) => {
                    proof {
                        assert(((pns@[k as int]) as nat) >= self.points().len());
                    }
                    return Err(e);
                },
                Ok((i, j)) => {
                    proof {
                        self.data_sources@[i as int].lemma_labels_len();
                        lemma_label_offsets(self.data_sources@, i as int);
                        lemma_concat_index(labels_of(self.data_sources@), i as int, j as int);
                        assert(labels_of(self.data_sources@)[i as int]
                            == self.data_sources@[i as int].labels());
                        assert(points_of(self.data_sources@)[i as int]
                            == self.data_sources@[i as int].points());
                    }
                    let lres = self.data_sources[i].label(j);
                    proof {
                        assert(view_lookup(lres) == lookup_at(self.labels(), pn));
                    }
                    s.add(lres);
                },
            }
            k += 1;
        }
        proof {
            assert(lks.take(pns@.len() as int) =~= lks);
        }
        Ok(s)
    }
}

/// Resolving a global index through a source list's offsets and reading the
/// source directly returns exactly the point the glued index space holds at
/// that global index.
pub proof fn lemma_glued_resolution<D: PointCloud>(srcs: Seq<D>, k: int, j: int)
    requires
        0 <= k < srcs.len(),
        0 <= j < srcs[k].points().len(),
    ensures
        0 <= source_offset(srcs, k) + j < glued_points(srcs).len(),
        glued_points(srcs)[source_offset(srcs, k) + j] == srcs[k].points()[j],
{
    lemma_concat_index(points_of(srcs), k, j);
    assert(points_of(srcs)[k] == srcs[k].points());
}

/// A glued cloud with zero sources never reports empty, though it holds no
/// point; with at least one source it reports empty exactly when every
/// source reports empty. Its index space is empty exactly when every
/// source's is.
pub proof fn lemma_glued_is_empty<D: PointCloud>(c: &HashGluedCloud<D>)
    ensures
        c.sources().len() == 0 ==> !c.is_empty_spec() && c.points().len() == 0,
        c.sources().len() > 0 ==> (c.is_empty_spec() <==> (forall|k: int|
            0 <= k < c.sources().len() ==> (#[trigger] c.sources()[k]).is_empty_spec())),
        (c.points().len() == 0) <==> (forall|k: int|
            0 <= k < c.sources().len() ==> (#[trigger] c.sources()[k]).points().len() == 0),
{
    let ss = points_of(c.sources());
    lemma_concat_all_empty(ss);
    if forall|k: int| 0 <= k < c.sources().len() ==> (#[trigger] c.sources()[k]).points().len()
        == 0 {
        assert forall|k: int| 0 <= k < ss.len() implies #[trigger] ss[k].len() == 0 by {
            assert(ss[k] == c.sources()[k].points());
        }
        assert(c.points().len() == 0);
    }
    if c.points().len() == 0 {
        assert forall|k: int|
            0 <= k < c.sources().len() implies (#[trigger] c.sources()[k]).points().len() == 0 by {
            assert(ss[k] == c.sources()[k].points());
            assert(ss[k].len() == 0);
        }
    }
}

} // verus!
