//! The plugin framework: per-node metadata computed over the read view of an
//! externally owned cover tree, children before parents, plus the reference
//! bounded coverage-index plugin. A plugin may decline to compute a value;
//! decline is a first-class "no data retained" outcome, not an error.

use crate::errors::PointIndex;
use std::sync::Arc;
use vstd::prelude::*;

verus! {

/// A (resolution level, center point identifier) pair uniquely identifying
/// one tree node.
#[derive(Clone, Copy, PartialEq, Eq, Structural, Debug)]
pub struct NodeAddress {
    pub scale: i32,
    pub center: PointIndex,
}

/// One node of the tree's snapshot-consistent read view: the point indexes
/// absorbed without their own node, how many points the node's subtree
/// covers, and, for a routing node, the scale of its nested self-child and
/// the addresses of its ordinary children.
#[derive(Debug)]
pub struct CoverNodeView {
    pub address: NodeAddress,
    pub singletons: Vec<PointIndex>,
    pub coverage_count: u64,
    pub children: Option<(i32, Vec<NodeAddress>)>,
}

/// The address of a routing node's nested self-child: the same center, at
/// the child scale.
pub open spec fn nested_addr(n: CoverNodeView) -> NodeAddress {
    match n.children {
        Some((ns, _)) => NodeAddress { scale: ns, center: n.address.center },
        None => n.address,
    }
}

/// The ordinary child addresses of a node; empty for a leaf.
pub open spec fn child_addrs(n: CoverNodeView) -> Seq<NodeAddress> {
    match n.children {
        Some((_, cas)) => cas@,
        None => Seq::empty(),
    }
}

/// Whether some node in the list carries the address.
pub open spec fn has_addr(nodes: Seq<CoverNodeView>, a: NodeAddress) -> bool {
    exists|j: int| 0 <= j < nodes.len() && (#[trigger] nodes[j]).address == a
}

/// The node carrying the address.
pub open spec fn node_at_addr(nodes: Seq<CoverNodeView>, a: NodeAddress) -> CoverNodeView {
    nodes[choose|j: int| 0 <= j < nodes.len() && (#[trigger] nodes[j]).address == a]
}

/// The coverage count recorded at an address.
pub open spec fn cov_of(nodes: Seq<CoverNodeView>, a: NodeAddress) -> int {
    node_at_addr(nodes, a).coverage_count as int
}

/// The summed coverage counts of a list of addresses.
pub open spec fn sum_cov(nodes: Seq<CoverNodeView>, cas: Seq<NodeAddress>) -> int
    decreases cas.len(),
{
    if cas.len() == 0 {
        0
    } else {
        sum_cov(nodes, cas.drop_last()) + cov_of(nodes, cas.last())
    }
}

/// Whether the address names a node strictly before position `i`.
pub open spec fn appears_before(nodes: Seq<CoverNodeView>, a: NodeAddress, i: int) -> bool {
    exists|j: int| 0 <= j < i && (#[trigger] nodes[j]).address == a
}

/// A point-in-time read view of the whole tree: every node, each child
/// listed before its parent, the root last. Topology observed through it
/// does not change mid-pass even while a writer mutates the tree.
pub struct CoverTreeView {
    pub nodes: Vec<CoverNodeView>,
}

impl CoverTreeView {
    /// No two nodes share an address.
    pub open spec fn distinct_addresses(&self) -> bool {
        forall|i: int, j: int|
            0 <= i < j < self.nodes@.len() ==> (#[trigger] self.nodes@[i]).address != (
            #[trigger] self.nodes@[j]).address
    }

    /// Every child of the node at position `i` stands earlier in the list.
    pub open spec fn children_before(&self, i: int) -> bool {
        self.nodes@[i].children is Some ==> {
            &&& appears_before(self.nodes@, nested_addr(self.nodes@[i]), i)
            &&& forall|c: int|
                0 <= c < child_addrs(self.nodes@[i]).len() ==> appears_before(
                    self.nodes@,
                    #[trigger] child_addrs(self.nodes@[i])[c],
                    i,
                )
        }
    }

    /// The coverage count of a leaf is its singletons plus its own center;
    /// of a routing node, its singletons plus what its children cover.
    pub open spec fn coverage_consistent_at(&self, i: int) -> bool {
        let n = self.nodes@[i];
        match n.children {
            None => n.coverage_count as int == n.singletons@.len() + 1,
            Some(_) => n.coverage_count as int == n.singletons@.len() + cov_of(
                self.nodes@,
                nested_addr(n),
            ) + sum_cov(self.nodes@, child_addrs(n)),
        }
    }

    /// The consistency the plugin pass relies on from the reader snapshot.
    pub open spec fn wf(&self) -> bool {
        &&& self.distinct_addresses()
        &&& forall|i: int|
            0 <= i < self.nodes@.len() ==> self.children_before(i) && self.coverage_consistent_at(
                i,
            )
    }

    /// The root's address: the last node listed, children standing before
    /// parents.
    pub fn root_address(&self) -> (r: Option<NodeAddress>)
        ensures
            match r {
                Some(a) => self.nodes@.len() > 0 && a == self.nodes@[self.nodes@.len() - 1].address,
                None => self.nodes@.len() == 0,
            },
    {
        if self.nodes.len() > 0 {
            Some(self.nodes[self.nodes.len() - 1].address)
        } else {
            None
        }
    }

    /// The node at an address, if the view holds one.
    pub fn get_node(&self, a: NodeAddress) -> (r: Option<&CoverNodeView>)
        requires
            self.distinct_addresses(),
        ensures
            match r {
                Some(n) => has_addr(self.nodes@, a) && *n == node_at_addr(self.nodes@, a),
                None => !has_addr(self.nodes@, a),
            },
    {
        let mut i: usize = 0;
        while i < self.nodes.len()
            invariant
                self.distinct_addresses(),
                i <= self.nodes@.len(),
                forall|j: int| 0 <= j < i ==> (#[trigger] self.nodes@[j]).address != a,
            decreases self.nodes@.len() - i,
        {
            if self.nodes[i].address == a {
                proof {
                    lemma_node_at(self.nodes@, i as int, a);
                }
                return Some(&self.nodes[i]);
            }
            i += 1;
        }
        None
    }
}

/// With distinct addresses, the node found at `j` is the node the address
/// names.
pub proof fn lemma_node_at(nodes: Seq<CoverNodeView>, j: int, a: NodeAddress)
    requires
        0 <= j < nodes.len(),
        nodes[j].address == a,
        forall|x: int, y: int|
            0 <= x < y < nodes.len() ==> (#[trigger] nodes[x]).address != (
            #[trigger] nodes[y]).address,
    ensures
        has_addr(nodes, a),
        node_at_addr(nodes, a) == nodes[j],
{
    assert(has_addr(nodes, a));
    let k = choose|k: int| 0 <= k < nodes.len() && (#[trigger] nodes[k]).address == a;
    if k != j {
        assert(nodes[if k < j {
            k
        } else {
            j
        }].address != nodes[if k < j {
            j
        } else {
            k
        }].address);
    }
}

/// Per-node plugin values, keyed by node address. Each slot is populated at
/// most once per pass; an address with no entry is an explicit absence.
pub struct PluginStore<C> {
    entries: Vec<(NodeAddress, C)>,
}

impl<C> PluginStore<C> {
    pub closed spec fn entries_seq(&self) -> Seq<(NodeAddress, C)> {
        self.entries@
    }

    /// No address is stored twice.
    pub open spec fn wf(&self) -> bool {
        forall|i: int, j: int|
            0 <= i < j < self.entries_seq().len() ==> (#[trigger] self.entries_seq()[i]).0 != (
            #[trigger] self.entries_seq()[j]).0
    }

    /// Whether a value is stored for the address.
    pub open spec fn has(&self, a: NodeAddress) -> bool {
        exists|j: int|
            0 <= j < self.entries_seq().len() && (#[trigger] self.entries_seq()[j]).0 == a
    }

    /// The value stored for the address.
    pub open spec fn value_spec(&self, a: NodeAddress) -> C {
        self.entries_seq()[choose|j: int|
            0 <= j < self.entries_seq().len() && (#[trigger] self.entries_seq()[j]).0 == a].1
    }

    /// The entry at a position is the one its address names.
    pub proof fn lemma_entry_at(&self, j: int)
        requires
            self.wf(),
            0 <= j < self.entries_seq().len(),
        ensures
            self.has(self.entries_seq()[j].0),
            self.value_spec(self.entries_seq()[j].0) == self.entries_seq()[j].1,
    {
        let a = self.entries_seq()[j].0;
        assert(self.has(a));
        let k = choose|k: int|
            0 <= k < self.entries_seq().len() && (#[trigger] self.entries_seq()[k]).0 == a;
        if k != j {
            assert(self.entries_seq()[if k < j {
                k
            } else {
                j
            }].0 != self.entries_seq()[if k < j {
                j
            } else {
                k
            }].0);
        }
    }

    /// An empty store.
    pub fn new() -> (r: Self)
        ensures
            r.wf(),
            forall|a: NodeAddress| !r.has(a),
            r.entries_seq().len() == 0,
    {
        PluginStore { entries: Vec::new() }
    }

    /// The value stored at an address, if one was computed. `None` is the
    /// distinguishable "no value here" signal: nothing is substituted.
    pub fn get(&self, a: NodeAddress) -> (r: Option<&C>)
        requires
            self.wf(),
        ensures
            match r {
                Some(c) => self.has(a) && *c == self.value_spec(a),
                None => !self.has(a),
            },
    {
        let mut i: usize = 0;
        while i < self.entries.len()
            invariant
                self.wf(),
                i <= self.entries_seq().len(),
                forall|j: int| 0 <= j < i ==> (#[trigger] self.entries_seq()[j]).0 != a,
            decreases self.entries_seq().len() - i,
        {
            if self.entries[i].0 == a {
                proof {
                    self.lemma_entry_at(i as int);
                }
                return Some(&self.entries[i].1);
            }
            i += 1;
        }
        None
    }

    /// Stores a freshly computed value; each slot is written at most once.
    pub fn insert(&mut self, a: NodeAddress, c: C)
        requires
            old(self).wf(),
            !old(self).has(a),
        ensures
            final(self).wf(),
            final(self).has(a),
            final(self).value_spec(a) == c,
            forall|b: NodeAddress|
                b != a ==> (final(self).has(b) <==> old(self).has(b)) && (old(self).has(b)
                    ==> final(self).value_spec(b) == old(self).value_spec(b)),
    {
        self.entries.push((a, c));
        proof {
            let ghost olds = old(self).entries_seq();
            assert(self.entries_seq() == olds.push((a, c)));
            assert forall|x: int, y: int|
                0 <= x < y < self.entries_seq().len() implies (#[trigger] self.entries_seq()[x]).0
                != (#[trigger] self.entries_seq()[y]).0 by {
                if y < olds.len() {
                    assert((olds[x]).0 != (olds[y]).0);
                    assert(self.entries_seq()[x] == olds[x]);
                    assert(self.entries_seq()[y] == olds[y]);
                } else {
                    assert(self.entries_seq()[y] == (a, c));
                    assert(self.entries_seq()[x] == olds[x]);
                    if (olds[x]).0 == a {
                        assert(old(self).has(a));
                    }
                }
            }
            self.lemma_entry_at(olds.len() as int);
            assert forall|b: NodeAddress| b != a && old(self).has(b) implies self.has(b)
                && self.value_spec(b) == old(self).value_spec(b) by {
                let j = choose|j: int| 0 <= j < olds.len() && (#[trigger] olds[j]).0 == b;
                assert(self.entries_seq()[j] == olds[j]);
                old(self).lemma_entry_at(j);
                self.lemma_entry_at(j);
            }
            assert forall|b: NodeAddress| b != a && self.has(b) implies old(self).has(
                b,
            ) by {
                let j = choose|j: int|
                    0 <= j < self.entries_seq().len() && (#[trigger] self.entries_seq()[j]).0 == b;
                assert(j < olds.len());
                assert((olds[j]).0 == b);
            }
        }
    }
}

/// A per-node metadata value.
pub trait NodePlugin: Sized {

}

/// A per-tree metadata value, typically the plugin's configuration.
pub trait TreePlugin: Sized {

}

/// A plugin: one operation that computes an optional per-node value from the
/// tree-wide configuration, one node's view, and the already-computed values
/// of that node's children. Declining (`None`) is an explicit absence, not
/// an error; reading a child before it was computed is a scheduling error
/// ruled out by `children_ready`.
pub trait GokoPlugin: Sized {
    type NodeComponent: NodePlugin;

    type TreeComponent: TreePlugin;

    /// When the store already holds every child value the computation reads.
    spec fn children_ready(
        params: &Self::TreeComponent,
        node: &CoverNodeView,
        store: &PluginStore<Self::NodeComponent>,
    ) -> bool;

    /// What the computed value is, in terms of the children's stored values.
    spec fn computes(
        params: &Self::TreeComponent,
        node: &CoverNodeView,
        store: &PluginStore<Self::NodeComponent>,
        r: Option<Self::NodeComponent>,
    ) -> bool;

    fn node_component(
        params: &Self::TreeComponent,
        my_node: &CoverNodeView,
        store: &PluginStore<Self::NodeComponent>,
    ) -> (r: Option<Self::NodeComponent>)
        requires
            store.wf(),
            Self::children_ready(params, my_node, store),
        ensures
            Self::computes(params, my_node, store, r),
    ;
}

/// Contains all points that a node covers, if the coverage is lower than the
/// limit set in the parameters. Shared and immutable once published, so a
/// node and all ancestors that incorporate it may hold it without copying.
#[derive(Clone)]
pub struct CoverageIndexes {
    pis: Arc<Vec<PointIndex>>,
}

impl CoverageIndexes {
    /// The covered point indexes, in collection order.
    pub closed spec fn pis_spec(&self) -> Seq<PointIndex> {
        self.pis@
    }

    /// Returns all point indexes that the node covers.
    pub fn point_indexes(&self) -> (r: &[PointIndex])
        ensures
            r@ == self.pis_spec(),
    {
        self.pis.as_slice()
    }
}

impl NodePlugin for CoverageIndexes {

}

/// Parameters to control the gathering of indexes: a node's indexes are
/// collected only while its coverage count stays under `max`, bounding
/// memory at the cost of point-level detail for densely covered nodes.
#[derive(Clone, Copy)]
pub struct CoverageIndexesParams {
    pub max: usize,
}

impl TreePlugin for CoverageIndexesParams {

}

/// A plugin that gathers all the indexes that a node covers into an array
/// you can use, up to a configured budget.
pub struct GokoCoverageIndexes {}

impl GokoCoverageIndexes {
    /// Set up the plugin for restricting the number of indexes we collect
    /// into any one node.
    pub fn restricted(max: usize) -> (r: CoverageIndexesParams)
        ensures
            r.max == max,
    {
        CoverageIndexesParams { max }
    }

    /// Set up the plugin for no restrictions.
    pub fn new() -> (r: CoverageIndexesParams)
        ensures
            r.max == usize::MAX,
    {
        CoverageIndexesParams { max: usize::MAX }
    }
}

/// The point indexes the stored child values contribute, in child order.
pub open spec fn children_pis(store: &PluginStore<CoverageIndexes>, cas: Seq<NodeAddress>) -> Seq<
    PointIndex,
>
    decreases cas.len(),
{
    if cas.len() == 0 {
        Seq::empty()
    } else {
        children_pis(store, cas.drop_last()) + store.value_spec(cas.last()).pis_spec()
    }
}

/// The indexes collected for a node: its singletons, then (for a leaf) its
/// own center, or (for a routing node) the nested self-child's value and
/// each ordinary child's value, in order.
pub open spec fn expected_pis(
    node: &CoverNodeView,
    store: &PluginStore<CoverageIndexes>,
) -> Seq<PointIndex> {
    match node.children {
        None => node.singletons@.push(node.address.center),
        Some(_) => node.singletons@ + store.value_spec(nested_addr(*node)).pis_spec()
            + children_pis(store, child_addrs(*node)),
    }
}

/// Appends a stored child value's indexes.
fn extend_indexes(dst: &mut Vec<PointIndex>, src: &[PointIndex])
    ensures
        final(dst)@ == old(dst)@ + src@,
{
    let ghost d0 = dst@;
    let mut i: usize = 0;
    while i < src.len()
        invariant
            i <= src@.len(),
            dst@ == d0 + src@.take(i as int),
        decreases src@.len() - i,
    {
        dst.push(src[i]);
        proof {
            assert(d0 + src@.take(i as int + 1) =~= (d0 + src@.take(i as int)).push(
                src@[i as int],
            ));
        }
        i += 1;
    }
    proof {
        assert(d0 + src@.take(src@.len() as int) =~= d0 + src@);
    }
}

impl GokoPlugin for GokoCoverageIndexes {
    type NodeComponent = CoverageIndexes;

    type TreeComponent = CoverageIndexesParams;

    /// Under the budget, the nested self-child's and every ordinary child's
    /// value must already be stored.
    open spec fn children_ready(
        params: &CoverageIndexesParams,
        node: &CoverNodeView,
        store: &PluginStore<CoverageIndexes>,
    ) -> bool {
        ((node.coverage_count as int) < (params.max as int) && node.children is Some) ==> {
            &&& store.has(nested_addr(*node))
            &&& forall|c: int|
                0 <= c < child_addrs(*node).len() ==> store.has(#[trigger] child_addrs(*node)[c])
        }
    }

    /// A value is present exactly when the node's coverage is under the
    /// budget, and then holds exactly the expected indexes.
    open spec fn computes(
        params: &CoverageIndexesParams,
        node: &CoverNodeView,
        store: &PluginStore<CoverageIndexes>,
        r: Option<CoverageIndexes>,
    ) -> bool {
        match r {
            None => (node.coverage_count as int) >= (params.max as int),
            Some(c) => (node.coverage_count as int) < (params.max as int) && c.pis_spec()
                == expected_pis(node, store),
        }
    }

    fn node_component(
        params: &CoverageIndexesParams,
        my_node: &CoverNodeView,
        store: &PluginStore<CoverageIndexes>,
    ) -> (r: Option<CoverageIndexes>) {
        if my_node.coverage_count < params.max as u64 {
            let mut indexes: Vec<PointIndex> = Vec::new();
            extend_indexes(&mut indexes, my_node.singletons.as_slice());
            match &my_node.children {
                Some((nested_scale, child_addresses)) => {
                    let nested = NodeAddress { scale: *nested_scale, center: my_node.address.center };
                    proof {
                        assert(nested == nested_addr(*my_node));
                    }
                    match store.get(nested) {
                        Some(p) => extend_indexes(&mut indexes, p.point_indexes()),
                        // A child not yet computed is a scheduling violation:
                        // fatal, never a silently substituted default.
                        None => vstd::pervasive::unreached(),
                    }
                    let ghost cas = child_addrs(*my_node);
                    let mut c: usize = 0;
                    while c < child_addresses.len()
                        invariant
                            store.wf(),
                            cas == child_addresses@,
                            c <= cas.len(),
                            forall|x: int| 0 <= x < cas.len() ==> store.has(#[trigger] cas[x]),
                            indexes@ == my_node.singletons@ + store.value_spec(
                                nested_addr(*my_node),
                            ).pis_spec() + children_pis(store, cas.take(c as int)),
                        decreases cas.len() - c,
                    {
                        proof {
                            assert(cas.take(c as int + 1).drop_last() =~= cas.take(c as int));
                            assert(cas.take(c as int + 1).last() == cas[c as int]);
                        }
                        match store.get(child_addresses[c]) {
                            Some(p) => extend_indexes(&mut indexes, p.point_indexes()),
                            // A scheduling violation, as above: fatal.
                            None => vstd::pervasive::unreached(),
                        }
                        proof {
                            assert(indexes@ =~= my_node.singletons@ + store.value_spec(
                                nested_addr(*my_node),
                            ).pis_spec() + children_pis(store, cas.take(c as int + 1)));
                        }
                        c += 1;
                    }
                    proof {
                        assert(cas.take(cas.len() as int) =~= cas);
                    }
                },
                None => {
                    indexes.push(my_node.address.center);
                },
            }
            Some(CoverageIndexes { pis: Arc::new(indexes) })
        } else {
            None
        }
    }
}

/// Each listed address's coverage is at most the list's summed coverage.
proof fn lemma_sum_cov_each(nodes: Seq<CoverNodeView>, cas: Seq<NodeAddress>, c: int)
    requires
        0 <= c < cas.len(),
    ensures
        cov_of(nodes, cas[c]) <= sum_cov(nodes, cas),
        sum_cov(nodes, cas) >= 0,
    decreases cas.len(),
{
    lemma_sum_cov_nonneg(nodes, cas.drop_last());
    if c == cas.len() - 1 {
    } else {
        lemma_sum_cov_each(nodes, cas.drop_last(), c);
    }
}

proof fn lemma_sum_cov_nonneg(nodes: Seq<CoverNodeView>, cas: Seq<NodeAddress>)
    ensures
        sum_cov(nodes, cas) >= 0,
    decreases cas.len(),
{
    if cas.len() > 0 {
        lemma_sum_cov_nonneg(nodes, cas.drop_last());
    }
}

/// When every listed child's stored value holds exactly as many indexes as
/// that child covers, the concatenation holds the summed coverage.
proof fn lemma_children_pis_len(
    nodes: Seq<CoverNodeView>,
    store: &PluginStore<CoverageIndexes>,
    cas: Seq<NodeAddress>,
)
    requires
        forall|c: int|
            0 <= c < cas.len() ==> store.value_spec(#[trigger] cas[c]).pis_spec().len() == cov_of(
                nodes,
                cas[c],
            ),
    ensures
        children_pis(store, cas).len() == sum_cov(nodes, cas),
    decreases cas.len(),
{
    if cas.len() > 0 {
        lemma_children_pis_len(nodes, store, cas.drop_last());
    }
}

/// The concatenated child values are the same under two stores that agree on
/// every listed child.
proof fn lemma_children_pis_frame(
    s0: &PluginStore<CoverageIndexes>,
    s1: &PluginStore<CoverageIndexes>,
    cas: Seq<NodeAddress>,
)
    requires
        forall|c: int|
            0 <= c < cas.len() ==> s1.value_spec(#[trigger] cas[c]) == s0.value_spec(cas[c]),
    ensures
        children_pis(s1, cas) == children_pis(s0, cas),
    decreases cas.len(),
{
    if cas.len() > 0 {
        lemma_children_pis_frame(s0, s1, cas.drop_last());
    }
}

/// Storing one more node's value leaves an already-computed node's expected
/// indexes unchanged: that node's children stand earlier in the list and
/// keep their stored values.
proof fn lemma_expected_frame(
    tree: &CoverTreeView,
    s0: &PluginStore<CoverageIndexes>,
    s1: &PluginStore<CoverageIndexes>,
    params: &CoverageIndexesParams,
    i: int,
    j: int,
)
    requires
        tree.wf(),
        0 <= j <= i < tree.nodes@.len(),
        (tree.nodes@[j].coverage_count as int) < (params.max as int),
        forall|m: int|
            0 <= m < i ==> (((#[trigger] tree.nodes@[m]).coverage_count as int) < (
            params.max as int) ==> s0.has(tree.nodes@[m].address)),
        forall|b: NodeAddress|
            b != tree.nodes@[i].address && s0.has(b) ==> #[trigger] s1.value_spec(b)
                == s0.value_spec(b),
    ensures
        expected_pis(&tree.nodes@[j], s1) == expected_pis(&tree.nodes@[j], s0),
{
    let nodes = tree.nodes@;
    let nj = nodes[j];
    if nj.children is Some {
        assert(tree.children_before(j));
        assert(tree.coverage_consistent_at(j));
        let na = nested_addr(nj);
        let cas = child_addrs(nj);
        lemma_sum_cov_nonneg(nodes, cas);
        let jn = choose|m: int| 0 <= m < j && (#[trigger] nodes[m]).address == na;
        lemma_node_at(nodes, jn, na);
        assert(cov_of(nodes, na) < params.max as int);
        assert(s0.has(na));
        assert(nodes[jn].address != nodes[i].address);
        assert(s1.value_spec(na) == s0.value_spec(na));
        assert forall|cix: int| 0 <= cix < cas.len() implies s1.value_spec(#[trigger] cas[cix])
            == s0.value_spec(cas[cix]) by {
            lemma_sum_cov_each(nodes, cas, cix);
            let jc = choose|m: int| 0 <= m < j && (#[trigger] nodes[m]).address == cas[cix];
            lemma_node_at(nodes, jc, cas[cix]);
            assert(cov_of(nodes, cas[cix]) < params.max as int);
            assert(s0.has(cas[cix]));
            assert(nodes[jc].address != nodes[i].address);
        }
        lemma_children_pis_frame(s0, s1, cas);
    }
}

impl GokoCoverageIndexes {
    /// One full bottom-up computation pass: visits the nodes in the order
    /// the view lists them -- every child before its parent -- and computes
    /// each node's component. Afterwards every node covering fewer points
    /// than the budget holds exactly the indexes expected of it -- its
    /// singletons plus its children's stored values, as many as its coverage
    /// count -- and every other node holds none.
    pub fn compute_coverage(tree: &CoverTreeView, params: &CoverageIndexesParams) -> (r:
        PluginStore<CoverageIndexes>)
        requires
            tree.wf(),
        ensures
            r.wf(),
            forall|a: NodeAddress|
                #[trigger] r.has(a) ==> has_addr(tree.nodes@, a) && (cov_of(tree.nodes@, a)
                    < params.max as int),
            forall|i: int|
                0 <= i < tree.nodes@.len() ==> {
                    let n = #[trigger] tree.nodes@[i];
                    &&& ((n.coverage_count as int) < (params.max as int) <==> r.has(n.address))
                    &&& ((n.coverage_count as int) < (params.max as int) ==> r.value_spec(
                        n.address,
                    ).pis_spec().len() == n.coverage_count as int && r.value_spec(
                        n.address,
                    ).pis_spec() == expected_pis(&n, &r))
                },
    {
        let ghost nodes = tree.nodes@;
        let mut store = PluginStore::<CoverageIndexes>::new();
        let mut i: usize = 0;
        while i < tree.nodes.len()
            invariant
                tree.wf(),
                nodes == tree.nodes@,
                i <= nodes.len(),
                store.wf(),
                forall|a: NodeAddress|
                    #[trigger] store.has(a) ==> appears_before(nodes, a, i as int) && (cov_of(
                        nodes,
                        a,
                    ) < params.max as int),
                forall|j: int|
                    0 <= j < i ==> {
                        let n = #[trigger] nodes[j];
                        &&& ((n.coverage_count as int) < (params.max as int) <==> store.has(
                            n.address,
                        ))
                        &&& ((n.coverage_count as int) < (params.max as int) ==> store.value_spec(
                            n.address,
                        ).pis_spec().len() == n.coverage_count as int && store.value_spec(
                            n.address,
                        ).pis_spec() == expected_pis(&n, &store))
                    },
            decreases nodes.len() - i,
        {
            let my_node = &tree.nodes[i];
            proof {
                assert(tree.children_before(i as int));
                assert(tree.coverage_consistent_at(i as int));
                if (my_node.coverage_count as int) < (params.max as int)
                    && my_node.children is Some {
                    let na = nested_addr(*my_node);
                    let cas = child_addrs(*my_node);
                    let j = choose|j: int| 0 <= j < i && (#[trigger] nodes[j]).address == na;
                    lemma_node_at(nodes, j, na);
                    lemma_sum_cov_nonneg(nodes, cas);
                    assert(cov_of(nodes, na) < params.max as int);
                    assert(store.has(na));
                    assert forall|c: int| 0 <= c < cas.len() implies store.has(
                        #[trigger] cas[c],
                    ) by {
                        lemma_sum_cov_each(nodes, cas, c);
                        let jc = choose|j: int|
                            0 <= j < i && (#[trigger] nodes[j]).address == cas[c];
                        lemma_node_at(nodes, jc, cas[c]);
                        assert(cov_of(nodes, cas[c]) < params.max as int);
                    }
                }
            }
            let comp = <GokoCoverageIndexes as GokoPlugin>::node_component(
                params,
                my_node,
                &store,
            );
            let ghost store0 = store;
            match comp {
                Some(c) => {
                    proof {
                        if store.has(my_node.address) {
                            assert(appears_before(nodes, my_node.address, i as int));
                            let j = choose|j: int|
                                0 <= j < i && (#[trigger] nodes[j]).address == my_node.address;
                            assert(nodes[j].address == nodes[i as int].address);
                        }
                        lemma_node_at(nodes, i as int, my_node.address);
                        if my_node.children is Some {
                            let na = nested_addr(*my_node);
                            let cas = child_addrs(*my_node);
                            let jn = choose|j: int|
                                0 <= j < i && (#[trigger] nodes[j]).address == na;
                            lemma_node_at(nodes, jn, na);
                            assert(store.value_spec(na).pis_spec().len() == cov_of(nodes, na));
                            assert forall|c: int| 0 <= c < cas.len() implies store.value_spec(
                                #[trigger] cas[c],
                            ).pis_spec().len() == cov_of(nodes, cas[c]) by {
                                let jc = choose|j: int|
                                    0 <= j < i && (#[trigger] nodes[j]).address == cas[c];
                                lemma_node_at(nodes, jc, cas[c]);
                            }
                            lemma_children_pis_len(nodes, &store, cas);
                        }
                        assert(c.pis_spec().len() == my_node.coverage_count as int);
                    }
                    store.insert(my_node.address, c);
                    proof {
                        assert forall|j: int| 0 <= j < i + 1 implies {
                            let n = #[trigger] nodes[j];
                            &&& ((n.coverage_count as int) < (params.max as int) <==> store.has(
                                n.address,
                            ))
                            &&& ((n.coverage_count as int) < (params.max as int)
                                ==> store.value_spec(n.address).pis_spec().len()
                                == n.coverage_count as int && store.value_spec(
                                n.address,
                            ).pis_spec() == expected_pis(&n, &store))
                        } by {
                            let n = nodes[j];
                            if j < i {
                                if n.address == my_node.address {
                                    assert(nodes[j].address == nodes[i as int].address);
                                }
                                if (n.coverage_count as int) < (params.max as int) {
                                    assert(store0.has(n.address));
                                    assert(store.value_spec(n.address) == store0.value_spec(
                                        n.address,
                                    ));
                                    lemma_expected_frame(
                                        tree,
                                        &store0,
                                        &store,
                                        params,
                                        i as int,
                                        j,
                                    );
                                }
                            } else {
                                assert(store.value_spec(n.address) == c);
                                lemma_expected_frame(
                                    tree,
                                    &store0,
                                    &store,
                                    params,
                                    i as int,
                                    i as int,
                                );
                            }
                        }
                    }
                },
                None => {
                    proof {
                        if store.has(my_node.address) {
                            let j = choose|j: int|
                                0 <= j < i && (#[trigger] nodes[j]).address == my_node.address;
                            assert(nodes[j].address == nodes[i as int].address);
                        }
                    }
                },
            }
            i += 1;
        }
        proof {
            assert forall|a: NodeAddress| #[trigger] store.has(a) implies has_addr(nodes, a) && (
            cov_of(nodes, a) < params.max as int) by {
                let j = choose|j: int|
                    0 <= j < nodes.len() && (#[trigger] nodes[j]).address == a;
            }
        }
        store
    }
}

} // verus!
