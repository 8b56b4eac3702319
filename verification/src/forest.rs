//! The node arena: a struct-of-arrays store for layout trees.
//!
//! A forest keeps three parallel growable sequences — node records, child
//! lists and parent lists — indexed by a shared integer identity. It owns
//! the bidirectional parent/child adjacency, the compacting removal that
//! relocates the last node into a freed slot, and the dirty-propagation
//! protocol that invalidates memoized measurements.
//!
//! A node may have several parents, so the parent/child relation forms a
//! directed acyclic graph rather than a strict tree. Identities are dense:
//! every integer below the node count names exactly one live node, and a
//! compacting removal may reassign the identity of the node that was last.

use vstd::prelude::*;

use crate::geometry::{Point, Size};
use crate::style::{FlexboxLayout, ScalarBits};

verus! {

/// An integer handle naming a node within one [`Forest`].
///
/// Valid only relative to that forest, and only until a compacting removal
/// reassigns identities; the caller must treat the value returned by
/// [`Forest::swap_remove`] as a mandatory remap signal.
pub type NodeId = usize;

/// The result of a layout computation for one node: a position and a size,
/// written back by the embedding host's layout algorithm.
#[derive(Debug, Copy, Clone, PartialEq, Eq)]
pub struct Layout {
    /// The relative ordering of the node among its siblings
    pub order: u32,
    /// The computed width and height, as scalar bit patterns
    pub size: Size<ScalarBits>,
    /// The computed bottom-left corner, as scalar bit patterns
    pub location: Point<ScalarBits>,
}

impl Layout {
    /// The layout of a node that has never been measured: order zero, zero
    /// size, placed at the origin.
    pub open spec fn spec_new() -> Layout {
        Layout {
            order: 0,
            size: Size { width: 0, height: 0 },
            location: Point { x: 0, y: 0 },
        }
    }

    /// Creates a layout with all fields zeroed.
    pub fn new() -> (r: Layout)
        ensures
            r == Layout::spec_new(),
    {
        Layout {
            order: 0,
            size: Size { width: 0, height: 0 },
            location: Point { x: 0, y: 0 },
        }
    }
}

/// One memoized result of the two-pass measurement protocol: the constraints
/// a measurement was made under, and the size it produced.
#[derive(Debug, Copy, Clone, PartialEq, Eq)]
pub struct Cache {
    /// The node size constraint the measurement was keyed on
    pub node_size: Size<Option<ScalarBits>>,
    /// The parent size constraint the measurement was keyed on
    pub parent_size: Size<Option<ScalarBits>>,
    /// Whether the cached pass also performed full layout
    pub perform_layout: bool,
    /// The measured size
    pub size: Size<ScalarBits>,
}

/// Per-node state: style, an optional measurement override, the last
/// computed layout, two memoized measurement results, and a dirty flag.
///
/// The measurement override is an arbitrary payload `M` supplied by the
/// embedding host (typically a sizing callback for leaf nodes); the arena
/// stores it without inspecting it.
pub struct NodeData<M> {
    /// The layout strategy used by this node
    pub style: FlexboxLayout,
    /// The host's sizing override for this node, if any
    pub measure: Option<M>,
    /// The result of the most recent layout computation
    pub layout: Layout,
    /// The primary memoized measurement, keyed on the main-axis constraint
    pub main_size_layout_cache: Option<Cache>,
    /// The secondary memoized measurement, keyed on the cross constraint
    pub other_layout_cache: Option<Cache>,
    /// Whether the layout and both caches must be recomputed before use
    pub is_dirty: bool,
}

impl<M> NodeData<M> {
    /// The record of `nd` with both caches cleared and the dirty flag set;
    /// style, measurement override and stale layout are left in place.
    pub open spec fn spec_marked(nd: NodeData<M>) -> NodeData<M> {
        NodeData {
            style: nd.style,
            measure: nd.measure,
            layout: nd.layout,
            main_size_layout_cache: None,
            other_layout_cache: None,
            is_dirty: true,
        }
    }

    /// A record is cache-consistent when a populated cache is never paired
    /// with a set dirty flag.
    pub open spec fn cache_consistent(self) -> bool {
        (self.main_size_layout_cache is Some || self.other_layout_cache is Some)
            ==> !self.is_dirty
    }

    /// Create the data for a new node with a measurement override.
    #[must_use]
    pub fn new_with_measure(style: FlexboxLayout, measure: M) -> (r: Self)
        ensures
            r.style == style,
            r.measure == Some(measure),
            r.layout == Layout::spec_new(),
            r.main_size_layout_cache is None,
            r.other_layout_cache is None,
            r.is_dirty == true,
    {
        Self {
            style,
            measure: Some(measure),
            main_size_layout_cache: None,
            other_layout_cache: None,
            layout: Layout::new(),
            is_dirty: true,
        }
    }

    /// Create the data for a new node.
    #[must_use]
    pub fn new(style: FlexboxLayout) -> (r: Self)
        ensures
            r.style == style,
            r.measure is None,
            r.layout == Layout::spec_new(),
            r.main_size_layout_cache is None,
            r.other_layout_cache is None,
            r.is_dirty == true,
    {
        Self {
            style,
            measure: None,
            main_size_layout_cache: None,
            other_layout_cache: None,
            layout: Layout::new(),
            is_dirty: true,
        }
    }

    /// Marks the node as dirty: clears both caches and sets the dirty flag.
    ///
    /// This clears any cached measurement and signals that the layout must
    /// be recomputed. Idempotent.
    pub fn mark_dirty(&mut self)
        ensures
            *final(self) == NodeData::spec_marked(*old(self)),
    {
        self.main_size_layout_cache = None;
        self.other_layout_cache = None;
        self.is_dirty = true;
    }
}

/// How many times the value `v` occurs in the sequence `s`.
pub open spec fn count_of<A>(s: Seq<A>, v: A) -> nat
    decreases s.len(),
{
    if s.len() == 0 {
        0
    } else {
        count_of(s.drop_last(), v) + if s.last() == v {
            1nat
        } else {
            0nat
        }
    }
}

/// A value occurring at an index contributes to its count.
proof fn lemma_count_at_index<A>(s: Seq<A>, k: int)
    requires
        0 <= k < s.len(),
    ensures
        count_of(s, s[k]) >= 1,
    decreases s.len(),
{
    if k == s.len() - 1 {
    } else {
        lemma_count_at_index(s.drop_last(), k);
    }
}

/// A count of zero means the value occurs at no index, and conversely.
proof fn lemma_count_zero<A>(s: Seq<A>, v: A)
    ensures
        count_of(s, v) == 0 <==> (forall|k: int| 0 <= k < s.len() ==> s[k] != v),
    decreases s.len(),
{
    if s.len() > 0 {
        lemma_count_zero(s.drop_last(), v);
        if count_of(s, v) == 0 {
            assert(forall|k: int|
                0 <= k < s.len() - 1 ==> s[k] == s.drop_last()[k] && s[k] != v);
        } else {
            if s.last() != v {
                let k = choose|k: int| 0 <= k < s.len() - 1 && s.drop_last()[k] == v;
                assert(s[k] == v);
            }
        }
    }
}

/// Pushing a value onto a sequence raises its count by one and leaves every
/// other count unchanged.
proof fn lemma_count_push<A>(s: Seq<A>, x: A)
    ensures
        forall|v: A| #[trigger] count_of(s.push(x), v) == count_of(s, v) + if x == v {
            1nat
        } else {
            0nat
        },
{
    assert forall|v: A| #[trigger] count_of(s.push(x), v) == count_of(s, v) + (if x == v {
        1nat
    } else {
        0nat
    }) by {
        assert(s.push(x).drop_last() =~= s);
    }
}

/// Updating one position trades the count of the value written out for the
/// count of the value written in.
proof fn lemma_count_update<A>(s: Seq<A>, i: int, x: A, v: A)
    requires
        0 <= i < s.len(),
    ensures
        count_of(s, s[i]) >= 1,
        count_of(s.update(i, x), v) == count_of(s, v) - (if s[i] == v {
            1int
        } else {
            0int
        }) + (if x == v {
            1int
        } else {
            0int
        }),
    decreases s.len(),
{
    lemma_count_at_index(s, i);
    if i == s.len() - 1 {
        assert(s.update(i, x).drop_last() =~= s.drop_last());
        assert(s.update(i, x).last() == x);
    } else {
        lemma_count_update(s.drop_last(), i, x, v);
        assert(s.update(i, x).drop_last() =~= s.drop_last().update(i, x));
        assert(s.update(i, x).last() == s.last());
    }
}

/// Removing the last element lowers the count of that element by one.
proof fn lemma_count_drop_last<A>(s: Seq<A>, v: A)
    requires
        s.len() > 0,
    ensures
        count_of(s.drop_last(), v) == count_of(s, v) - (if s.last() == v {
            1int
        } else {
            0int
        }),
{
}

/// The effect of a swap-with-last-then-pop removal on every count: exactly
/// one occurrence of the removed element disappears.
proof fn lemma_count_swap_remove<A>(s: Seq<A>, i: int)
    requires
        0 <= i < s.len(),
    ensures
        count_of(s, s[i]) >= 1,
        forall|v: A| #[trigger] count_of(s.update(i, s.last()).drop_last(), v) == count_of(s, v)
            - (if s[i] == v {
            1int
        } else {
            0int
        }),
{
    lemma_count_at_index(s, i);
    assert forall|v: A| #[trigger] count_of(s.update(i, s.last()).drop_last(), v) == count_of(
        s,
        v,
    ) - (if s[i] == v {
        1int
    } else {
        0int
    }) by {
        let t = s.update(i, s.last());
        lemma_count_update(s, i, s.last(), v);
        lemma_count_drop_last(t, v);
        assert(t.last() == s.last());
    }
}

/// Removing the element at an index lowers its count by one and leaves every
/// other count unchanged.
proof fn lemma_count_remove<A>(s: Seq<A>, i: int, v: A)
    requires
        0 <= i < s.len(),
    ensures
        count_of(s, s[i]) >= 1,
        count_of(s.remove(i), v) == count_of(s, v) - (if s[i] == v {
            1int
        } else {
            0int
        }),
    decreases s.len(),
{
    lemma_count_at_index(s, i);
    if i == s.len() - 1 {
        assert(s.remove(i) =~= s.drop_last());
    } else {
        lemma_count_remove(s.drop_last(), i, v);
        assert(s.remove(i).drop_last() =~= s.drop_last().remove(i));
        assert(s.remove(i).last() == s.last());
    }
}

/// Extending a prefix by one element accounts for that element's count.
proof fn lemma_count_take_succ<A>(s: Seq<A>, k: int, v: A)
    requires
        0 <= k < s.len(),
    ensures
        count_of(s.take(k + 1), v) == count_of(s.take(k), v) + (if s[k] == v {
            1nat
        } else {
            0nat
        }),
{
    assert(s.take(k + 1).drop_last() =~= s.take(k));
    assert(s.take(k + 1).last() == s[k]);
}


/// Every count in a sequence of in-range identities is zero for any
/// out-of-range value.
proof fn lemma_count_zero_of_bounded(s: Seq<NodeId>, bound: NodeId)
    requires
        forall|k: int| 0 <= k < s.len() ==> s[k] < bound,
    ensures
        forall|v: NodeId| v >= bound ==> count_of(s, v) == 0,
{
    assert forall|v: NodeId| v >= bound implies count_of(s, v) == 0 by {
        lemma_count_zero(s, v);
    }
}

/// A count never exceeds the sequence length.
proof fn lemma_count_le_len<A>(s: Seq<A>, v: A)
    ensures
        count_of(s, v) <= s.len(),
    decreases s.len(),
{
    if s.len() > 0 {
        lemma_count_le_len(s.drop_last(), v);
    }
}

/// A collection of UI layout trees: the arena owning all node records and
/// adjacency lists.
///
/// The three vectors always have equal length, and the identity `i` indexes
/// the same logical node in all three. The adjacency is bidirectional:
/// every occurrence of `c` in `children[p]` is matched by exactly one
/// occurrence of `p` in `parents[c]`. Child order is semantically
/// significant (it is the flex item order); parent order is not.
///
/// The fields are public so that the embedding host's layout algorithm can
/// read styles, children and caches, and write layout results back; the
/// contracts of the mutating operations are stated against a forest that is
/// [`Forest::wf`], so a host that writes fields directly must preserve that
/// predicate (the verified write-back helpers below always do).
pub struct Forest<M> {
    /// The node records, indexed by identity
    pub nodes: Vec<NodeData<M>>,
    /// The children of each node, in flex item order
    pub children: Vec<Vec<NodeId>>,
    /// The parents of each node, in no significant order
    pub parents: Vec<Vec<NodeId>>,
}

impl<M> Forest<M> {
    /// The number of live nodes.
    pub open spec fn node_count(self) -> nat {
        self.nodes@.len()
    }

    /// The child list of slot `i`, as a sequence of identities.
    pub open spec fn child_seq(self, i: int) -> Seq<NodeId> {
        self.children@[i]@
    }

    /// The parent list of slot `i`, as a sequence of identities.
    pub open spec fn parent_seq(self, i: int) -> Seq<NodeId> {
        self.parents@[i]@
    }

    /// All parent lists, as sequences of identities.
    pub open spec fn parent_seqs(self) -> Seq<Seq<NodeId>> {
        self.parents@.map_values(|v: Vec<NodeId>| v@)
    }

    /// The three parallel sequences have equal length.
    pub open spec fn lens_match(self) -> bool {
        &&& self.children@.len() == self.node_count()
        &&& self.parents@.len() == self.node_count()
    }

    /// Every identity stored in an adjacency list names a live node.
    pub open spec fn ids_in_range(self) -> bool {
        &&& forall|i: int, k: int|
            0 <= i < self.node_count() && 0 <= k < self.child_seq(i).len()
                ==> #[trigger] self.child_seq(i)[k] < self.node_count()
        &&& forall|i: int, k: int|
            0 <= i < self.node_count() && 0 <= k < self.parent_seq(i).len()
                ==> #[trigger] self.parent_seq(i)[k] < self.node_count()
    }

    /// Adjacency is symmetric with multiplicity: `c` occurs in `p`'s child
    /// list exactly as often as `p` occurs in `c`'s parent list.
    pub open spec fn symmetric(self) -> bool {
        forall|p: NodeId, c: NodeId|
            p < self.node_count() && c < self.node_count() ==> #[trigger] count_of(
                self.child_seq(p as int),
                c,
            ) == count_of(self.parent_seq(c as int), p)
    }

    /// No node is its own child: a self-referential edge is the smallest
    /// parent cycle, and the parent relation is required to stay acyclic.
    pub open spec fn no_self_edges(self) -> bool {
        forall|i: NodeId|
            i < self.node_count() ==> #[trigger] count_of(self.child_seq(i as int), i) == 0
    }

    /// No record pairs a populated cache with a set dirty flag.
    pub open spec fn caches_consistent(self) -> bool {
        forall|i: int|
            0 <= i < self.node_count() ==> (#[trigger] self.nodes@[i]).cache_consistent()
    }

    /// The forest invariant: dense parallel storage, in-range identities,
    /// symmetric adjacency, no self-edges, and cache consistency.
    ///
    /// Every public operation requires and preserves this predicate.
    pub open spec fn wf(self) -> bool {
        &&& self.lens_match()
        &&& self.ids_in_range()
        &&& self.symmetric()
        &&& self.no_self_edges()
        &&& self.caches_consistent()
    }

    /// Creates an empty forest that can store `capacity` nodes before its
    /// storage needs to be expanded.
    #[must_use]
    pub fn with_capacity(capacity: usize) -> (r: Self)
        ensures
            r.wf(),
            r.node_count() == 0,
    {
        Self {
            nodes: Vec::with_capacity(capacity),
            children: Vec::with_capacity(capacity),
            parents: Vec::with_capacity(capacity),
        }
    }

    /// Removes all nodes and resets the data structure.
    ///
    /// The capacity is retained.
    pub fn clear(&mut self)
        ensures
            final(self).wf(),
            final(self).node_count() == 0,
    {
        self.nodes.clear();
        self.children.clear();
        self.parents.clear();
    }

    /// What every node-creating operation guarantees about the slots that
    /// already existed: their records and adjacency are untouched.
    pub open spec fn grown_by_one(self, prev: Self) -> bool {
        &&& self.node_count() == prev.node_count() + 1
        &&& forall|i: int| 0 <= i < prev.node_count() ==> self.nodes@[i] == prev.nodes@[i]
        &&& forall|i: int|
            0 <= i < prev.node_count() ==> #[trigger] self.child_seq(i) == prev.child_seq(i)
        &&& forall|i: int|
            0 <= i < prev.node_count() ==> #[trigger] self.parent_seq(i) == prev.parent_seq(i)
    }

    /// Creates and adds a new unattached leaf node to the forest, and
    /// returns the identity of the new node.
    pub fn new_leaf(&mut self, layout: FlexboxLayout) -> (id: NodeId)
        requires
            old(self).wf(),
        ensures
            final(self).wf(),
            id == old(self).node_count(),
            final(self).grown_by_one(*old(self)),
            final(self).nodes@[id as int].style == layout,
            final(self).nodes@[id as int].measure is None,
            final(self).nodes@[id as int].layout == Layout::spec_new(),
            final(self).nodes@[id as int].main_size_layout_cache is None,
            final(self).nodes@[id as int].other_layout_cache is None,
            final(self).nodes@[id as int].is_dirty == true,
            final(self).child_seq(id as int) == Seq::<NodeId>::empty(),
            final(self).parent_seq(id as int) == Seq::<NodeId>::empty(),
    {
        let id = self.nodes.len();
        self.nodes.push(NodeData::new(layout));
        self.children.push(Vec::new());
        self.parents.push(Vec::with_capacity(1));
        proof {
            self.lemma_wf_after_grow(*old(self), id);
        }
        id
    }

    /// Creates and adds a new unattached leaf node with a measurement
    /// override, and returns the identity of the new node.
    pub fn new_leaf_with_measure(&mut self, layout: FlexboxLayout, measure: M) -> (id: NodeId)
        requires
            old(self).wf(),
        ensures
            final(self).wf(),
            id == old(self).node_count(),
            final(self).grown_by_one(*old(self)),
            final(self).nodes@[id as int].style == layout,
            final(self).nodes@[id as int].measure == Some(measure),
            final(self).nodes@[id as int].layout == Layout::spec_new(),
            final(self).nodes@[id as int].main_size_layout_cache is None,
            final(self).nodes@[id as int].other_layout_cache is None,
            final(self).nodes@[id as int].is_dirty == true,
            final(self).child_seq(id as int) == Seq::<NodeId>::empty(),
            final(self).parent_seq(id as int) == Seq::<NodeId>::empty(),
    {
        let id = self.nodes.len();
        self.nodes.push(NodeData::new_with_measure(layout, measure));
        self.children.push(Vec::new());
        self.parents.push(Vec::with_capacity(1));
        proof {
            self.lemma_wf_after_grow(*old(self), id);
        }
        id
    }

    /// A forest grown by one empty-adjacency slot from a well-formed forest
    /// is well-formed again.
    proof fn lemma_wf_after_grow(self, prev: Self, id: NodeId)
        requires
            prev.wf(),
            id == prev.node_count(),
            self.lens_match(),
            self.grown_by_one(prev),
            self.nodes@[id as int].cache_consistent(),
            self.child_seq(id as int) == Seq::<NodeId>::empty(),
            self.parent_seq(id as int) == Seq::<NodeId>::empty(),
        ensures
            self.wf(),
    {
        let n = self.node_count();
        assert forall|p: NodeId, c: NodeId| p < n && c < n implies #[trigger] count_of(
            self.child_seq(p as int),
            c,
        ) == count_of(self.parent_seq(c as int), p) by {
            if p < id && c < id {
                assert(count_of(prev.child_seq(p as int), c) == count_of(
                    prev.parent_seq(c as int),
                    p,
                ));
            } else if p == id && c == id {
            } else if p == id {
                lemma_count_zero_of_bounded(prev.parent_seq(c as int), id);
            } else {
                lemma_count_zero_of_bounded(prev.child_seq(p as int), id);
            }
        }
        assert forall|i: NodeId| i < n implies #[trigger] count_of(
            self.child_seq(i as int),
            i,
        ) == 0 by {
            if i < id {
                lemma_count_zero_of_bounded(prev.child_seq(i as int), id);
                assert(count_of(prev.child_seq(i as int), i) == 0);
            }
        }
    }
}


/// There is a parent edge from `a` to `b`: `b` occurs in `a`'s parent list.
pub open spec fn parent_edge(parents: Seq<Seq<NodeId>>, a: NodeId, b: NodeId) -> bool {
    a < parents.len() && parents[a as int].contains(b)
}

/// `path` climbs the parent relation: each element is followed by one of
/// its parents.
pub open spec fn valid_up_path(parents: Seq<Seq<NodeId>>, path: Seq<NodeId>) -> bool {
    forall|k: int|
        0 <= k < path.len() - 1 ==> parent_edge(parents, #[trigger] path[k], path[k + 1])
}

/// `to` is an ancestor of `from` (or `from` itself): some path climbs the
/// parent relation from `from` to `to`.
pub open spec fn reaches(parents: Seq<Seq<NodeId>>, from: NodeId, to: NodeId) -> bool {
    exists|path: Seq<NodeId>|
        #[trigger] valid_up_path(parents, path) && path.len() >= 1 && path.first() == from
            && path.last() == to
}

/// Every node is an ancestor of itself.
proof fn lemma_reaches_self(parents: Seq<Seq<NodeId>>, a: NodeId)
    ensures
        reaches(parents, a, a),
{
    let path = seq![a];
    assert(valid_up_path(parents, path));
    assert(path.first() == a && path.last() == a);
}

/// Ancestry extends along a parent edge at the far end.
proof fn lemma_reaches_extend(parents: Seq<Seq<NodeId>>, a: NodeId, b: NodeId, c: NodeId)
    requires
        reaches(parents, a, b),
        parent_edge(parents, b, c),
    ensures
        reaches(parents, a, c),
{
    let path = choose|path: Seq<NodeId>|
        #[trigger] valid_up_path(parents, path) && path.len() >= 1 && path.first() == a
            && path.last() == b;
    let q = path.push(c);
    assert(valid_up_path(parents, q)) by {
        assert forall|k: int| 0 <= k < q.len() - 1 implies parent_edge(
            parents,
            #[trigger] q[k],
            q[k + 1],
        ) by {
            if k < path.len() - 1 {
                assert(q[k] == path[k]);
                assert(q[k + 1] == path[k + 1]);
            } else {
                assert(q[k] == path.last());
                assert(q[k + 1] == c);
            }
        }
    };
    assert(q.first() == a && q.last() == c && q.len() >= 1);
}

/// A set of visited flags that contains the start of a climbing path and is
/// closed under parent edges contains the path's end.
proof fn lemma_visited_closed(parents: Seq<Seq<NodeId>>, vis: Seq<bool>, path: Seq<NodeId>)
    requires
        valid_up_path(parents, path),
        path.len() >= 1,
        parents.len() == vis.len(),
        path.first() < vis.len(),
        vis[path.first() as int],
        forall|v: NodeId, k: int|
            v < vis.len() && vis[v as int] && 0 <= k < parents[v as int].len() ==> (#[trigger] parents[v as int][k]) < vis.len() && vis[parents[v as int][k] as int],
    ensures
        path.last() < vis.len(),
        vis[path.last() as int],
    decreases path.len(),
{
    if path.len() == 1 {
    } else {
        assert(parent_edge(parents, path[0], path[1]));
        let b = path[1];
        let j = choose|j: int|
            0 <= j < parents[path[0] as int].len() && parents[path[0] as int][j] == b;
        assert(vis[b as int]);
        let tail = path.subrange(1, path.len() as int);
        assert(valid_up_path(parents, tail)) by {
            assert forall|k: int| 0 <= k < tail.len() - 1 implies parent_edge(
                parents,
                #[trigger] tail[k],
                tail[k + 1],
            ) by {
                assert(tail[k] == path[k + 1]);
                assert(tail[k + 1] == path[k + 2]);
            }
        };
        lemma_visited_closed(parents, vis, tail);
        assert(tail.last() == path.last());
    }
}

/// The node records after a dirty mark at `start` has propagated: every
/// ancestor of `start` (including `start` itself) has both caches cleared
/// and the dirty flag set; every other record is untouched.
pub open spec fn marked_from<M>(
    nodes: Seq<NodeData<M>>,
    parents: Seq<Seq<NodeId>>,
    start: NodeId,
) -> Seq<NodeData<M>> {
    Seq::new(
        nodes.len(),
        |i: int|
            if reaches(parents, start, i as NodeId) {
                NodeData::spec_marked(nodes[i])
            } else {
                nodes[i]
            },
    )
}

/// Marking a node dirty is idempotent: propagating the dirty mark twice
/// from the same node over the same parent relation leaves exactly the
/// state reached after propagating it once.
pub proof fn lemma_mark_dirty_idempotent<M>(
    nodes: Seq<NodeData<M>>,
    parents: Seq<Seq<NodeId>>,
    start: NodeId,
)
    ensures
        marked_from(marked_from(nodes, parents, start), parents, start) == marked_from(
            nodes,
            parents,
            start,
        ),
{
    let once = marked_from(nodes, parents, start);
    let twice = marked_from(once, parents, start);
    assert(twice =~= once);
}



/// Pushing onto a sequence keeps every contained value contained.
proof fn lemma_contains_after_push(s: Seq<NodeId>, x: NodeId)
    ensures
        forall|y: NodeId| s.contains(y) ==> #[trigger] s.push(x).contains(y),
        s.push(x).contains(x),
{
    assert forall|y: NodeId| s.contains(y) implies #[trigger] s.push(x).contains(y) by {
        let i = choose|i: int| 0 <= i < s.len() && s[i] == y;
        assert(s.push(x)[i] == y);
    }
    assert(s.push(x)[s.len() as int] == x);
}

impl<M> Forest<M> {
    /// A forest whose adjacency and record count match a well-formed one,
    /// and whose records are cache-consistent, is well-formed.
    proof fn lemma_wf_from_same_adjacency(self, prev: Self)
        requires
            prev.wf(),
            self.node_count() == prev.node_count(),
            self.children@.len() == prev.children@.len(),
            self.parents@.len() == prev.parents@.len(),
            forall|i: int|
                0 <= i < prev.node_count() ==> #[trigger] self.child_seq(i) == prev.child_seq(i),
            forall|i: int|
                0 <= i < prev.node_count() ==> #[trigger] self.parent_seq(i) == prev.parent_seq(i),
            forall|i: int|
                0 <= i < self.node_count() ==> (#[trigger] self.nodes@[i]).cache_consistent(),
        ensures
            self.wf(),
    {
        assert forall|i: int, k: int|
            0 <= i < self.node_count() && 0 <= k < self.child_seq(i).len() implies #[trigger] self.child_seq(i)[k] < self.node_count() by {
            assert(prev.child_seq(i)[k] < prev.node_count());
        }
        assert forall|i: int, k: int|
            0 <= i < self.node_count() && 0 <= k < self.parent_seq(i).len() implies #[trigger] self.parent_seq(i)[k] < self.node_count() by {
            assert(prev.parent_seq(i)[k] < prev.node_count());
        }
        assert forall|p: NodeId, c: NodeId|
            p < self.node_count() && c < self.node_count() implies #[trigger] count_of(
            self.child_seq(p as int),
            c,
        ) == count_of(self.parent_seq(c as int), p) by {
            assert(count_of(prev.child_seq(p as int), c) == count_of(prev.parent_seq(c as int), p));
        }
        assert forall|i: NodeId| i < self.node_count() implies #[trigger] count_of(
            self.child_seq(i as int),
            i,
        ) == 0 by {
            assert(count_of(prev.child_seq(i as int), i) == 0);
        }
    }
}

impl<M> Forest<M> {
    /// Marks `node` as needing layout recalculation, and propagates the mark
    /// to every transitive parent: each node reached has both cached
    /// measurements cleared and its dirty flag set, and no other record is
    /// touched. The adjacency is left unchanged.
    ///
    /// The climb follows all parents of every reached node — a node may
    /// have many parents — and a visited set keeps each node from being
    /// expanded twice, so the walk terminates even on a parent relation
    /// that a caller has (erroneously) made cyclic.
    #[verifier::loop_isolation(false)]
    #[verifier::rlimit(100)]
    #[verifier::spinoff_prover]
    pub fn mark_dirty(&mut self, node: NodeId)
        requires
            old(self).wf(),
            node < old(self).node_count(),
        ensures
            final(self).wf(),
            final(self).children@ == old(self).children@,
            final(self).parents@ == old(self).parents@,
            final(self).nodes@ == marked_from(
                old(self).nodes@,
                old(self).parent_seqs(),
                node,
            ),
    {
        let ghost pv = old(self).parent_seqs();
        let n_total = self.nodes.len();
        let mut visited: Vec<bool> = Vec::new();
        while visited.len() < n_total
            invariant
                *self == *old(self),
                visited@.len() <= n_total,
                forall|i: int| 0 <= i < visited@.len() ==> !visited@[i],
            decreases n_total - visited.len(),
        {
            visited.push(false);
        }
        let mut stack: Vec<NodeId> = Vec::new();
        stack.push(node);
        proof {
            lemma_reaches_self(pv, node);
            lemma_count_le_len(visited@, true);
            assert(stack@[0] == node);
            assert(stack@.contains(node));
        }
        while stack.len() != 0
            invariant
                self.children@ == old(self).children@,
                self.parents@ == old(self).parents@,
                self.nodes@.len() == n_total,
                visited@.len() == n_total,
                count_of(visited@, true) <= n_total,
                forall|s: int|
                    0 <= s < stack@.len() ==> (#[trigger] stack@[s]) < n_total && reaches(
                        pv,
                        node,
                        stack@[s],
                    ),
                visited@[node as int] || stack@.contains(node),
                forall|v: NodeId| v < n_total && visited@[v as int] ==> reaches(pv, node, v),
                forall|v: NodeId, k: int|
                    v < n_total && visited@[v as int] && 0 <= k < pv[v as int].len() ==> visited@[(
                    #[trigger] pv[v as int][k]) as int] || stack@.contains(pv[v as int][k]),
                forall|v: int|
                    0 <= v < n_total ==> self.nodes@[v] == (if visited@[v] {
                        NodeData::spec_marked(old(self).nodes@[v])
                    } else {
                        old(self).nodes@[v]
                    }),
            decreases n_total - count_of(visited@, true), stack@.len(),
        {
            let ghost stack_pre = stack@;
            let n = stack.pop().unwrap();
            let ghost stack1 = stack@;
            proof {
                assert(n == stack_pre[stack_pre.len() - 1]);
                assert(reaches(pv, node, n));
            }
            if !visited[n] {
                let ghost vis_pre = visited@;
                visited[n] = true;
                proof {
                    lemma_count_update(vis_pre, n as int, true, true);
                    lemma_count_le_len(visited@, true);
                }
                self.nodes[n].mark_dirty();
                let num_p = self.parents[n].len();
                proof {
                    assert(self.parents@[n as int]@ == pv[n as int]);
                }
                let mut k: usize = 0;
                while k < num_p
                    invariant
                        k <= num_p,
                        num_p == pv[n as int].len(),
                        forall|s: int|
                            0 <= s < stack@.len() ==> (#[trigger] stack@[s]) < n_total && reaches(
                                pv,
                                node,
                                stack@[s],
                            ),
                        forall|x: NodeId| stack1.contains(x) ==> #[trigger] stack@.contains(x),
                        forall|j: int|
                            0 <= j < k ==> stack@.contains(#[trigger] pv[n as int][j]),
                    decreases num_p - k,
                {
                    let ghost stack_before = stack@;
                    let p = self.parents[n][k];
                    proof {
                        assert(pv[n as int][k as int] == p);
                        assert(pv[n as int].contains(p));
                        assert(parent_edge(pv, n, p));
                        lemma_reaches_extend(pv, node, n, p);
                        lemma_contains_after_push(stack_before, p);
                    }
                    stack.push(p);
                    proof {
                        assert(old(self).parent_seq(n as int)[k as int] < old(self).node_count());
                        assert(p < n_total);
                        assert forall|s: int| 0 <= s < stack@.len() implies (#[trigger] stack@[s])
                            < n_total && reaches(pv, node, stack@[s]) by {
                            if s < stack@.len() - 1 {
                                assert(stack@[s] == stack_before[s]);
                            } else {
                                assert(stack@[s] == p);
                            }
                        }
                    }
                    k += 1;
                }
                proof {
                    // The popped element's occurrences are covered: n is now
                    // visited; everything else in the old stack is still in
                    // the new one.
                    assert forall|x: NodeId| stack_pre.contains(x) && x != n implies
                        stack@.contains(x) by {
                        let i = choose|i: int| 0 <= i < stack_pre.len() && stack_pre[i] == x;
                        assert(stack1[i] == x);
                        assert(stack1.contains(x));
                    }
                    assert forall|v: NodeId, kk: int|
                        v < n_total && visited@[v as int] && 0 <= kk < pv[v as int].len() implies
                        visited@[(#[trigger] pv[v as int][kk]) as int] || stack@.contains(
                        pv[v as int][kk]) by {
                        let p = pv[v as int][kk];
                        assert(old(self).parent_seq(v as int)[kk] < old(self).node_count());
                        assert(p < n_total);
                        if v == n {
                            assert(stack@.contains(p));
                        } else {
                            assert(vis_pre[v as int]);
                            assert(vis_pre[p as int] || stack_pre.contains(p));
                            if vis_pre[p as int] {
                                assert(visited@[p as int]);
                            } else if p == n {
                                assert(visited@[n as int]);
                            } else {
                                assert(stack@.contains(p));
                            }
                        }
                    }
                }
            } else {
                proof {
                    assert forall|x: NodeId| stack_pre.contains(x) && x != n implies
                        stack@.contains(x) by {
                        let i = choose|i: int| 0 <= i < stack_pre.len() && stack_pre[i] == x;
                        assert(stack1[i] == x);
                    }
                    assert forall|v: NodeId, kk: int|
                        v < n_total && visited@[v as int] && 0 <= kk < pv[v as int].len() implies
                        visited@[(#[trigger] pv[v as int][kk]) as int] || stack@.contains(
                        pv[v as int][kk]) by {
                        let p = pv[v as int][kk];
                        assert(old(self).parent_seq(v as int)[kk] < old(self).node_count());
                        assert(p < n_total);
                        assert(visited@[p as int] || stack_pre.contains(p));
                        if !visited@[p as int] {
                            if p == n {
                                assert(visited@[n as int]);
                            } else {
                                assert(stack@.contains(p));
                            }
                        }
                    }
                }
            }
        }
        proof {
            assert forall|t: NodeId| t < n_total && reaches(pv, node, t) implies visited@[t as int] by {
                let path = choose|path: Seq<NodeId>|
                    #[trigger] valid_up_path(pv, path) && path.len() >= 1 && path.first() == node
                        && path.last() == t;
                assert forall|v: NodeId, k: int|
                    v < visited@.len() && visited@[v as int] && 0 <= k < pv[v as int].len() implies (
                #[trigger] pv[v as int][k]) < visited@.len() && visited@[pv[v as int][k] as int] by {
                    assert(old(self).parent_seq(v as int) == pv[v as int]);
                    assert(pv[v as int][k] < n_total);
                }
                lemma_visited_closed(pv, visited@, path);
            }
            assert(self.nodes@ =~= marked_from(old(self).nodes@, pv, node));
            assert forall|i: int| 0 <= i < self.node_count() implies (
            #[trigger] self.nodes@[i]).cache_consistent() by {
                assert(old(self).nodes@[i].cache_consistent());
            }
            self.lemma_wf_from_same_adjacency(*old(self));
        }
    }
}



/// `m` copies of the identity `x`, in a row.
pub open spec fn repeated(x: NodeId, m: nat) -> Seq<NodeId> {
    Seq::new(m, |j: int| x)
}

/// Appending `m` copies of `x` adds `m` to the count of `x` and leaves
/// every other count unchanged.
proof fn lemma_count_append_repeat(a: Seq<NodeId>, m: nat, x: NodeId)
    ensures
        forall|v: NodeId|
            #[trigger] count_of(a + repeated(x, m), v) == count_of(a, v) + (if v == x {
                m
            } else {
                0nat
            }),
    decreases m,
{
    if m == 0 {
        assert(a + repeated(x, 0) =~= a);
    } else {
        lemma_count_append_repeat(a, (m - 1) as nat, x);
        let prev = a + repeated(x, (m - 1) as nat);
        assert(a + repeated(x, m) =~= prev.push(x));
        lemma_count_push(prev, x);
    }
}

impl<M> Forest<M> {
    /// Adds `child` to the end of `parent`'s child list, records `parent`
    /// in `child`'s parent list, and marks `parent` dirty.
    ///
    /// Repeated calls append repeated edges; duplicates are tolerated by
    /// design, and each removal strikes one occurrence. The two nodes must
    /// differ: a self-edge would be the smallest parent cycle, and the
    /// parent relation must stay acyclic.
    #[verifier::loop_isolation(false)]
    pub fn add_child(&mut self, parent: NodeId, child: NodeId)
        requires
            old(self).wf(),
            parent < old(self).node_count(),
            child < old(self).node_count(),
            parent != child,
        ensures
            final(self).wf(),
            final(self).node_count() == old(self).node_count(),
            final(self).child_seq(parent as int) == old(self).child_seq(parent as int).push(
                child,
            ),
            final(self).parent_seq(child as int) == old(self).parent_seq(child as int).push(
                parent,
            ),
            forall|i: int|
                0 <= i < old(self).node_count() && i != parent ==> #[trigger] final(self).child_seq(i) == old(self).child_seq(i),
            forall|i: int|
                0 <= i < old(self).node_count() && i != child ==> #[trigger] final(self).parent_seq(i) == old(self).parent_seq(i),
            final(self).nodes@ == marked_from(
                old(self).nodes@,
                final(self).parent_seqs(),
                parent,
            ),
    {
        self.parents[child].push(parent);
        self.children[parent].push(child);
        proof {
            let mid = *self;
            let prev = *old(self);
            assert(mid.child_seq(parent as int) == prev.child_seq(parent as int).push(child));
            assert(mid.parent_seq(child as int) == prev.parent_seq(child as int).push(parent));
            assert forall|i: int, k: int|
                0 <= i < mid.node_count() && 0 <= k < mid.child_seq(i).len() implies #[trigger] mid.child_seq(i)[k] < mid.node_count() by {
                if i == parent && k == mid.child_seq(i).len() - 1 {
                } else {
                    assert(mid.child_seq(i)[k] == prev.child_seq(i)[k]);
                }
            }
            assert forall|i: int, k: int|
                0 <= i < mid.node_count() && 0 <= k < mid.parent_seq(i).len() implies #[trigger] mid.parent_seq(i)[k] < mid.node_count() by {
                if i == child && k == mid.parent_seq(i).len() - 1 {
                } else {
                    assert(mid.parent_seq(i)[k] == prev.parent_seq(i)[k]);
                }
            }
            assert forall|p: NodeId, c: NodeId|
                p < mid.node_count() && c < mid.node_count() implies #[trigger] count_of(
                mid.child_seq(p as int),
                c,
            ) == count_of(mid.parent_seq(c as int), p) by {
                lemma_count_push(prev.child_seq(parent as int), child);
                lemma_count_push(prev.parent_seq(child as int), parent);
                assert(count_of(prev.child_seq(p as int), c) == count_of(
                    prev.parent_seq(c as int),
                    p,
                ));
            }
            assert forall|i: NodeId| i < mid.node_count() implies #[trigger] count_of(
                mid.child_seq(i as int),
                i,
            ) == 0 by {
                lemma_count_push(prev.child_seq(parent as int), child);
                assert(count_of(prev.child_seq(i as int), i) == 0);
            }
            assert(mid.wf());
        }
        self.mark_dirty(parent);
    }

    /// Creates and adds a new node to the forest with the supplied children
    /// attached, and returns the identity of the new node.
    ///
    /// The new node is registered as an additional parent of every supplied
    /// child before its own record is appended, so the children never
    /// observe a transiently inconsistent state; the new node itself starts
    /// with no parents and is already dirty, so nothing else needs marking.
    #[verifier::loop_isolation(false)]
    pub fn new_with_children(&mut self, layout: FlexboxLayout, children: Vec<NodeId>) -> (id:
        NodeId)
        requires
            old(self).wf(),
            forall|k: int| 0 <= k < children@.len() ==> children@[k] < old(self).node_count(),
        ensures
            final(self).wf(),
            id == old(self).node_count(),
            final(self).node_count() == old(self).node_count() + 1,
            forall|i: int|
                0 <= i < old(self).node_count() ==> final(self).nodes@[i] == old(self).nodes@[i],
            final(self).nodes@[id as int].style == layout,
            final(self).nodes@[id as int].measure is None,
            final(self).nodes@[id as int].layout == Layout::spec_new(),
            final(self).nodes@[id as int].main_size_layout_cache is None,
            final(self).nodes@[id as int].other_layout_cache is None,
            final(self).nodes@[id as int].is_dirty == true,
            final(self).child_seq(id as int) == children@,
            final(self).parent_seq(id as int) == Seq::<NodeId>::empty(),
            forall|i: int|
                0 <= i < old(self).node_count() ==> #[trigger] final(self).child_seq(i) == old(self).child_seq(i),
            forall|i: int|
                0 <= i < old(self).node_count() ==> #[trigger] final(self).parent_seq(i) == old(self).parent_seq(i) + repeated(id, count_of(children@, i as NodeId)),
    {
        let id = self.nodes.len();
        let n = children.len();
        let mut k: usize = 0;
        while k < n
            invariant
                k <= n,
                self.nodes@ == old(self).nodes@,
                self.children@ == old(self).children@,
                self.parents@.len() == old(self).parents@.len(),
                forall|i: int|
                    0 <= i < old(self).node_count() ==> #[trigger] self.parent_seq(i) == old(
                        self,
                    ).parent_seq(i) + repeated(
                        id,
                        count_of(children@.take(k as int), i as NodeId),
                    ),
            decreases n - k,
        {
            let child = children[k];
            let ghost before = *self;
            self.parents[child].push(id);
            proof {
                assert(children@.take(k as int + 1).drop_last() =~= children@.take(k as int));
                assert forall|i: int|
                    0 <= i < old(self).node_count() implies #[trigger] self.parent_seq(i) == old(
                    self,
                ).parent_seq(i) + repeated(
                    id,
                    count_of(children@.take(k as int + 1), i as NodeId),
                ) by {
                    lemma_count_take_succ(children@, k as int, i as NodeId);
                    if i == child {
                        assert(self.parent_seq(i) == before.parent_seq(i).push(id));
                        assert(before.parent_seq(i).push(id) =~= old(self).parent_seq(i)
                            + repeated(
                            id,
                            count_of(children@.take(k as int + 1), i as NodeId),
                        ));
                    } else {
                        assert(self.parent_seq(i) == before.parent_seq(i));
                    }
                }
            }
            k += 1;
        }
        proof {
            assert(children@.take(n as int) =~= children@);
        }
        let ghost mid = *self;
        self.nodes.push(NodeData::new(layout));
        self.children.push(children);
        self.parents.push(Vec::with_capacity(1));
        proof {
            let fin = *self;
            let prev = *old(self);
            assert(fin.child_seq(id as int) == children@);
            assert(fin.parent_seq(id as int) == Seq::<NodeId>::empty());
            assert forall|i: int| 0 <= i < id implies #[trigger] fin.parent_seq(i)
                == prev.parent_seq(i) + repeated(id, count_of(children@, i as NodeId)) by {
                assert(fin.parents@[i] == mid.parents@[i]);
                assert(mid.parent_seq(i) == prev.parent_seq(i) + repeated(
                    id,
                    count_of(children@.take(n as int), i as NodeId),
                ));
            }
            assert forall|i: int| 0 <= i < id implies #[trigger] fin.child_seq(i)
                == prev.child_seq(i) by {
                assert(fin.children@[i] == mid.children@[i]);
            }
            assert forall|i: int| 0 <= i < id implies fin.nodes@[i] == prev.nodes@[i] by {
                assert(fin.nodes@[i] == mid.nodes@[i]);
            }
            assert forall|i: int, kk: int|
                0 <= i < fin.node_count() && 0 <= kk < fin.child_seq(i).len() implies #[trigger] fin.child_seq(i)[kk] < fin.node_count() by {
                if i < id {
                    assert(fin.child_seq(i) == prev.child_seq(i));
                    assert(prev.child_seq(i)[kk] < prev.node_count());
                }
            }
            assert forall|i: int, kk: int|
                0 <= i < fin.node_count() && 0 <= kk < fin.parent_seq(i).len() implies #[trigger] fin.parent_seq(i)[kk] < fin.node_count() by {
                if i < id {
                    let base = prev.parent_seq(i);
                    assert(fin.parent_seq(i) == base + repeated(
                        id,
                        count_of(children@, i as NodeId),
                    ));
                    if kk < base.len() {
                        assert(fin.parent_seq(i)[kk] == base[kk]);
                        assert(base[kk] < prev.node_count());
                    } else {
                        assert(fin.parent_seq(i)[kk] == id);
                    }
                }
            }
            assert forall|p: NodeId, c: NodeId|
                p < fin.node_count() && c < fin.node_count() implies #[trigger] count_of(
                fin.child_seq(p as int),
                c,
            ) == count_of(fin.parent_seq(c as int), p) by {
                if c < id {
                    lemma_count_append_repeat(
                        prev.parent_seq(c as int),
                        count_of(children@, c),
                        id,
                    );
                }
                if p < id && c < id {
                    assert(count_of(prev.child_seq(p as int), c) == count_of(
                        prev.parent_seq(c as int),
                        p,
                    ));
                } else if p < id && c == id {
                    lemma_count_zero_of_bounded(prev.child_seq(p as int), id);
                } else if p == id && c < id {
                    lemma_count_zero_of_bounded(prev.parent_seq(c as int), id);
                } else {
                    lemma_count_zero_of_bounded(children@, id);
                }
            }
            assert forall|i: NodeId| i < fin.node_count() implies #[trigger] count_of(
                fin.child_seq(i as int),
                i,
            ) == 0 by {
                if i < id {
                    assert(fin.child_seq(i as int) == prev.child_seq(i as int));
                    assert(count_of(prev.child_seq(i as int), i) == 0);
                } else {
                    lemma_count_zero_of_bounded(children@, id);
                }
            }
        }
        id
    }

    /// Writes the result of a completed layout computation back to `node`,
    /// leaving its caches, dirty flag and everything else untouched.
    pub fn set_layout(&mut self, node: NodeId, layout: Layout)
        requires
            old(self).wf(),
            node < old(self).node_count(),
        ensures
            final(self).wf(),
            final(self).children@ == old(self).children@,
            final(self).parents@ == old(self).parents@,
            final(self).node_count() == old(self).node_count(),
            forall|i: int|
                0 <= i < old(self).node_count() && i != node ==> final(self).nodes@[i] == old(
                    self,
                ).nodes@[i],
            final(self).nodes@[node as int] == (NodeData {
                layout,
                ..old(self).nodes@[node as int]
            }),
    {
        self.nodes[node].layout = layout;
        proof {
            self.lemma_wf_from_same_adjacency(*old(self));
        }
    }

    /// Records the outcome of a recomputation for `node`: stores the two
    /// memoized measurement results and clears the dirty flag.
    ///
    /// This is the only sanctioned way to populate a cache: a cache is
    /// written together with a cleared dirty flag, so a populated cache is
    /// never observable beside a set one.
    pub fn mark_clean(
        &mut self,
        node: NodeId,
        main_cache: Option<Cache>,
        other_cache: Option<Cache>,
    )
        requires
            old(self).wf(),
            node < old(self).node_count(),
        ensures
            final(self).wf(),
            final(self).children@ == old(self).children@,
            final(self).parents@ == old(self).parents@,
            final(self).node_count() == old(self).node_count(),
            forall|i: int|
                0 <= i < old(self).node_count() && i != node ==> final(self).nodes@[i] == old(
                    self,
                ).nodes@[i],
            final(self).nodes@[node as int] == (NodeData {
                main_size_layout_cache: main_cache,
                other_layout_cache: other_cache,
                is_dirty: false,
                ..old(self).nodes@[node as int]
            }),
    {
        self.nodes[node].main_size_layout_cache = main_cache;
        self.nodes[node].other_layout_cache = other_cache;
        self.nodes[node].is_dirty = false;
        proof {
            self.lemma_wf_from_same_adjacency(*old(self));
        }
    }
}



/// Why an edge-removal request was rejected; the forest is left unchanged.
#[derive(Debug, Copy, Clone, PartialEq, Eq)]
pub enum ForestError {
    /// The identity does not name a live node
    UnknownNode,
    /// The child index is not below the parent's child count
    ChildIndexOutOfBounds,
    /// The named child is not currently linked to the named parent
    EdgeNotFound,
}

/// The value `x` rewritten by the identity remap `from -> to`.
pub open spec fn remap_value(x: NodeId, from: NodeId, to: NodeId) -> NodeId {
    if x == from {
        to
    } else {
        x
    }
}

/// The sequence `s` with every occurrence of `from` rewritten to `to`,
/// order and length preserved.
pub open spec fn remap_seq(s: Seq<NodeId>, from: NodeId, to: NodeId) -> Seq<NodeId> {
    Seq::new(s.len(), |j: int| remap_value(s[j], from, to))
}

/// How a remap `from -> to` transforms every count: `from`'s occurrences
/// all become occurrences of `to`.
proof fn lemma_count_remap(s: Seq<NodeId>, from: NodeId, to: NodeId)
    requires
        from != to,
    ensures
        count_of(remap_seq(s, from, to), from) == 0,
        count_of(remap_seq(s, from, to), to) == count_of(s, from) + count_of(s, to),
        forall|v: NodeId|
            v != from && v != to ==> count_of(remap_seq(s, from, to), v) == count_of(s, v),
    decreases s.len(),
{
    if s.len() == 0 {
        assert(remap_seq(s, from, to) =~= Seq::<NodeId>::empty());
    } else {
        lemma_count_remap(s.drop_last(), from, to);
        assert(remap_seq(s, from, to).drop_last() =~= remap_seq(s.drop_last(), from, to));
        assert(remap_seq(s, from, to).last() == remap_value(s.last(), from, to));
        assert forall|v: NodeId| v != from && v != to implies count_of(
            remap_seq(s, from, to),
            v,
        ) == count_of(s, v) by {
            assert(count_of(remap_seq(s.drop_last(), from, to), v) == count_of(
                s.drop_last(),
                v,
            ));
        }
    }
}

/// A remap of an identity that does not occur leaves the sequence as it is.
proof fn lemma_remap_absent(s: Seq<NodeId>, from: NodeId, to: NodeId)
    requires
        count_of(s, from) == 0,
    ensures
        remap_seq(s, from, to) == s,
{
    lemma_count_zero(s, from);
    assert(remap_seq(s, from, to) =~= s);
}

/// Removes every occurrence of `target` from `list` by repeated
/// swap-with-last-then-pop: every other count is unchanged, and a list
/// without `target` is left exactly as it was.
#[verifier::loop_isolation(false)]
fn strike_all(list: &mut Vec<NodeId>, target: NodeId)
    ensures
        count_of(final(list)@, target) == 0,
        forall|v: NodeId|
            v != target ==> count_of(final(list)@, v) == count_of(old(list)@, v),
        count_of(old(list)@, target) == 0 ==> final(list)@ == old(list)@,
        final(list)@.len() <= old(list)@.len(),
{
    let mut pos: usize = 0;
    while pos < list.len()
        invariant
            pos <= list@.len(),
            list@.len() <= old(list)@.len(),
            forall|v: NodeId| v != target ==> count_of(list@, v) == count_of(old(list)@, v),
            forall|k: int| 0 <= k < pos ==> list@[k] != target,
            count_of(old(list)@, target) == 0 ==> list@ == old(list)@,
        decreases list@.len() - pos,
    {
        if list[pos] == target {
            let ghost before = list@;
            list.swap_remove(pos);
            proof {
                lemma_count_swap_remove(before, pos as int);
                if count_of(old(list)@, target) == 0 {
                    lemma_count_zero(old(list)@, target);
                }
                assert forall|k: int| 0 <= k < pos implies list@[k] != target by {
                    assert(list@[k] == before[k]);
                }
            }
        } else {
            pos += 1;
        }
    }
    proof {
        lemma_count_zero(list@, target);
    }
}

/// Rewrites every occurrence of `from` in `list` to `to`, in place,
/// preserving order and length.
#[verifier::loop_isolation(false)]
fn remap_all(list: &mut Vec<NodeId>, from: NodeId, to: NodeId)
    ensures
        final(list)@ == remap_seq(old(list)@, from, to),
{
    let n = list.len();
    let mut k: usize = 0;
    while k < n
        invariant
            k <= n,
            list@.len() == n,
            forall|j: int| 0 <= j < k ==> list@[j] == remap_value(old(list)@[j], from, to),
            forall|j: int| k <= j < n ==> list@[j] == old(list)@[j],
        decreases n - k,
    {
        if list[k] == from {
            list[k] = to;
        }
        k += 1;
    }
    proof {
        assert(list@ =~= remap_seq(old(list)@, from, to));
    }
}

/// The position of the first occurrence of `target` in `list`, if there is
/// one.
#[verifier::loop_isolation(false)]
fn try_position_of(list: &Vec<NodeId>, target: NodeId) -> (r: Option<usize>)
    ensures
        match r {
            Some(k) => k < list@.len() && list@[k as int] == target && forall|j: int|
                0 <= j < k ==> list@[j] != target,
            None => count_of(list@, target) == 0,
        },
{
    let n = list.len();
    let mut k: usize = 0;
    while k < n
        invariant
            k <= n,
            forall|j: int| 0 <= j < k ==> list@[j] != target,
        decreases n - k,
    {
        if list[k] == target {
            return Some(k);
        }
        k += 1;
    }
    proof {
        lemma_count_zero(list@, target);
    }
    None
}

impl<M> Forest<M> {
    /// Removes the edge at position `child_index` of `parent`'s child list:
    /// strikes it there, strikes the first matching entry from the child's
    /// parent list, and marks `parent` dirty. The child node itself is not
    /// removed.
    #[verifier::loop_isolation(false)]
    fn unlink_edge(&mut self, parent: NodeId, child_index: usize) -> (r: NodeId)
        requires
            old(self).wf(),
            parent < old(self).node_count(),
            child_index < old(self).child_seq(parent as int).len(),
        ensures
            final(self).wf(),
            final(self).node_count() == old(self).node_count(),
            r == old(self).child_seq(parent as int)[child_index as int],
            final(self).child_seq(parent as int) == old(self).child_seq(parent as int).remove(
                child_index as int,
            ),
            exists|k: int|
                0 <= k < old(self).parent_seq(r as int).len() && old(self).parent_seq(
                    r as int,
                )[k] == parent && (forall|j: int|
                    0 <= j < k ==> old(self).parent_seq(r as int)[j] != parent)
                    && final(self).parent_seq(r as int) == old(self).parent_seq(r as int).remove(
                    k,
                ),
            forall|i: int|
                0 <= i < old(self).node_count() && i != parent ==> #[trigger] final(self).child_seq(i) == old(self).child_seq(i),
            forall|i: int|
                0 <= i < old(self).node_count() && i != r ==> #[trigger] final(self).parent_seq(i) == old(self).parent_seq(i),
            final(self).nodes@ == marked_from(
                old(self).nodes@,
                final(self).parent_seqs(),
                parent,
            ),
    {
        let ghost prev = *old(self);
        let child = self.children[parent].remove(child_index);
        proof {
            assert(prev.child_seq(parent as int)[child_index as int] < prev.node_count());
            assert forall|v: NodeId| true implies #[trigger] count_of(
                self.child_seq(parent as int),
                v,
            ) == count_of(prev.child_seq(parent as int), v) - (if v == child {
                1int
            } else {
                0int
            }) by {
                lemma_count_remove(prev.child_seq(parent as int), child_index as int, v);
            }
            lemma_count_at_index(prev.child_seq(parent as int), child_index as int);
            assert(count_of(prev.child_seq(parent as int), child) >= 1);
            assert(count_of(prev.parent_seq(child as int), parent) >= 1);
            assert(count_of(prev.child_seq(parent as int), parent) == 0);
            assert(child != parent);
        }
        let kopt = try_position_of(&self.parents[child], parent);
        let k: usize;
        match kopt {
            Some(kk) => {
                k = kk;
            },
            None => {
                proof {
                    assert(false);
                }
                k = 0;
            },
        }
        let ghost mid1 = *self;
        self.parents[child].remove(k);
        proof {
            assert forall|v: NodeId| true implies #[trigger] count_of(
                self.parent_seq(child as int),
                v,
            ) == count_of(prev.parent_seq(child as int), v) - (if v == parent {
                1int
            } else {
                0int
            }) by {
                lemma_count_remove(prev.parent_seq(child as int), k as int, v);
            }
            let mid = *self;
            assert forall|i: int|
                0 <= i < prev.node_count() && i != parent implies #[trigger] mid.child_seq(i)
                == prev.child_seq(i) by {}
            assert forall|i: int|
                0 <= i < prev.node_count() && i != child implies #[trigger] mid.parent_seq(i)
                == prev.parent_seq(i) by {}
            assert forall|i: int, kk: int|
                0 <= i < mid.node_count() && 0 <= kk < mid.child_seq(i).len() implies #[trigger] mid.child_seq(i)[kk] < mid.node_count() by {
                if i == parent {
                    let base = prev.child_seq(i);
                    if kk < child_index {
                        assert(mid.child_seq(i)[kk] == base[kk]);
                    } else {
                        assert(mid.child_seq(i)[kk] == base[kk + 1]);
                    }
                } else {
                    assert(mid.child_seq(i) == prev.child_seq(i));
                }
            }
            assert forall|i: int, kk: int|
                0 <= i < mid.node_count() && 0 <= kk < mid.parent_seq(i).len() implies #[trigger] mid.parent_seq(i)[kk] < mid.node_count() by {
                if i == child {
                    let base = prev.parent_seq(i);
                    if kk < k {
                        assert(mid.parent_seq(i)[kk] == base[kk]);
                    } else {
                        assert(mid.parent_seq(i)[kk] == base[kk + 1]);
                    }
                } else {
                    assert(mid.parent_seq(i) == prev.parent_seq(i));
                }
            }
            assert forall|p: NodeId, c: NodeId|
                p < mid.node_count() && c < mid.node_count() implies #[trigger] count_of(
                mid.child_seq(p as int),
                c,
            ) == count_of(mid.parent_seq(c as int), p) by {
                assert(count_of(prev.child_seq(p as int), c) == count_of(
                    prev.parent_seq(c as int),
                    p,
                ));
                if p == parent {
                    lemma_count_remove(prev.child_seq(parent as int), child_index as int, c);
                    assert(mid.child_seq(parent as int) == prev.child_seq(
                        parent as int,
                    ).remove(child_index as int));
                } else {
                    assert(mid.child_seq(p as int) == prev.child_seq(p as int));
                }
                if c == child {
                    lemma_count_remove(prev.parent_seq(child as int), k as int, p);
                    assert(mid.parent_seq(child as int) == prev.parent_seq(child as int).remove(
                        k as int,
                    ));
                } else {
                    assert(mid.parent_seq(c as int) == prev.parent_seq(c as int));
                }
            }
            assert forall|i: NodeId| i < mid.node_count() implies #[trigger] count_of(
                mid.child_seq(i as int),
                i,
            ) == 0 by {
                assert(count_of(prev.child_seq(i as int), i) == 0);
                if i == parent {
                    lemma_count_remove(prev.child_seq(parent as int), child_index as int, i);
                } else {
                    assert(mid.child_seq(i as int) == prev.child_seq(i as int));
                }
            }
            assert(mid.wf());
        }
        self.mark_dirty(parent);
        child
    }

    /// Breaks the link between the `parent` node and the `child_index`-th
    /// child node, reporting the identity of the unlinked child.
    ///
    /// The child's own record is not removed. The parent is marked dirty.
    /// An unknown parent identity or an out-of-range index is rejected and
    /// the forest is left unchanged.
    pub fn remove_child_at_index(&mut self, parent: NodeId, child_index: usize) -> (r: Result<
        NodeId,
        ForestError,
    >)
        requires
            old(self).wf(),
        ensures
            final(self).wf(),
            parent >= old(self).node_count() ==> r == Err::<NodeId, ForestError>(
                ForestError::UnknownNode,
            ) && final(self).same_state(*old(self)),
            parent < old(self).node_count() && child_index >= old(self).child_seq(
                parent as int,
            ).len() ==> r == Err::<NodeId, ForestError>(ForestError::ChildIndexOutOfBounds)
                && final(self).same_state(*old(self)),
            parent < old(self).node_count() && child_index < old(self).child_seq(
                parent as int,
            ).len() ==> r == Ok::<NodeId, ForestError>(
                old(self).child_seq(parent as int)[child_index as int],
            ) && final(self).unlinked_from(*old(self), parent, child_index),
    {
        if parent >= self.nodes.len() {
            return Err(ForestError::UnknownNode);
        }
        if child_index >= self.children[parent].len() {
            return Err(ForestError::ChildIndexOutOfBounds);
        }
        let child = self.unlink_edge(parent, child_index);
        Ok(child)
    }

    /// Breaks the link between the `parent` node and the first occurrence
    /// of `child` in its child list, reporting the identity of the
    /// unlinked child.
    ///
    /// The child's own record is not removed. The parent is marked dirty.
    /// An unknown parent identity, or a child that is not linked to the
    /// parent, is rejected and the forest is left unchanged.
    pub fn remove_child(&mut self, parent: NodeId, child: NodeId) -> (r: Result<
        NodeId,
        ForestError,
    >)
        requires
            old(self).wf(),
        ensures
            final(self).wf(),
            parent >= old(self).node_count() ==> r == Err::<NodeId, ForestError>(
                ForestError::UnknownNode,
            ) && final(self).same_state(*old(self)),
            parent < old(self).node_count() && count_of(old(self).child_seq(parent as int), child)
                == 0 ==> r == Err::<NodeId, ForestError>(ForestError::EdgeNotFound)
                && final(self).same_state(*old(self)),
            parent < old(self).node_count() && count_of(old(self).child_seq(parent as int), child)
                > 0 ==> r == Ok::<NodeId, ForestError>(child) && exists|ci: int|
                0 <= ci < old(self).child_seq(parent as int).len() && old(self).child_seq(
                    parent as int,
                )[ci] == child && (forall|j: int|
                    0 <= j < ci ==> old(self).child_seq(parent as int)[j] != child) && #[trigger] final(self).unlinked_from(*old(self), parent, ci as usize),
    {
        if parent >= self.nodes.len() {
            return Err(ForestError::UnknownNode);
        }
        let idx_opt = try_position_of(&self.children[parent], child);
        match idx_opt {
            Some(index) => {
                proof {
                    lemma_count_at_index(old(self).child_seq(parent as int), index as int);
                }
                let c = self.unlink_edge(parent, index);
                proof {
                    assert(self.unlinked_from(*old(self), parent, index));
                    assert(((index as int) as usize) == index);
                }
                Ok(c)
            },
            None => Err(ForestError::EdgeNotFound),
        }
    }

    /// Nothing about the forest differs from `other`.
    pub open spec fn same_state(self, other: Self) -> bool {
        &&& self.nodes@ == other.nodes@
        &&& self.children@ == other.children@
        &&& self.parents@ == other.parents@
    }

    /// The relation [`Forest::unlink_edge`] establishes between the new
    /// state and the previous one `prev`: the `child_index`-th child entry
    /// of `parent` is gone, the first matching entry of that child's parent
    /// list is gone, everything else is in place, and the dirty mark has
    /// propagated from `parent`.
    pub open spec fn unlinked_from(self, prev: Self, parent: NodeId, child_index: usize) -> bool {
        let child = prev.child_seq(parent as int)[child_index as int];
        &&& self.node_count() == prev.node_count()
        &&& self.child_seq(parent as int) == prev.child_seq(parent as int).remove(
            child_index as int,
        )
        &&& exists|k: int|
            0 <= k < prev.parent_seq(child as int).len() && prev.parent_seq(child as int)[k]
                == parent && (forall|j: int|
                0 <= j < k ==> prev.parent_seq(child as int)[j] != parent) && self.parent_seq(
                child as int,
            ) == prev.parent_seq(child as int).remove(k)
        &&& forall|i: int|
            0 <= i < prev.node_count() && i != parent ==> #[trigger] self.child_seq(i)
                == prev.child_seq(i)
        &&& forall|i: int|
            0 <= i < prev.node_count() && i != child ==> #[trigger] self.parent_seq(i)
                == prev.parent_seq(i)
        &&& self.nodes@ == marked_from(prev.nodes@, self.parent_seqs(), parent)
    }
}



/// Strikes every occurrence of `target` out of `lists[j]` for each `j` in
/// `src` (the neighbor lists of a node being deleted). Other counts are
/// untouched, and any list that never held `target` keeps its exact
/// contents.
#[verifier::loop_isolation(false)]
fn strike_neighbors(src: &Vec<NodeId>, lists: &mut Vec<Vec<NodeId>>, target: NodeId)
    requires
        forall|k: int| 0 <= k < src@.len() ==> src@[k] < old(lists)@.len(),
    ensures
        final(lists)@.len() == old(lists)@.len(),
        forall|j: int, v: NodeId|
            0 <= j < old(lists)@.len() && v != target ==> #[trigger] count_of(
                final(lists)@[j]@,
                v,
            ) == count_of(old(lists)@[j]@, v),
        forall|j: NodeId|
            j < old(lists)@.len() && count_of(src@, j) > 0 ==> #[trigger] count_of(
                final(lists)@[j as int]@,
                target,
            ) == 0,
        forall|j: int|
            0 <= j < old(lists)@.len() && count_of(old(lists)@[j]@, target) == 0
                ==> #[trigger] final(lists)@[j]@ == old(lists)@[j]@,
    {
    let n = src.len();
    let mut i: usize = 0;
    while i < n
        invariant
            i <= n,
            lists@.len() == old(lists)@.len(),
            forall|j: int, v: NodeId|
                0 <= j < lists@.len() && v != target ==> #[trigger] count_of(lists@[j]@, v)
                    == count_of(old(lists)@[j]@, v),
            forall|j: NodeId|
                j < lists@.len() && count_of(src@.take(i as int), j) > 0 ==> #[trigger] count_of(
                    lists@[j as int]@,
                    target,
                ) == 0,
            forall|j: int|
                0 <= j < lists@.len() && count_of(old(lists)@[j]@, target) == 0
                    ==> #[trigger] lists@[j]@ == old(lists)@[j]@,
        decreases n - i,
    {
        let child = src[i];
        let ghost before = lists@;
        strike_all(&mut lists[child], target);
        proof {
            assert forall|j: int, v: NodeId|
                0 <= j < lists@.len() && v != target implies #[trigger] count_of(lists@[j]@, v)
                    == count_of(old(lists)@[j]@, v) by {
                if j != child {
                    assert(lists@[j] == before[j]);
                }
            }
            assert forall|j: NodeId|
                j < lists@.len() && count_of(src@.take(i as int + 1), j) > 0 implies #[trigger] count_of(lists@[j as int]@, target) == 0 by {
                lemma_count_take_succ(src@, i as int, j);
                if j != child {
                    assert(lists@[j as int] == before[j as int]);
                    assert(count_of(src@.take(i as int), j) > 0);
                }
            }
            assert forall|j: int|
                0 <= j < lists@.len() && count_of(old(lists)@[j]@, target) == 0 implies #[trigger] lists@[j]@ == old(lists)@[j]@ by {
                if j != child {
                    assert(lists@[j] == before[j]);
                } else {
                    assert(before[j]@ == old(lists)@[j]@);
                }
            }
        }
        i += 1;
    }
    proof {
        assert(src@.take(n as int) =~= src@);
    }
}

/// Rewrites `from` to `to` in `lists[j]` for each `j` in `src` (the
/// neighbor lists of the node whose identity is changing). Lists of other
/// slots are untouched.
#[verifier::loop_isolation(false)]
fn remap_neighbors(src: &Vec<NodeId>, lists: &mut Vec<Vec<NodeId>>, from: NodeId, to: NodeId)
    requires
        from != to,
        forall|k: int| 0 <= k < src@.len() ==> src@[k] < old(lists)@.len(),
    ensures
        final(lists)@.len() == old(lists)@.len(),
        forall|j: NodeId|
            j < old(lists)@.len() ==> #[trigger] final(lists)@[j as int]@ == (if count_of(
                src@,
                j,
            ) > 0 {
                remap_seq(old(lists)@[j as int]@, from, to)
            } else {
                old(lists)@[j as int]@
            }),
    {
    let n = src.len();
    let mut i: usize = 0;
    while i < n
        invariant
            i <= n,
            lists@.len() == old(lists)@.len(),
            forall|j: NodeId|
                j < lists@.len() ==> #[trigger] lists@[j as int]@ == (if count_of(
                    src@.take(i as int),
                    j,
                ) > 0 {
                    remap_seq(old(lists)@[j as int]@, from, to)
                } else {
                    old(lists)@[j as int]@
                }),
        decreases n - i,
    {
        let child = src[i];
        let ghost before = lists@;
        remap_all(&mut lists[child], from, to);
        proof {
            assert forall|j: NodeId|
                j < lists@.len() implies #[trigger] lists@[j as int]@ == (if count_of(
                src@.take(i as int + 1),
                j,
            ) > 0 {
                remap_seq(old(lists)@[j as int]@, from, to)
            } else {
                old(lists)@[j as int]@
            }) by {
                lemma_count_take_succ(src@, i as int, j);
                assert(before[j as int]@ == (if count_of(src@.take(i as int), j) > 0 {
                    remap_seq(old(lists)@[j as int]@, from, to)
                } else {
                    old(lists)@[j as int]@
                }));
                if j != child {
                    assert(lists@[j as int] == before[j as int]);
                } else {
                    if count_of(src@.take(i as int), j) > 0 {
                        // already remapped once; remapping again changes nothing
                        assert(before[j as int]@ == remap_seq(old(lists)@[j as int]@, from, to));
                        lemma_count_remap(old(lists)@[j as int]@, from, to);
                        lemma_remap_absent(before[j as int]@, from, to);
                    }
                }
            }
        }
        i += 1;
    }
    proof {
        assert(src@.take(n as int) =~= src@);
    }
}



/// A positive count of `v` in a sequence of identities below `bound` puts
/// `v` below `bound` too.
proof fn lemma_count_pos_bound(s: Seq<NodeId>, bound: nat, v: NodeId)
    requires
        forall|k: int| 0 <= k < s.len() ==> s[k] < bound,
        count_of(s, v) > 0,
    ensures
        v < bound,
{
    lemma_count_zero(s, v);
    assert(exists|k: int| 0 <= k < s.len() && s[k] == v);
}

/// The slot of the previous forest whose node occupies slot `i` after a
/// compacting removal of `node` from a forest of `len` nodes: the freed
/// slot inherits the node that was last, every other slot keeps its own.
pub open spec fn relocated_slot(i: int, node: NodeId, len: nat) -> int {
    if i == node {
        len - 1
    } else {
        i
    }
}

/// What a compacting removal does to a single adjacency count when the
/// node `last` is relocated into the freed slot `node`: occurrences of
/// `node` are struck out, and occurrences of `last` now read `node`.
pub open spec fn compacted_count(s: Seq<NodeId>, node: NodeId, last: NodeId, v: NodeId) -> nat {
    if v == node {
        count_of(s, last)
    } else if v == last {
        0
    } else {
        count_of(s, v)
    }
}

impl<M> Forest<M> {
    /// What [`Forest::swap_remove`] leaves behind when the removed `node`
    /// already occupied the final slot: every remaining adjacency list has
    /// lost exactly the occurrences of `node`, lists that never mentioned
    /// it keep their exact contents, and every remaining record keeps its
    /// slot.
    pub open spec fn compacted_no_move(self, prev: Self, node: NodeId) -> bool {
        let len1 = prev.node_count() - 1;
        &&& self.node_count() == len1
        &&& self.nodes@ == prev.nodes@.drop_last()
        &&& forall|i: int, v: NodeId|
            0 <= i < len1 ==> #[trigger] count_of(self.child_seq(i), v) == (if v == node {
                0nat
            } else {
                count_of(prev.child_seq(i), v)
            })
        &&& forall|i: int, v: NodeId|
            0 <= i < len1 ==> #[trigger] count_of(self.parent_seq(i), v) == (if v == node {
                0nat
            } else {
                count_of(prev.parent_seq(i), v)
            })
        &&& forall|i: int|
            0 <= i < len1 && count_of(prev.child_seq(i), node) == 0 ==> #[trigger] self.child_seq(
                i,
            ) == prev.child_seq(i)
        &&& forall|i: int|
            0 <= i < len1 && count_of(prev.parent_seq(i), node) == 0
                ==> #[trigger] self.parent_seq(i) == prev.parent_seq(i)
    }

    /// What [`Forest::swap_remove`] leaves behind when the node of the
    /// final slot (`last`) was relocated into `node`'s place: slot `node`
    /// now holds `last`'s record and neighbor lists, occurrences of `node`
    /// are struck from every list, occurrences of `last` now read `node`
    /// (so nothing refers to `last` any more), and a list that never
    /// mentioned `node` is exactly its old self with `last` rewritten.
    pub open spec fn compacted_moved(self, prev: Self, node: NodeId) -> bool {
        let len0 = prev.node_count();
        let last = (prev.node_count() - 1) as NodeId;
        &&& self.node_count() == len0 - 1
        &&& self.nodes@ == prev.nodes@.update(node as int, prev.nodes@.last()).drop_last()
        &&& forall|i: int, v: NodeId|
            0 <= i < len0 - 1 ==> #[trigger] count_of(self.child_seq(i), v) == compacted_count(
                prev.child_seq(relocated_slot(i, node, len0)),
                node,
                last,
                v,
            )
        &&& forall|i: int, v: NodeId|
            0 <= i < len0 - 1 ==> #[trigger] count_of(self.parent_seq(i), v) == compacted_count(
                prev.parent_seq(relocated_slot(i, node, len0)),
                node,
                last,
                v,
            )
        &&& forall|i: int|
            0 <= i < len0 - 1 && count_of(prev.child_seq(relocated_slot(i, node, len0)), node)
                == 0 ==> #[trigger] self.child_seq(i) == remap_seq(
                prev.child_seq(relocated_slot(i, node, len0)),
                last,
                node,
            )
        &&& forall|i: int|
            0 <= i < len0 - 1 && count_of(prev.parent_seq(relocated_slot(i, node, len0)), node)
                == 0 ==> #[trigger] self.parent_seq(i) == remap_seq(
                prev.parent_seq(relocated_slot(i, node, len0)),
                last,
                node,
            )
    }

    /// Assembles the final well-formedness and contract of a compacting
    /// removal that relocated the last node into the freed slot.
    #[verifier::rlimit(100)]
    #[verifier::spinoff_prover]
    proof fn lemma_assemble_moved(fin: Self, mid2: Self, prev: Self, node: NodeId)
        requires
            prev.wf(),
            prev.node_count() >= 2,
            prev.node_count() <= usize::MAX as nat,
            node < prev.node_count() - 1,
            fin.nodes@ == prev.nodes@.update(node as int, prev.nodes@.last()).drop_last(),
            fin.nodes@.len() == prev.node_count() - 1,
            fin.children@.len() == prev.node_count() - 1,
            fin.parents@.len() == prev.node_count() - 1,
            forall|j: int, v: NodeId|
                0 <= j < prev.node_count() && v != node ==> #[trigger] count_of(
                    mid2.child_seq(j),
                    v,
                ) == count_of(prev.child_seq(j), v),
            forall|j: int, v: NodeId|
                0 <= j < prev.node_count() && v != node ==> #[trigger] count_of(
                    mid2.parent_seq(j),
                    v,
                ) == count_of(prev.parent_seq(j), v),
            forall|j: int|
                0 <= j < prev.node_count() ==> #[trigger] count_of(mid2.child_seq(j), node) == 0,
            forall|j: int|
                0 <= j < prev.node_count() ==> #[trigger] count_of(mid2.parent_seq(j), node) == 0,
            forall|j: int|
                0 <= j < prev.node_count() && count_of(prev.child_seq(j), node) == 0
                    ==> #[trigger] mid2.child_seq(j) == prev.child_seq(j),
            forall|j: int|
                0 <= j < prev.node_count() && count_of(prev.parent_seq(j), node) == 0
                    ==> #[trigger] mid2.parent_seq(j) == prev.parent_seq(j),
            forall|i: int|
                0 <= i < prev.node_count() - 1 ==> #[trigger] fin.child_seq(i) == remap_seq(
                    mid2.child_seq(relocated_slot(i, node, prev.node_count())),
                    (prev.node_count() - 1) as NodeId,
                    node,
                ),
            forall|i: int|
                0 <= i < prev.node_count() - 1 ==> #[trigger] fin.parent_seq(i) == remap_seq(
                    mid2.parent_seq(relocated_slot(i, node, prev.node_count())),
                    (prev.node_count() - 1) as NodeId,
                    node,
                ),
        ensures
            fin.wf(),
            fin.compacted_moved(prev, node),
    {
        let len0 = prev.node_count();
        let last = (len0 - 1) as NodeId;
        assert forall|i: int, v: NodeId| 0 <= i < len0 - 1 implies #[trigger] count_of(
            fin.child_seq(i),
            v,
        ) == compacted_count(prev.child_seq(relocated_slot(i, node, len0)), node, last, v) by {
            let si = relocated_slot(i, node, len0);
            lemma_count_remap(mid2.child_seq(si), last, node);
            assert(count_of(mid2.child_seq(si), node) == 0);
            assert(count_of(mid2.child_seq(si), last) == count_of(prev.child_seq(si), last));
            if v != node && v != last {
                assert(count_of(mid2.child_seq(si), v) == count_of(prev.child_seq(si), v));
            }
        }
        assert forall|i: int, v: NodeId| 0 <= i < len0 - 1 implies #[trigger] count_of(
            fin.parent_seq(i),
            v,
        ) == compacted_count(prev.parent_seq(relocated_slot(i, node, len0)), node, last, v) by {
            let si = relocated_slot(i, node, len0);
            lemma_count_remap(mid2.parent_seq(si), last, node);
            assert(count_of(mid2.parent_seq(si), node) == 0);
            assert(count_of(mid2.parent_seq(si), last) == count_of(prev.parent_seq(si), last));
            if v != node && v != last {
                assert(count_of(mid2.parent_seq(si), v) == count_of(prev.parent_seq(si), v));
            }
        }
        assert forall|i: int, k: int|
            0 <= i < len0 - 1 && 0 <= k < fin.child_seq(i).len() implies #[trigger] fin.child_seq(
            i,
        )[k] < len0 - 1 by {
            let e = fin.child_seq(i)[k];
            let si = relocated_slot(i, node, len0);
            lemma_count_at_index(fin.child_seq(i), k);
            assert(count_of(fin.child_seq(i), e) == compacted_count(
                prev.child_seq(si),
                node,
                last,
                e,
            ));
            if e != node {
                assert(e != last);
                assert(count_of(prev.child_seq(si), e) >= 1);
                lemma_count_pos_bound(prev.child_seq(si), len0, e);
            }
        }
        assert forall|i: int, k: int|
            0 <= i < len0 - 1 && 0 <= k < fin.parent_seq(i).len() implies #[trigger] fin.parent_seq(i)[k] < len0 - 1 by {
            let e = fin.parent_seq(i)[k];
            let si = relocated_slot(i, node, len0);
            lemma_count_at_index(fin.parent_seq(i), k);
            assert(count_of(fin.parent_seq(i), e) == compacted_count(
                prev.parent_seq(si),
                node,
                last,
                e,
            ));
            if e != node {
                assert(e != last);
                assert(count_of(prev.parent_seq(si), e) >= 1);
                lemma_count_pos_bound(prev.parent_seq(si), len0, e);
            }
        }
        assert forall|p: NodeId, c: NodeId| p < len0 - 1 && c < len0 - 1 implies #[trigger] count_of(fin.child_seq(p as int), c) == count_of(fin.parent_seq(c as int), p) by {
            let spv: NodeId = if p == node {
                last
            } else {
                p
            };
            let ccv: NodeId = if c == node {
                last
            } else {
                c
            };
            assert(relocated_slot(p as int, node, len0) == spv as int);
            assert(relocated_slot(c as int, node, len0) == ccv as int);
            assert(count_of(fin.child_seq(p as int), c) == compacted_count(
                prev.child_seq(spv as int),
                node,
                last,
                c,
            ));
            assert(count_of(fin.parent_seq(c as int), p) == compacted_count(
                prev.parent_seq(ccv as int),
                node,
                last,
                p,
            ));
            assert(count_of(prev.child_seq(spv as int), ccv) == count_of(
                prev.parent_seq(ccv as int),
                spv,
            ));
        }
        assert forall|i: NodeId| i < len0 - 1 implies #[trigger] count_of(
            fin.child_seq(i as int),
            i,
        ) == 0 by {
            let si = relocated_slot(i as int, node, len0);
            assert(count_of(fin.child_seq(i as int), i) == compacted_count(
                prev.child_seq(si),
                node,
                last,
                i,
            ));
            if i == node {
                assert(count_of(prev.child_seq(last as int), last) == 0);
            } else {
                assert(count_of(prev.child_seq(i as int), i) == 0);
            }
        }
        assert forall|i: int| 0 <= i < len0 - 1 implies (
        #[trigger] fin.nodes@[i]).cache_consistent() by {
            if i == node {
                assert(fin.nodes@[i] == prev.nodes@[len0 - 1]);
            } else {
                assert(fin.nodes@[i] == prev.nodes@[i]);
            }
        }
        assert forall|i: int|
            0 <= i < len0 - 1 && count_of(prev.child_seq(relocated_slot(i, node, len0)), node)
                == 0 implies #[trigger] fin.child_seq(i) == remap_seq(
            prev.child_seq(relocated_slot(i, node, len0)),
            last,
            node,
        ) by {
            assert(mid2.child_seq(relocated_slot(i, node, len0)) == prev.child_seq(
                relocated_slot(i, node, len0),
            ));
        }
        assert forall|i: int|
            0 <= i < len0 - 1 && count_of(prev.parent_seq(relocated_slot(i, node, len0)), node)
                == 0 implies #[trigger] fin.parent_seq(i) == remap_seq(
            prev.parent_seq(relocated_slot(i, node, len0)),
            last,
            node,
        ) by {
            assert(mid2.parent_seq(relocated_slot(i, node, len0)) == prev.parent_seq(
                relocated_slot(i, node, len0),
            ));
        }
    }

    /// Assembles the final well-formedness and contract of a compacting
    /// removal whose removed node already occupied the final slot.
    #[verifier::rlimit(100)]
    #[verifier::spinoff_prover]
    proof fn lemma_assemble_no_move(fin: Self, mid2: Self, prev: Self, node: NodeId)
        requires
            prev.wf(),
            prev.node_count() >= 1,
            node == prev.node_count() - 1,
            fin.nodes@ == prev.nodes@.drop_last(),
            fin.nodes@.len() == prev.node_count() - 1,
            fin.children@.len() == prev.node_count() - 1,
            fin.parents@.len() == prev.node_count() - 1,
            forall|j: int, v: NodeId|
                0 <= j < prev.node_count() && v != node ==> #[trigger] count_of(
                    mid2.child_seq(j),
                    v,
                ) == count_of(prev.child_seq(j), v),
            forall|j: int, v: NodeId|
                0 <= j < prev.node_count() && v != node ==> #[trigger] count_of(
                    mid2.parent_seq(j),
                    v,
                ) == count_of(prev.parent_seq(j), v),
            forall|j: int|
                0 <= j < prev.node_count() ==> #[trigger] count_of(mid2.child_seq(j), node) == 0,
            forall|j: int|
                0 <= j < prev.node_count() ==> #[trigger] count_of(mid2.parent_seq(j), node) == 0,
            forall|j: int|
                0 <= j < prev.node_count() && count_of(prev.child_seq(j), node) == 0
                    ==> #[trigger] mid2.child_seq(j) == prev.child_seq(j),
            forall|j: int|
                0 <= j < prev.node_count() && count_of(prev.parent_seq(j), node) == 0
                    ==> #[trigger] mid2.parent_seq(j) == prev.parent_seq(j),
            forall|i: int|
                0 <= i < prev.node_count() - 1 ==> #[trigger] fin.child_seq(i)
                    == mid2.child_seq(i),
            forall|i: int|
                0 <= i < prev.node_count() - 1 ==> #[trigger] fin.parent_seq(i)
                    == mid2.parent_seq(i),
        ensures
            fin.wf(),
            fin.compacted_no_move(prev, node),
    {
        let len0 = prev.node_count();
        assert forall|i: int, v: NodeId| 0 <= i < len0 - 1 implies #[trigger] count_of(
            fin.child_seq(i),
            v,
        ) == (if v == node {
            0nat
        } else {
            count_of(prev.child_seq(i), v)
        }) by {
            assert(fin.child_seq(i) == mid2.child_seq(i));
        }
        assert forall|i: int, v: NodeId| 0 <= i < len0 - 1 implies #[trigger] count_of(
            fin.parent_seq(i),
            v,
        ) == (if v == node {
            0nat
        } else {
            count_of(prev.parent_seq(i), v)
        }) by {
            assert(fin.parent_seq(i) == mid2.parent_seq(i));
        }
        assert forall|i: int, k: int|
            0 <= i < len0 - 1 && 0 <= k < fin.child_seq(i).len() implies #[trigger] fin.child_seq(
            i,
        )[k] < len0 - 1 by {
            let e = fin.child_seq(i)[k];
            lemma_count_at_index(fin.child_seq(i), k);
            assert(e != node);
            assert(count_of(prev.child_seq(i), e) >= 1);
            lemma_count_pos_bound(prev.child_seq(i), len0, e);
        }
        assert forall|i: int, k: int|
            0 <= i < len0 - 1 && 0 <= k < fin.parent_seq(i).len() implies #[trigger] fin.parent_seq(i)[k] < len0 - 1 by {
            let e = fin.parent_seq(i)[k];
            lemma_count_at_index(fin.parent_seq(i), k);
            assert(e != node);
            assert(count_of(prev.parent_seq(i), e) >= 1);
            lemma_count_pos_bound(prev.parent_seq(i), len0, e);
        }
        assert forall|p: NodeId, c: NodeId| p < len0 - 1 && c < len0 - 1 implies #[trigger] count_of(fin.child_seq(p as int), c) == count_of(fin.parent_seq(c as int), p) by {
            assert(count_of(prev.child_seq(p as int), c) == count_of(
                prev.parent_seq(c as int),
                p,
            ));
        }
        assert forall|i: NodeId| i < len0 - 1 implies #[trigger] count_of(
            fin.child_seq(i as int),
            i,
        ) == 0 by {
            assert(count_of(prev.child_seq(i as int), i) == 0);
        }
        assert forall|i: int| 0 <= i < len0 - 1 implies (
        #[trigger] fin.nodes@[i]).cache_consistent() by {
            assert(fin.nodes@[i] == prev.nodes@[i]);
        }
    }
}



impl<M> Forest<M> {
    /// Removes `node` from the forest, keeping storage dense: the node in
    /// the last slot is relocated into `node`'s place (unless `node` was
    /// already last), every adjacency reference to `node` is struck out,
    /// and every reference to the relocated node is rewritten to its new
    /// identity `node`.
    ///
    /// Returns the previous identity of the relocated node — the caller
    /// must remap any externally held identity equal to it to `node` — or
    /// `None` when the removed node was already last and nothing moved.
    #[verifier::loop_isolation(false)]
    #[verifier::rlimit(100)]
    #[verifier::spinoff_prover]
    pub fn swap_remove(&mut self, node: NodeId) -> (r: Option<NodeId>)
        requires
            old(self).wf(),
            node < old(self).node_count(),
        ensures
            final(self).wf(),
            final(self).node_count() == old(self).node_count() - 1,
            r == (if node == old(self).node_count() - 1 {
                None::<NodeId>
            } else {
                Some((old(self).node_count() - 1) as NodeId)
            }),
            node == old(self).node_count() - 1 ==> final(self).compacted_no_move(
                *old(self),
                node,
            ),
            node != old(self).node_count() - 1 ==> final(self).compacted_moved(
                *old(self),
                node,
            ),
    {
        let ghost prev = *old(self);
        let ghost len0 = prev.node_count();
        let n0 = self.nodes.len();
        proof {
            assert(len0 == n0 as nat);
        }
        self.nodes.swap_remove(node);
        if self.nodes.is_empty() {
            self.children.clear();
            self.parents.clear();
            proof {
                assert(len0 == 1 && node == 0);
                assert(self.nodes@ =~= prev.nodes@.drop_last());
            }
            return None;
        }
        // Strike node out of the parent list of each of its children.
        proof {
            assert forall|k: int|
                0 <= k < self.children@[node as int]@.len() implies self.children@[node as int]@[k] < self.parents@.len() by {
                assert(prev.child_seq(node as int)[k] < prev.node_count());
            }
        }
        strike_neighbors(&self.children[node], &mut self.parents, node);
        proof {
            assert forall|j: NodeId| j < len0 implies #[trigger] count_of(
                self.parent_seq(j as int),
                node,
            ) == 0 by {
                assert(count_of(prev.child_seq(node as int), j) == count_of(
                    prev.parent_seq(j as int),
                    node,
                ));
                if count_of(prev.child_seq(node as int), j) == 0 {
                    assert(self.parents@[j as int]@ == prev.parent_seq(j as int));
                }
            }
        }
        let ghost mid1 = *self;
        proof {
            assert(count_of(prev.child_seq(node as int), node) == 0);
            assert(count_of(prev.parent_seq(node as int), node) == 0);
            assert(mid1.parent_seq(node as int) == prev.parent_seq(node as int));
            assert forall|k: int|
                0 <= k < self.parents@[node as int]@.len() implies self.parents@[node as int]@[k] < self.children@.len() by {
                assert(prev.parent_seq(node as int)[k] < prev.node_count());
            }
        }
        // Strike node out of the child list of each of its parents.
        strike_neighbors(&self.parents[node], &mut self.children, node);
        let ghost mid2 = *self;
        proof {
            assert(mid2.children@.len() == len0 && mid2.parents@.len() == len0);
            // Counts of everything else are untouched by the strikes.
            assert forall|j: int, v: NodeId| 0 <= j < len0 && v != node implies #[trigger] count_of(mid2.child_seq(j), v) == count_of(prev.child_seq(j), v) by {
                assert(count_of(mid1.child_seq(j), v) == count_of(prev.child_seq(j), v));
            }
            assert forall|j: int, v: NodeId| 0 <= j < len0 && v != node implies #[trigger] count_of(mid2.parent_seq(j), v) == count_of(prev.parent_seq(j), v) by {
                assert(mid2.parent_seq(j) == mid1.parent_seq(j));
            }
            // No list mentions node any more.
            assert forall|j: int| 0 <= j < len0 implies #[trigger] count_of(
                mid2.child_seq(j),
                node,
            ) == 0 by {
                let jv = j as NodeId;
                assert(count_of(prev.child_seq(j), node) == count_of(
                    prev.parent_seq(node as int),
                    jv,
                ));
                if count_of(mid1.parent_seq(node as int), jv) == 0 {
                    assert(mid2.child_seq(j) == mid1.child_seq(j));
                    assert(mid1.child_seq(j) == prev.child_seq(j));
                }
            }
            assert forall|j: int| 0 <= j < len0 implies #[trigger] count_of(
                mid2.parent_seq(j),
                node,
            ) == 0 by {
                assert(mid2.parent_seq(j) == mid1.parent_seq(j));
                assert(count_of(mid1.parent_seq(j as NodeId as int), node) == 0);
            }
            // Lists that never mentioned node keep their exact contents.
            assert forall|j: int|
                0 <= j < len0 && count_of(prev.child_seq(j), node) == 0 implies #[trigger] mid2.child_seq(j) == prev.child_seq(j) by {
                assert(mid1.child_seq(j) == prev.child_seq(j));
            }
            assert forall|j: int|
                0 <= j < len0 && count_of(prev.parent_seq(j), node) == 0 implies #[trigger] mid2.parent_seq(j) == prev.parent_seq(j) by {
                assert(mid2.parent_seq(j) == mid1.parent_seq(j));
            }
        }
        let last = self.nodes.len();
        if last != node {
            // Rewrite last to node in the parent list of each of last's
            // children.
            proof {
                assert forall|k: int|
                    0 <= k < self.children@[last as int]@.len() implies self.children@[last as int]@[k] < self.parents@.len() by {
                    let e = mid2.child_seq(last as int)[k];
                    lemma_count_at_index(mid2.child_seq(last as int), k);
                    assert(e != node);
                    assert(count_of(prev.child_seq(last as int), e) >= 1);
                    lemma_count_pos_bound(prev.child_seq(last as int), len0, e);
                }
            }
            remap_neighbors(&self.children[last], &mut self.parents, last, node);
            proof {
                assert forall|j: NodeId| j < len0 && j != node implies #[trigger] self.parents@[j as int]@ == remap_seq(mid2.parent_seq(j as int), last, node) by {
                    if count_of(mid2.child_seq(last as int), j) == 0 {
                        assert(count_of(mid2.parent_seq(j as int), last) == count_of(
                            prev.parent_seq(j as int),
                            last,
                        ));
                        assert(count_of(prev.child_seq(last as int), j) == count_of(
                            prev.parent_seq(j as int),
                            last,
                        ));
                        assert(count_of(mid2.child_seq(last as int), j) == count_of(
                            prev.child_seq(last as int),
                            j,
                        ));
                        lemma_remap_absent(mid2.parent_seq(j as int), last, node);
                        assert(self.parents@[j as int]@ == mid2.parent_seq(j as int));
                    }
                }
                // last's own parent list was not rewritten: last is nobody's
                // own child.
                assert(count_of(mid2.child_seq(last as int), last) == count_of(
                    prev.child_seq(last as int),
                    last,
                ));
                assert(count_of(prev.child_seq(last as int), last) == 0);
                assert(self.parents@[last as int]@ == mid2.parent_seq(last as int));
            }
            let ghost mid3 = *self;
            proof {
                assert forall|k: int|
                    0 <= k < self.parents@[last as int]@.len() implies self.parents@[last as int]@[k] < self.children@.len() by {
                    let e = mid2.parent_seq(last as int)[k];
                    lemma_count_at_index(mid2.parent_seq(last as int), k);
                    assert(e != node);
                    assert(count_of(prev.parent_seq(last as int), e) >= 1);
                    lemma_count_pos_bound(prev.parent_seq(last as int), len0, e);
                }
            }
            // Rewrite last to node in the child list of each of last's
            // parents.
            remap_neighbors(&self.parents[last], &mut self.children, last, node);
            proof {
                assert(mid3.children@ == mid2.children@);
                assert forall|j: NodeId| j < len0 && j != node implies #[trigger] self.children@[j as int]@ == remap_seq(mid2.child_seq(j as int), last, node) by {
                    assert(mid3.child_seq(j as int) == mid2.child_seq(j as int));
                    if count_of(mid3.parent_seq(last as int), j) == 0 {
                        assert(mid3.parent_seq(last as int) == mid2.parent_seq(last as int));
                        assert(count_of(mid2.child_seq(j as int), last) == count_of(
                            prev.child_seq(j as int),
                            last,
                        ));
                        assert(count_of(prev.child_seq(j as int), last) == count_of(
                            prev.parent_seq(last as int),
                            j,
                        ));
                        assert(count_of(mid2.parent_seq(last as int), j) == count_of(
                            prev.parent_seq(last as int),
                            j,
                        ));
                        lemma_remap_absent(mid2.child_seq(j as int), last, node);
                        assert(self.children@[j as int]@ == mid3.child_seq(j as int));
                    }
                }
            }
            let ghost mid4 = *self;
            self.children.swap_remove(node);
            self.parents.swap_remove(node);
            proof {
                assert forall|i: int| 0 <= i < len0 - 1 implies #[trigger] self.child_seq(i)
                    == remap_seq(
                    mid2.child_seq(relocated_slot(i, node, len0)),
                    last,
                    node,
                ) by {
                    if i == node {
                        assert(self.children@[i] == mid4.children@[len0 - 1]);
                        assert(mid4.children@[last as int]@ == remap_seq(
                            mid2.child_seq(last as int),
                            last,
                            node,
                        ));
                    } else {
                        assert(self.children@[i] == mid4.children@[i]);
                        let jv = i as NodeId;
                        assert(mid4.children@[jv as int]@ == remap_seq(
                            mid2.child_seq(jv as int),
                            last,
                            node,
                        ));
                    }
                }
                assert forall|i: int| 0 <= i < len0 - 1 implies #[trigger] self.parent_seq(i)
                    == remap_seq(
                    mid2.parent_seq(relocated_slot(i, node, len0)),
                    last,
                    node,
                ) by {
                    if i == node {
                        assert(self.parents@[i] == mid4.parents@[len0 - 1]);
                        assert(mid4.parents@[last as int]@ == remap_seq(
                            mid2.parent_seq(last as int),
                            last,
                            node,
                        ));
                    } else {
                        assert(self.parents@[i] == mid4.parents@[i]);
                        let jv = i as NodeId;
                        assert(mid4.parents@[jv as int]@ == remap_seq(
                            mid2.parent_seq(jv as int),
                            last,
                            node,
                        ));
                    }
                }
                Self::lemma_assemble_moved(*self, mid2, prev, node);
            }
            Some(last)
        } else {
            self.children.swap_remove(node);
            self.parents.swap_remove(node);
            proof {
                assert(self.nodes@ =~= prev.nodes@.drop_last());
                assert forall|i: int| 0 <= i < len0 - 1 implies #[trigger] self.child_seq(i)
                    == mid2.child_seq(i) && #[trigger] self.parent_seq(i) == mid2.parent_seq(
                    i,
                ) by {
                    assert(self.children@[i] == mid2.children@[i]);
                    assert(self.parents@[i] == mid2.parents@[i]);
                }
                Self::lemma_assemble_no_move(*self, mid2, prev, node);
            }
            None
        }
    }
}



impl<M> Forest<M> {
    /// Adjacency symmetry: in a well-formed forest — and every public
    /// operation keeps the forest well-formed — an identity `c` appears in
    /// `p`'s child list exactly when `p` appears in `c`'s parent list.
    pub proof fn lemma_adjacency_symmetric(self)
        requires
            self.wf(),
        ensures
            forall|p: NodeId, c: NodeId|
                p < self.node_count() && c < self.node_count() ==> (#[trigger] self.child_seq(
                    p as int,
                ).contains(c) <==> self.parent_seq(c as int).contains(p)),
    {
        assert forall|p: NodeId, c: NodeId|
            p < self.node_count() && c < self.node_count() implies (#[trigger] self.child_seq(
            p as int,
        ).contains(c) <==> self.parent_seq(c as int).contains(p)) by {
            lemma_count_zero(self.child_seq(p as int), c);
            lemma_count_zero(self.parent_seq(c as int), p);
            assert(count_of(self.child_seq(p as int), c) == count_of(
                self.parent_seq(c as int),
                p,
            ));
            if self.child_seq(p as int).contains(c) {
                let k = choose|k: int|
                    0 <= k < self.child_seq(p as int).len() && self.child_seq(p as int)[k] == c;
                lemma_count_at_index(self.child_seq(p as int), k);
            }
            if self.parent_seq(c as int).contains(p) {
                let k = choose|k: int|
                    0 <= k < self.parent_seq(c as int).len() && self.parent_seq(c as int)[k]
                        == p;
                lemma_count_at_index(self.parent_seq(c as int), k);
            }
        }
    }

    /// Dense identities: in a well-formed forest the three parallel
    /// sequences have equal length, every identity below the node count
    /// names exactly one live node — the slot of that index in each of the
    /// three — and every identity stored in an adjacency list is live.
    pub proof fn lemma_dense_identities(self)
        requires
            self.wf(),
        ensures
            self.children@.len() == self.node_count(),
            self.parents@.len() == self.node_count(),
            forall|i: int, k: int|
                0 <= i < self.node_count() && 0 <= k < self.child_seq(i).len()
                    ==> #[trigger] self.child_seq(i)[k] < self.node_count(),
            forall|i: int, k: int|
                0 <= i < self.node_count() && 0 <= k < self.parent_seq(i).len()
                    ==> #[trigger] self.parent_seq(i)[k] < self.node_count(),
    {
    }

    /// Cache presence implies clean: in a well-formed forest it is never
    /// observable that a memoized measurement is populated while the node's
    /// dirty flag is set.
    pub proof fn lemma_cache_presence_implies_clean(self, i: int)
        requires
            self.wf(),
            0 <= i < self.node_count(),
        ensures
            self.nodes@[i].main_size_layout_cache is Some || self.nodes@[i].other_layout_cache
                is Some ==> !self.nodes@[i].is_dirty,
    {
        assert(self.nodes@[i].cache_consistent());
    }
}


} // verus!
