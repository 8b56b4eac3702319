use layout_arena::forest::{Cache, Forest, ForestError, Layout, NodeData};
use layout_arena::geometry::{Point, Size};
use layout_arena::style::FlexboxLayout;

fn style() -> FlexboxLayout {
    FlexboxLayout::default()
}

fn sample_cache() -> Cache {
    Cache {
        node_size: Size::new((10.0f32).to_bits(), (20.0f32).to_bits()),
        parent_size: Size::undefined(),
        perform_layout: true,
        size: Size { width: (10.0f32).to_bits(), height: (20.0f32).to_bits() },
    }
}

fn sample_layout() -> Layout {
    Layout {
        order: 1,
        size: Size { width: (30.0f32).to_bits(), height: (40.0f32).to_bits() },
        location: Point { x: (5.0f32).to_bits(), y: (6.0f32).to_bits() },
    }
}

#[test]
fn new_leaf_starts_unattached_and_dirty() {
    let mut forest: Forest<u32> = Forest::with_capacity(4);
    let a = forest.new_leaf(style());
    assert_eq!(a, 0);
    assert!(forest.children[a].is_empty());
    assert!(forest.parents[a].is_empty());
    assert!(forest.nodes[a].is_dirty);
    assert!(forest.nodes[a].measure.is_none());
    assert!(forest.nodes[a].main_size_layout_cache.is_none());
    assert!(forest.nodes[a].other_layout_cache.is_none());
    assert_eq!(forest.nodes[a].layout, Layout::new());
}

#[test]
fn new_leaf_with_measure_stores_the_override() {
    let mut forest: Forest<u32> = Forest::with_capacity(4);
    let a = forest.new_leaf_with_measure(style(), 7);
    assert_eq!(forest.nodes[a].measure, Some(7));
    assert!(forest.nodes[a].is_dirty);
}

#[test]
fn node_data_mark_dirty_clears_caches() {
    let mut data: NodeData<u32> = NodeData::new(style());
    data.main_size_layout_cache = Some(sample_cache());
    data.other_layout_cache = Some(sample_cache());
    data.is_dirty = false;
    data.mark_dirty();
    assert!(data.main_size_layout_cache.is_none());
    assert!(data.other_layout_cache.is_none());
    assert!(data.is_dirty);
}

// Three unattached leaves; a parent built over the first two registers
// itself with each of them, in order, and leaves the third alone.
#[test]
fn new_with_children_links_both_sides() {
    let mut forest: Forest<u32> = Forest::with_capacity(4);
    let a = forest.new_leaf(style());
    let b = forest.new_leaf(style());
    let c = forest.new_leaf(style());
    let p = forest.new_with_children(style(), vec![a, b]);
    assert_eq!(p, 3);
    assert_eq!(forest.parents[a], vec![p]);
    assert_eq!(forest.parents[b], vec![p]);
    assert_eq!(forest.children[p], vec![a, b]);
    assert!(forest.parents[p].is_empty());
    assert!(forest.children[c].is_empty());
    assert!(forest.parents[c].is_empty());
}

// Appending one more child places it last, registers the parent with the
// child, and marks the parent dirty.
#[test]
fn add_child_appends_and_marks_dirty() {
    let mut forest: Forest<u32> = Forest::with_capacity(4);
    let a = forest.new_leaf(style());
    let b = forest.new_leaf(style());
    let c = forest.new_leaf(style());
    let p = forest.new_with_children(style(), vec![a, b]);
    forest.mark_clean(p, Some(sample_cache()), None);
    forest.add_child(p, c);
    assert_eq!(forest.children[p], vec![a, b, c]);
    assert_eq!(forest.parents[c], vec![p]);
    assert!(forest.nodes[p].is_dirty);
    assert!(forest.nodes[p].main_size_layout_cache.is_none());
}

// Compacting removal of a non-last node: the last node takes the freed
// identity, every reference to the old identity is rewritten, and the old
// identity of the relocated node is reported.
#[test]
fn swap_remove_relocates_last() {
    let mut forest: Forest<u32> = Forest::with_capacity(4);
    let a = forest.new_leaf(style());
    let b = forest.new_leaf(style());
    let p = forest.new_with_children(style(), vec![a, b]);
    let c = forest.new_leaf(style());
    forest.add_child(p, c);
    // a = 0, b = 1, p = 2, c = 3; p's children are [a, b, c].
    assert_eq!(forest.children[p], vec![0, 1, 3]);
    let moved = forest.swap_remove(a);
    // c was last and takes a's identity 0.
    assert_eq!(moved, Some(3));
    assert_eq!(forest.nodes.len(), 3);
    // The removal struck a out of p's children (swap-with-last), then
    // rewrote c's identity 3 to 0.
    assert_eq!(forest.children[p], vec![0, 1]);
    assert_eq!(forest.parents[0], vec![p]);
    assert_eq!(forest.parents[1], vec![p]);
    // No list mentions the retired identity 3 anywhere.
    for list in forest.children.iter().chain(forest.parents.iter()) {
        assert!(!list.contains(&3));
    }
}

#[test]
fn swap_remove_of_last_moves_nothing() {
    let mut forest: Forest<u32> = Forest::with_capacity(4);
    let a = forest.new_leaf(style());
    let b = forest.new_leaf(style());
    let p = forest.new_with_children(style(), vec![a, b]);
    let moved = forest.swap_remove(p);
    assert_eq!(moved, None);
    assert_eq!(forest.nodes.len(), 2);
    assert!(forest.parents[a].is_empty());
    assert!(forest.parents[b].is_empty());
}

#[test]
fn swap_remove_of_only_node_empties_the_forest() {
    let mut forest: Forest<u32> = Forest::with_capacity(1);
    let a = forest.new_leaf(style());
    assert_eq!(forest.swap_remove(a), None);
    assert!(forest.nodes.is_empty());
    assert!(forest.children.is_empty());
    assert!(forest.parents.is_empty());
}

// A diamond: leaf with two parents, both children of one root. Marking the
// leaf dirty reaches both paths and the root, clearing every cache.
#[test]
fn mark_dirty_walks_every_parent_path() {
    let mut forest: Forest<u32> = Forest::with_capacity(4);
    let leaf = forest.new_leaf(style());
    let m = forest.new_with_children(style(), vec![leaf]);
    let n = forest.new_with_children(style(), vec![leaf]);
    let root = forest.new_with_children(style(), vec![m, n]);
    for id in [leaf, m, n, root] {
        forest.mark_clean(id, Some(sample_cache()), Some(sample_cache()));
    }
    forest.mark_dirty(leaf);
    for id in [leaf, m, n, root] {
        assert!(forest.nodes[id].is_dirty);
        assert!(forest.nodes[id].main_size_layout_cache.is_none());
        assert!(forest.nodes[id].other_layout_cache.is_none());
    }
}

#[test]
fn mark_dirty_leaves_unrelated_nodes_alone() {
    let mut forest: Forest<u32> = Forest::with_capacity(4);
    let a = forest.new_leaf(style());
    let other = forest.new_leaf(style());
    forest.mark_clean(other, Some(sample_cache()), None);
    forest.mark_dirty(a);
    assert!(forest.nodes[a].is_dirty);
    assert!(!forest.nodes[other].is_dirty);
    assert!(forest.nodes[other].main_size_layout_cache.is_some());
}

#[test]
fn mark_dirty_twice_changes_nothing_more() {
    let mut forest: Forest<u32> = Forest::with_capacity(4);
    let leaf = forest.new_leaf(style());
    let p = forest.new_with_children(style(), vec![leaf]);
    forest.mark_clean(p, Some(sample_cache()), None);
    forest.mark_dirty(leaf);
    let dirty_flags: Vec<bool> = forest.nodes.iter().map(|n| n.is_dirty).collect();
    let caches: Vec<bool> =
        forest.nodes.iter().map(|n| n.main_size_layout_cache.is_some()).collect();
    forest.mark_dirty(leaf);
    let dirty_again: Vec<bool> = forest.nodes.iter().map(|n| n.is_dirty).collect();
    let caches_again: Vec<bool> =
        forest.nodes.iter().map(|n| n.main_size_layout_cache.is_some()).collect();
    assert_eq!(dirty_flags, dirty_again);
    assert_eq!(caches, caches_again);
}

// An out-of-range index is reported as a violation and the tree is left
// unchanged: no partial mutation.
#[test]
fn remove_child_at_index_out_of_range_is_reported() {
    let mut forest: Forest<u32> = Forest::with_capacity(4);
    let a = forest.new_leaf(style());
    let p = forest.new_with_children(style(), vec![a]);
    let count = forest.children[p].len();
    let r = forest.remove_child_at_index(p, count);
    assert_eq!(r, Err(ForestError::ChildIndexOutOfBounds));
    assert_eq!(forest.children[p], vec![a]);
    assert_eq!(forest.parents[a], vec![p]);
}

#[test]
fn remove_child_of_unknown_parent_is_reported() {
    let mut forest: Forest<u32> = Forest::with_capacity(4);
    let a = forest.new_leaf(style());
    assert_eq!(forest.remove_child(a + 1, a), Err(ForestError::UnknownNode));
    assert_eq!(forest.remove_child_at_index(a + 1, 0), Err(ForestError::UnknownNode));
}

#[test]
fn remove_child_without_edge_is_reported() {
    let mut forest: Forest<u32> = Forest::with_capacity(4);
    let a = forest.new_leaf(style());
    let b = forest.new_leaf(style());
    assert_eq!(forest.remove_child(a, b), Err(ForestError::EdgeNotFound));
    assert_eq!(forest.children[a].len(), 0);
}

#[test]
fn remove_child_unlinks_both_sides() {
    let mut forest: Forest<u32> = Forest::with_capacity(4);
    let a = forest.new_leaf(style());
    let b = forest.new_leaf(style());
    let p = forest.new_with_children(style(), vec![a, b]);
    let r = forest.remove_child(p, a);
    assert_eq!(r, Ok(a));
    assert_eq!(forest.children[p], vec![b]);
    assert!(forest.parents[a].is_empty());
    assert!(forest.nodes[p].is_dirty);
    // The node itself is not deleted.
    assert_eq!(forest.nodes.len(), 3);
}

// The same child added twice makes a duplicate edge; each removal strikes
// exactly one occurrence.
#[test]
fn duplicate_edges_are_removed_one_at_a_time() {
    let mut forest: Forest<u32> = Forest::with_capacity(4);
    let a = forest.new_leaf(style());
    let p = forest.new_leaf(style());
    forest.add_child(p, a);
    forest.add_child(p, a);
    assert_eq!(forest.children[p], vec![a, a]);
    assert_eq!(forest.parents[a], vec![p, p]);
    assert_eq!(forest.remove_child(p, a), Ok(a));
    assert_eq!(forest.children[p], vec![a]);
    assert_eq!(forest.parents[a], vec![p]);
    assert_eq!(forest.remove_child(p, a), Ok(a));
    assert!(forest.children[p].is_empty());
    assert!(forest.parents[a].is_empty());
}

// Populating caches and a layout result, then marking dirty: the caches
// are cleared, the dirty flag set, and the stale layout value left in
// place.
#[test]
fn mark_dirty_keeps_the_stale_layout_result() {
    let mut forest: Forest<u32> = Forest::with_capacity(1);
    let a = forest.new_leaf(style());
    forest.set_layout(a, sample_layout());
    forest.mark_clean(a, Some(sample_cache()), Some(sample_cache()));
    assert!(!forest.nodes[a].is_dirty);
    forest.mark_dirty(a);
    assert!(forest.nodes[a].is_dirty);
    assert!(forest.nodes[a].main_size_layout_cache.is_none());
    assert!(forest.nodes[a].other_layout_cache.is_none());
    assert_eq!(forest.nodes[a].layout, sample_layout());
}

#[test]
fn clear_removes_every_node() {
    let mut forest: Forest<u32> = Forest::with_capacity(4);
    let a = forest.new_leaf(style());
    let _p = forest.new_with_children(style(), vec![a]);
    forest.clear();
    assert!(forest.nodes.is_empty());
    assert!(forest.children.is_empty());
    assert!(forest.parents.is_empty());
}
