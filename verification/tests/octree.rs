//! Behavior of the sparse octree: placement, lookup, morton keys, and
//! compaction.

use voxtree::octree::Octree;
use voxtree::octree::SparseOctree;
use voxtree::voxel::Id;
use voxtree::voxel::Voxel;

fn dirt() -> Voxel {
    Voxel { id: Id::Dirt }
}

fn grass() -> Voxel {
    Voxel { id: Id::Grass }
}

#[test]
fn place_then_query_roundtrip() {
    let mut tree: SparseOctree<Voxel> = Octree::new();
    tree.place([1, 2, 3], dirt());
    tree.place([1023, 0, 511], grass());
    assert_eq!(tree.query([1, 2, 3]), Some(dirt()));
    assert_eq!(tree.query([1023, 0, 511]), Some(grass()));
}

#[test]
fn place_overwrites_same_cell() {
    let mut tree: SparseOctree<Voxel> = Octree::new();
    tree.place([4, 4, 4], dirt());
    tree.place([4, 4, 4], grass());
    assert_eq!(tree.query([4, 4, 4]), Some(grass()));
}

#[test]
fn never_placed_queries_return_none() {
    let mut tree: SparseOctree<Voxel> = Octree::new();
    assert_eq!(tree.query([0, 0, 0]), None);
    tree.place([1, 2, 3], dirt());
    assert_eq!(tree.query([3, 2, 1]), None);
    assert_eq!(tree.query([1, 2, 2]), None);
}

#[test]
fn repeated_place_allocates_no_new_nodes() {
    let mut tree: SparseOctree<Voxel> = Octree::new();
    tree.place([7, 8, 9], dirt());
    let count = tree.nodes().len();
    tree.place([7, 8, 9], dirt());
    assert_eq!(tree.nodes().len(), count);
    assert_eq!(tree.query([7, 8, 9]), Some(dirt()));
}

#[test]
fn new_tree_has_single_root_node() {
    let tree: SparseOctree<Voxel> = Octree::new();
    assert_eq!(tree.nodes().len(), 1);
    assert_eq!(tree.size(), 10);
}

#[test]
fn position_hierarchy_emits_one_hot_masks() {
    let tree: SparseOctree<Voxel> = SparseOctree::with_size(2);
    // (0,0,0): lower half on every axis at both levels.
    assert_eq!(tree.get_position_hierarchy(0, 0, 0), vec![1, 1]);
    // (3,3,3): upper half on every axis at both levels: octant 7.
    assert_eq!(tree.get_position_hierarchy(3, 3, 3), vec![128, 128]);
    // (2,0,1): x upper then lower; z lower then upper.
    assert_eq!(tree.get_position_hierarchy(2, 0, 1), vec![16, 2]);
}

#[test]
fn morton_codes_start_with_sentinel() {
    assert_eq!(SparseOctree::<Voxel>::get_morton_code(&[]), 7);
    assert_eq!(SparseOctree::<Voxel>::get_morton_code(&[1]), 56);
    assert_eq!(SparseOctree::<Voxel>::get_morton_code(&[128]), 63);
    assert_eq!(SparseOctree::<Voxel>::get_morton_code(&[2, 4]), 7 * 64 + 1 * 8 + 2);
}

#[test]
fn morton_codes_monotonic_among_siblings() {
    let prefix = [4u8, 8u8];
    let mut previous = 0u64;
    for octant in 0..8u8 {
        let mut path = prefix.to_vec();
        path.push(1u8 << octant);
        let code = SparseOctree::<Voxel>::get_morton_code(&path);
        assert!(code > previous);
        previous = code;
    }
}

#[test]
fn get_node_rejects_non_one_hot_masks() {
    let mut tree: SparseOctree<Voxel> = SparseOctree::with_size(2);
    tree.place([0, 0, 0], dirt());
    assert!(tree.get_node(&[3]).is_err());
    assert!(tree.get_node(&[1]).is_ok());
}

#[test]
fn has_data_sees_only_populated_cells() {
    let mut tree: SparseOctree<Voxel> = SparseOctree::with_size(2);
    tree.place([0, 0, 0], dirt());
    let full = tree.get_position_hierarchy(0, 0, 0);
    assert!(tree.has_data(&full));
    // The ancestor level carries no payload of its own.
    assert!(!tree.has_data(&full[..1]));
    let empty = tree.get_position_hierarchy(1, 1, 1);
    assert!(!tree.has_data(&empty));
}

#[test]
fn optimize_preserves_queries() {
    let mut tree: SparseOctree<Voxel> = SparseOctree::with_size(3);
    tree.place([0, 0, 0], dirt());
    tree.place([1, 0, 0], grass());
    tree.place([5, 6, 7], dirt());
    tree.optimize();
    assert_eq!(tree.query([0, 0, 0]), Some(dirt()));
    assert_eq!(tree.query([1, 0, 0]), Some(grass()));
    assert_eq!(tree.query([5, 6, 7]), Some(dirt()));
    assert_eq!(tree.query([2, 2, 2]), None);
}

#[test]
fn optimize_never_increases_node_count() {
    let mut tree: SparseOctree<Voxel> = SparseOctree::with_size(3);
    for x in 0..4 {
        for y in 0..4 {
            tree.place([x, y, 0], dirt());
        }
    }
    let before = tree.nodes().len();
    tree.optimize();
    assert!(tree.nodes().len() <= before);
}

#[test]
fn fully_uniform_tree_compacts_to_one_node() {
    let mut tree: SparseOctree<Voxel> = SparseOctree::with_size(2);
    for x in 0..4 {
        for y in 0..4 {
            for z in 0..4 {
                tree.place([x, y, z], dirt());
            }
        }
    }
    assert!(tree.nodes().len() > 1);
    tree.optimize();
    assert_eq!(tree.nodes().len(), 1);
    assert_eq!(tree.query([0, 0, 0]), Some(dirt()));
    assert_eq!(tree.query([3, 3, 3]), Some(dirt()));
}

#[test]
fn optimize_collapses_uniform_subtree_and_keeps_mixed_ones() {
    let mut tree: SparseOctree<Voxel> = SparseOctree::with_size(2);
    // Fill one depth-1 octant uniformly, and one cell elsewhere.
    for x in 0..2 {
        for y in 0..2 {
            for z in 0..2 {
                tree.place([x, y, z], dirt());
            }
        }
    }
    tree.place([3, 3, 3], grass());
    tree.optimize();
    assert_eq!(tree.query([0, 0, 0]), Some(dirt()));
    assert_eq!(tree.query([1, 1, 1]), Some(dirt()));
    assert_eq!(tree.query([3, 3, 3]), Some(grass()));
    assert_eq!(tree.query([2, 3, 3]), None);
}

#[test]
fn optimize_invalidates_and_compacts_indices() {
    let mut tree: SparseOctree<Voxel> = SparseOctree::with_size(2);
    tree.place([0, 0, 0], dirt());
    tree.place([3, 3, 3], grass());
    tree.optimize();
    // Survivors are in ascending morton order.
    let nodes = tree.nodes();
    for w in 1..nodes.len() {
        assert!(nodes[w - 1].morton() <= nodes[w].morton());
    }
    // The root sits at index 0 with its children linked in range.
    assert!(nodes[0].child() as usize + (nodes[0].valid().count_ones() as usize) <= nodes.len());
}

#[test]
fn node_accessors_expose_the_raw_entry() {
    let mut tree: SparseOctree<Voxel> = SparseOctree::with_size(1);
    tree.place([0, 0, 0], dirt());
    let node = tree.get_node_by_index(0).unwrap();
    assert_eq!(node.valid(), 1);
    assert_eq!(node.morton(), 0);
    assert!(node.data().is_none());
    let (leaf, index) = tree.get_node(&[1u8]).unwrap();
    assert!(index > 0);
    assert_eq!(leaf.data(), Some(dirt()));
    assert_eq!(leaf.child(), u32::MAX);
}

#[test]
fn add_node_materializes_and_reports_the_terminal_index() {
    let mut tree: SparseOctree<Voxel> = SparseOctree::with_size(2);
    let index = tree.add_node(&[1, 1]).unwrap();
    assert!(index < tree.nodes().len());
    assert!(tree.add_node(&[5, 1]).is_err());
    // The materialized path still carries no payload.
    assert_eq!(tree.query([0, 0, 0]), None);
}

#[test]
fn voxel_predicates() {
    assert!(Voxel { id: Id::Air }.is_transparent());
    assert!(!Voxel { id: Id::Dirt }.is_transparent());
    assert_eq!(Voxel::default().id, Id::Error);
    assert_eq!(Id::default(), Id::Error);
}

#[test]
fn mutable_accessors_reach_the_same_nodes() {
    let mut tree: SparseOctree<Voxel> = SparseOctree::with_size(2);
    tree.place([0, 0, 0], dirt());
    let full = tree.get_position_hierarchy(0, 0, 0);
    let (node, index) = tree.get_node_mut(&full).unwrap();
    assert_eq!(node.data(), Some(dirt()));
    let again = tree.get_node_by_index_mut(index);
    assert_eq!(again.data(), Some(dirt()));
    assert!(tree.get_node_by_index(tree.nodes().len()).is_none());
}

#[test]
fn get_node_is_strict_and_or_parent_is_lenient() {
    let mut tree: SparseOctree<Voxel> = SparseOctree::with_size(2);
    tree.place([0, 0, 0], dirt());
    // Octant 2 of the root was never materialized.
    assert!(matches!(tree.get_node(&[2u8]), Err(voxtree::octree::Error::NodeNotFound)));
    let (parent, index) = tree.get_node_or_parent(&[2u8]).unwrap();
    assert_eq!(index, 0);
    assert_eq!(parent.morton(), 0);
    assert!(tree.get_node(&[1u8, 1u8]).is_ok());
}
