//! Behavior of the two read-only transforms: surface extraction with
//! ambient occlusion, and the bit-packed existence map.

use voxtree::bits::Bitset;
use voxtree::mesh::Mesh;
use voxtree::octree::Octree;
use voxtree::octree::SparseOctree;
use voxtree::transform::Region;
use voxtree::transform::Transform;
use voxtree::transform::Transformation;
use voxtree::render::default_surface_format_selector;
use voxtree::render::Format;
use voxtree::render::ShaderCompiler;
use voxtree::render::ShaderCompilerInfo;
use voxtree::render::ShaderLanguage;
use voxtree::voxel::Id;
use voxtree::voxel::Voxel;

fn dirt() -> Voxel {
    Voxel { id: Id::Dirt }
}

fn region(start: [usize; 3], end: [usize; 3]) -> Transformation {
    Transformation { regions: vec![Region { start, end }], lod: 0 }
}

#[test]
fn single_voxel_emits_six_unoccluded_faces() {
    let mut tree: SparseOctree<Voxel> = SparseOctree::with_size(3);
    tree.place([2, 2, 2], dirt());
    let mesh: Mesh = tree.transform(&region([0, 0, 0], [8, 8, 8]));
    let vertices = mesh.vertices();
    assert_eq!(vertices.len(), 6);
    assert!(mesh.indices().is_empty());
    let mut normals: Vec<[i8; 3]> = vertices.iter().map(|v| v.normal).collect();
    normals.sort();
    let mut expected = vec![
        [0, 0, 1],
        [0, 0, -1],
        [1, 0, 0],
        [-1, 0, 0],
        [0, 1, 0],
        [0, -1, 0],
    ];
    expected.sort();
    assert_eq!(normals, expected);
    for v in vertices {
        assert_eq!(v.position, [2, 2, 2]);
        assert_eq!(v.id, Id::Dirt);
        assert_eq!(v.ambient, [3, 3, 3, 3]);
    }
}

#[test]
fn adjacent_voxels_cull_their_shared_boundary() {
    let mut tree: SparseOctree<Voxel> = SparseOctree::with_size(3);
    tree.place([2, 2, 2], dirt());
    tree.place([3, 2, 2], dirt());
    let mesh: Mesh = tree.transform(&region([0, 0, 0], [8, 8, 8]));
    let vertices = mesh.vertices();
    assert_eq!(vertices.len(), 10);
    for v in vertices {
        if v.position == [2, 2, 2] {
            assert_ne!(v.normal, [1, 0, 0]);
        }
        if v.position == [3, 2, 2] {
            assert_ne!(v.normal, [-1, 0, 0]);
        }
    }
}

#[test]
fn neighbor_occupancy_darkens_ambient_corners() {
    let mut tree: SparseOctree<Voxel> = SparseOctree::with_size(3);
    tree.place([2, 2, 2], dirt());
    // A diagonal neighbor in the tangent plane of the +z face.
    tree.place([3, 3, 3], dirt());
    let mesh: Mesh = tree.transform(&region([2, 2, 2], [3, 3, 3]));
    let up: Vec<_> = mesh.vertices().iter().filter(|v| v.normal == [0, 0, 1]).collect();
    assert_eq!(up.len(), 1);
    // Exactly one corner of the +z face loses one third of its light.
    let mut ambient = up[0].ambient;
    ambient.sort();
    assert_eq!(ambient, [2, 3, 3, 3]);
}

#[test]
fn domain_boundary_always_renders() {
    let mut tree: SparseOctree<Voxel> = SparseOctree::with_size(2);
    tree.place([3, 3, 3], dirt());
    let mesh: Mesh = tree.transform(&region([0, 0, 0], [4, 4, 4]));
    assert_eq!(mesh.vertices().len(), 6);
}

#[test]
fn mesh_covers_all_regions_in_order() {
    let mut tree: SparseOctree<Voxel> = SparseOctree::with_size(3);
    tree.place([0, 0, 0], dirt());
    tree.place([5, 5, 5], dirt());
    let t = Transformation {
        regions: vec![
            Region { start: [0, 0, 0], end: [1, 1, 1] },
            Region { start: [5, 5, 5], end: [6, 6, 6] },
        ],
        lod: 0,
    };
    let mesh: Mesh = tree.transform(&t);
    assert_eq!(mesh.vertices().len(), 12);
    assert_eq!(mesh.vertices()[0].position, [0, 0, 0]);
    assert_eq!(mesh.vertices()[6].position, [5, 5, 5]);
}

#[test]
fn empty_region_emits_nothing() {
    let mut tree: SparseOctree<Voxel> = SparseOctree::with_size(3);
    tree.place([1, 1, 1], dirt());
    let mesh: Mesh = tree.transform(&region([4, 4, 4], [6, 6, 6]));
    assert!(mesh.vertices().is_empty());
}

#[test]
fn scenario_place_dirt_query_and_mesh() {
    let mut tree: SparseOctree<Voxel> = SparseOctree::with_size(2);
    tree.place([0, 0, 0], dirt());
    assert_eq!(tree.query([0, 0, 0]), Some(dirt()));
    assert_eq!(tree.query([1, 0, 0]), None);
    let mesh: Mesh = tree.transform(&region([0, 0, 0], [1, 1, 1]));
    assert_eq!(mesh.vertices().len(), 6);
    for v in mesh.vertices() {
        assert_eq!(v.ambient, [3, 3, 3, 3]);
    }
}

#[test]
fn existence_map_sets_root_plus_one_bit_per_ancestor_level() {
    let mut tree: SparseOctree<Voxel> = SparseOctree::with_size(2);
    tree.place([0, 0, 0], dirt());
    let bits: Bitset = tree.transform(&region([0, 0, 0], [4, 4, 4]));
    let mut set = Vec::new();
    for i in 0..bits.len() {
        if bits.get(i) == Ok(true) {
            set.push(i);
        }
    }
    // size + 1 bits: the root, the depth-1 ancestor, and the cell itself.
    assert_eq!(set.len(), tree.size() + 1);
    // Octant path (0,0,0) encodes position 0 on every level: the level
    // bases are the cumulative level sizes 0, 1, 1 + 8.
    assert_eq!(set, vec![0, 1, 9]);
}

#[test]
fn existence_map_positions_encode_octant_paths() {
    let mut tree: SparseOctree<Voxel> = SparseOctree::with_size(2);
    tree.place([3, 3, 3], dirt());
    let bits: Bitset = tree.transform(&region([0, 0, 0], [4, 4, 4]));
    let mut set = Vec::new();
    for i in 0..bits.len() {
        if bits.get(i) == Ok(true) {
            set.push(i);
        }
    }
    // Octant 7 at depth 1 (bit 1 + 7), then path position 7*8+7 at depth 2.
    assert_eq!(set, vec![0, 1 + 7, 9 + 63]);
}

#[test]
fn existence_map_after_collapse_stops_at_the_merged_level() {
    let mut tree: SparseOctree<Voxel> = SparseOctree::with_size(2);
    for x in 0..2 {
        for y in 0..2 {
            for z in 0..2 {
                tree.place([x, y, z], dirt());
            }
        }
    }
    tree.optimize();
    let bits: Bitset = tree.transform(&region([0, 0, 0], [2, 2, 2]));
    let mut count = 0;
    for i in 0..bits.len() {
        if bits.get(i) == Ok(true) {
            count += 1;
        }
    }
    // The merged subtree is a single depth-1 leaf: the root and one
    // ancestor bit remain.
    assert_eq!(count, 2);
    assert_eq!(bits.get(0), Ok(true));
    assert_eq!(bits.get(1), Ok(true));
}

#[test]
fn render_vocabulary_round_trips() {
    assert_eq!(default_surface_format_selector(Format::Rgba8Srgb), 90);
    assert_eq!(default_surface_format_selector(Format::D32Sfloat), 0);
    let c = ShaderCompiler::glslc(ShaderCompilerInfo { language: ShaderLanguage::Hlsl });
    assert_eq!(c, ShaderCompiler::Glslc { language: ShaderLanguage::Hlsl });
    let d = ShaderCompiler::dxc(ShaderCompilerInfo::default());
    assert_eq!(d, ShaderCompiler::Dxc { language: ShaderLanguage::Glsl });
}
