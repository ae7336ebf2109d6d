//! Sparse voxel octree: a compacted arena of nodes over a cubic domain of
//! edge `2^size`, with coordinate-to-path hashing, insertion, lookup and
//! batch compaction, plus the two read-only transforms that materialize the
//! tree into a mesh and into a bit-packed existence map.
//!
//! Storage model: `nodes` is a growable array logically rooted at index 0.
//! A node's `child` is the index of the first entry of its sibling-children
//! block (`NO_CHILD` when it has none); `valid` is an 8-bit occupancy mask,
//! one bit per octant; the block holds exactly one entry per set bit, in
//! ascending octant order. `morton` is a stable key assigned at creation
//! (`TOMBSTONE` marks an entry pending removal); `data` is present only on
//! leaves and on subtrees collapsed by `optimize`.

use vstd::prelude::*;

verus! {

use vstd::std_specs::cmp::PartialEqSpec;
use crate::bits::Bitset;
use crate::mesh::Index;
use crate::mesh::Mesh;
use crate::mesh::Vertex;
use crate::transform::Region;
use crate::transform::Transform;
use crate::transform::Transformation;
use crate::voxel::Id;
use crate::voxel::Voxel;

/// Sentinel child index: the node has no children block.
pub const NO_CHILD: u32 = u32::MAX;

/// Sentinel morton key: the node is tombstoned, pending removal.
pub const TOMBSTONE: u64 = u64::MAX;

/// Maximum tree depth accepted by the constructors; keeps every path code in
/// 33 bits and every existence-map index within `usize` on all platforms.
pub const MAX_SIZE: usize = 10;

/// Default tree depth: a cubic domain of edge `2^10`.
pub const DEFAULT_SIZE: usize = 10;

/// Cap on the node arena, so that every block index fits in `u32` with room
/// for the nodes one `place` call can add.
pub const NODE_CAP: usize = 0xFFFF_0000;

/// Lookup failures. `NodeNotFound`: the path lands on a never-materialized
/// octant. `InvalidMask`: a path byte is not a single-bit mask (defensive;
/// unreachable for paths built by `get_position_hierarchy`). `NoData`: the
/// node exists but carries no payload, for stricter callers.
#[derive(Clone, Copy, Debug, PartialEq, Eq, Structural)]
pub enum Error {
    NodeNotFound,
    NoData,
    InvalidMask,
}

/// One arena entry. See the module documentation for the field discipline.
#[derive(Clone, Copy, Debug)]
pub struct Node<T> {
    child: u32,
    valid: u32,
    morton: u64,
    data: Option<T>,
}

// ---------------------------------------------------------------------------
// Bit-level specification helpers.
// ---------------------------------------------------------------------------

/// Bit `k` of `v`, as 0 or 1.
pub open spec fn bitv(v: u32, k: u32) -> u32 {
    (v >> k) & 1
}

/// True when bit `k` of `v` is set.
pub open spec fn bit_set(v: u32, k: u32) -> bool {
    bitv(v, k) == 1
}

/// Number of set bits of `v` among bit positions `0 .. k`.
pub open spec fn pc_below(v: u32, k: int) -> int
    decreases k,
{
    if k <= 0 {
        0
    } else {
        pc_below(v, k - 1) + bitv(v, (k - 1) as u32)
    }
}

/// Number of set bits among the eight octant bits.
pub open spec fn popcount8(v: u32) -> int {
    pc_below(v, 8)
}

/// Octant index of a one-hot mask byte, or 8 when the byte is not one-hot.
pub open spec fn mask_octant(m: u8) -> int {
    if m == 1 {
        0
    } else if m == 2 {
        1
    } else if m == 4 {
        2
    } else if m == 8 {
        3
    } else if m == 16 {
        4
    } else if m == 32 {
        5
    } else if m == 64 {
        6
    } else if m == 128 {
        7
    } else {
        8
    }
}

/// True when `m` has exactly one bit set.
pub open spec fn one_hot(m: u8) -> bool {
    mask_octant(m) < 8
}

/// `2^k`.
pub open spec fn p2(k: nat) -> nat
    decreases k,
{
    if k == 0 {
        1
    } else {
        2 * p2((k - 1) as nat)
    }
}

/// Morton key of a path: the sentinel octal digit 7 followed by one octal
/// digit per level, most significant level first.
pub open spec fn morton_code(path: Seq<u8>) -> int
    decreases path.len(),
{
    if path.len() == 0 {
        7
    } else {
        morton_code(path.drop_last()) * 8 + mask_octant(path.last())
    }
}

/// Number of octal digits of `m` after the leading one: the depth a morton
/// key encodes.
pub open spec fn rank8(m: u64) -> int
    decreases m,
{
    if m < 8 {
        0
    } else {
        1 + rank8(m / 8)
    }
}

/// Octant path of the unit cell `(x, y, z)` in a cube of edge `2^size`:
/// one one-hot mask byte per level, most significant level first. The octant
/// combines the three sign bits of the remaining coordinates (x highest).
pub open spec fn path_spec(size: int, x: int, y: int, z: int) -> Seq<u8>
    decreases size,
{
    if size <= 0 {
        Seq::empty()
    } else {
        let c = p2((size - 1) as nat) as int;
        let px: int = if x >= c {
            1
        } else {
            0
        };
        let py: int = if y >= c {
            1
        } else {
            0
        };
        let pz: int = if z >= c {
            1
        } else {
            0
        };
        let oct = 4 * px + 2 * py + pz;
        seq![(1u8 << (oct as u8))] + path_spec(size - 1, x - px * c, y - py * c, z - pz * c)
    }
}

// ---------------------------------------------------------------------------
// Structure specification: blocks, well-formedness, resolution.
// ---------------------------------------------------------------------------

/// True when the node has a children block.
spec fn has_block<T>(n: Node<T>) -> bool {
    n.child != NO_CHILD
}

/// First index of the node's children block.
spec fn blk_start<T>(n: Node<T>) -> int {
    n.child as int
}

/// Length of the node's children block: one entry per set occupancy bit.
spec fn blk_len<T>(n: Node<T>) -> int {
    popcount8(n.valid)
}

/// True when arena index `j` lies inside the children block of `n`.
spec fn in_block<T>(n: Node<T>, j: int) -> bool {
    has_block(n) && blk_start(n) <= j < blk_start(n) + blk_len(n)
}

/// Well-formedness of the node arena:
/// the root exists and the arena is below the index cap; occupancy masks use
/// only their low eight bits; a node has a block exactly when some occupancy
/// bit is set; blocks lie inside the arena and never contain the root;
/// blocks of distinct nodes are disjoint; each block member's morton key
/// encodes a depth one below its parent's, and the root's encodes depth 0.
spec fn wf_nodes<T>(nodes: Seq<Node<T>>) -> bool {
    &&& 1 <= nodes.len() <= NODE_CAP
    &&& forall|i: int|
        0 <= i < nodes.len() ==> (#[trigger] nodes[i]).valid < 256
    &&& forall|i: int|
        0 <= i < nodes.len() ==> (has_block(#[trigger] nodes[i]) <==> nodes[i].valid != 0)
    &&& forall|i: int|
        0 <= i < nodes.len() && has_block(#[trigger] nodes[i]) ==> 1 <= blk_start(nodes[i])
            && blk_start(nodes[i]) + blk_len(nodes[i]) <= nodes.len()
    &&& forall|i: int, j: int|
        0 <= i < nodes.len() && 0 <= j < nodes.len() && i != j && has_block(#[trigger] nodes[i])
            && has_block(#[trigger] nodes[j]) ==> blk_start(nodes[i]) + blk_len(nodes[i])
            <= blk_start(nodes[j]) || blk_start(nodes[j]) + blk_len(nodes[j]) <= blk_start(
            nodes[i],
        )
    &&& forall|i: int, j: int|
        0 <= i < nodes.len() && 0 <= j < nodes.len() && #[trigger] in_block(nodes[i], j)
            ==> rank8(nodes[j].morton) == rank8(nodes[i].morton) + 1
    &&& forall|i: int, k: u32|
        0 <= i < nodes.len() && k < 8 && #[trigger] bit_set(nodes[i].valid, k) ==> nodes[blk_start(
            nodes[i],
        ) + pc_below(nodes[i].valid, k as int)].morton as int == meff(nodes, i) * 8 + k
    &&& nodes[0].morton == 0
}

/// The morton accumulator a node hands its children: the root contributes
/// the bare sentinel digit, every other node its own key (which already
/// starts with the sentinel).
spec fn meff<T>(nodes: Seq<Node<T>>, i: int) -> int {
    if i == 0 {
        7
    } else {
        nodes[i].morton as int
    }
}

/// Index of the child reached by descending octant mask `m` from the node at
/// `i`, or `None` when that octant is absent or `i` has no block.
spec fn step<T>(nodes: Seq<Node<T>>, i: int, m: u8) -> Option<int> {
    if 0 <= i < nodes.len() {
        let n = nodes[i];
        let k = mask_octant(m);
        if k < 8 && has_block(n) && bit_set(n.valid, k as u32) {
            Some(blk_start(n) + pc_below(n.valid, k))
        } else {
            None
        }
    } else {
        None
    }
}

/// Index of the deepest node reached from `i` along `path`: descend while
/// each level's octant is materialized, stop at the first that is not.
spec fn resolve<T>(nodes: Seq<Node<T>>, i: int, path: Seq<u8>) -> int
    decreases path.len(),
{
    if path.len() == 0 {
        i
    } else {
        match step(nodes, i, path[0]) {
            Some(j) => resolve(nodes, j, path.drop_first()),
            None => i,
        }
    }
}

/// Number of levels of `path` actually descended from `i`.
spec fn rdepth<T>(nodes: Seq<Node<T>>, i: int, path: Seq<u8>) -> int
    decreases path.len(),
{
    if path.len() == 0 {
        0
    } else {
        match step(nodes, i, path[0]) {
            Some(j) => 1 + rdepth(nodes, j, path.drop_first()),
            None => 0,
        }
    }
}

/// Payload of the deepest node reached from the root along `path`.
spec fn resolved_data<T>(nodes: Seq<Node<T>>, path: Seq<u8>) -> Option<T> {
    let r = resolve(nodes, 0, path);
    if 0 <= r < nodes.len() {
        nodes[r].data
    } else {
        None
    }
}

/// Only nodes strictly above the unit-cell level carry children blocks.
spec fn depth_bounded<T>(nodes: Seq<Node<T>>, size: int) -> bool {
    forall|i: int|
        0 <= i < nodes.len() && has_block(#[trigger] nodes[i]) ==> rank8(nodes[i].morton) < size
}

/// True when a descent from `i` along `path` visits a byte that is not a
/// one-hot mask before it stops: the masks past the stopping level are never
/// inspected.
spec fn gn_err<T>(nodes: Seq<Node<T>>, i: int, path: Seq<u8>) -> bool
    decreases path.len(),
{
    if path.len() == 0 {
        false
    } else if !one_hot(path[0]) {
        true
    } else {
        match step(nodes, i, path[0]) {
            Some(j) => gn_err(nodes, j, path.drop_first()),
            None => false,
        }
    }
}

// ---------------------------------------------------------------------------
// Basic lemmas about the bit helpers and resolution.
// ---------------------------------------------------------------------------

proof fn lemma_bitv_le_one(v: u32, k: u32)
    by (bit_vector)
    ensures
        bitv(v, k) <= 1,
{
}

proof fn lemma_pc_below_bounds(v: u32, k: int)
    requires
        0 <= k,
    ensures
        0 <= pc_below(v, k) <= k,
    decreases k,
{
    if k > 0 {
        lemma_pc_below_bounds(v, k - 1);
        lemma_bitv_le_one(v, (k - 1) as u32);
    }
}

proof fn lemma_pc_below_mono(v: u32, k1: int, k2: int)
    requires
        k1 <= k2,
    ensures
        pc_below(v, k1) <= pc_below(v, k2),
    decreases k2 - k1,
{
    if k1 < k2 {
        lemma_pc_below_mono(v, k1, k2 - 1);
        if k2 >= 1 {
            lemma_bitv_le_one(v, (k2 - 1) as u32);
        }
    }
}

/// A set bit's offset lies strictly inside the block.
proof fn lemma_offset_in_block(v: u32, k: int)
    requires
        0 <= k < 8,
        bit_set(v, k as u32),
    ensures
        0 <= pc_below(v, k) < popcount8(v),
    decreases 8 - k,
{
    lemma_pc_below_bounds(v, k);
    assert(pc_below(v, k + 1) == pc_below(v, k) + 1);
    lemma_pc_below_mono(v, k + 1, 8);
}

/// Offsets of distinct set bits are distinct (they grow with the bit index).
proof fn lemma_offset_injective(v: u32, k1: int, k2: int)
    requires
        0 <= k1 < k2 < 8,
        bit_set(v, k1 as u32),
        bit_set(v, k2 as u32),
    ensures
        pc_below(v, k1) < pc_below(v, k2),
{
    assert(pc_below(v, k1 + 1) == pc_below(v, k1) + 1);
    lemma_pc_below_mono(v, k1 + 1, k2);
}

/// Every offset inside a block is some set bit's offset.
proof fn lemma_offset_inverse(v: u32, off: int)
    requires
        v < 256,
        0 <= off < popcount8(v),
    ensures
        exists|k: u32|
            k < 8 && #[trigger] bit_set(v, k) && pc_below(v, k as int) == off,
{
    lemma_offset_inverse_below(v, off, 8);
}

proof fn lemma_offset_inverse_below(v: u32, off: int, j: int)
    requires
        v < 256,
        0 <= j <= 8,
        0 <= off < pc_below(v, j),
    ensures
        exists|k: u32|
            k < 8 && #[trigger] bit_set(v, k) && pc_below(v, k as int) == off,
    decreases j,
{
    if j > 0 {
        lemma_bitv_le_one(v, (j - 1) as u32);
        if off < pc_below(v, j - 1) {
            lemma_offset_inverse_below(v, off, j - 1);
        } else {
            assert(bit_set(v, (j - 1) as u32) && pc_below(v, j - 1) == off);
        }
    }
}

/// The set bit that occupies a given offset of a block.
spec fn oct_at(v: u32, off: int) -> u32 {
    choose|k: u32| k < 8 && #[trigger] bit_set(v, k) && pc_below(v, k as int) == off
}

proof fn lemma_oct_at_props(v: u32, off: int)
    requires
        v < 256,
        0 <= off < popcount8(v),
    ensures
        oct_at(v, off) < 8,
        bit_set(v, oct_at(v, off)),
        pc_below(v, oct_at(v, off) as int) == off,
{
    lemma_offset_inverse(v, off);
}

proof fn lemma_oct_at_increasing(v: u32, o1: int, o2: int)
    requires
        v < 256,
        0 <= o1 < o2 < popcount8(v),
    ensures
        oct_at(v, o1) < oct_at(v, o2),
{
    lemma_oct_at_props(v, o1);
    lemma_oct_at_props(v, o2);
    if oct_at(v, o2) <= oct_at(v, o1) {
        lemma_pc_below_mono(v, oct_at(v, o2) as int, oct_at(v, o1) as int);
    }
}

proof fn lemma_rank8_ge(m: u64, k: int)
    requires
        0 <= k,
        p8(k) <= m,
    ensures
        rank8(m) >= k,
    decreases k,
{
    lemma_rank8_nonneg(m);
    if k > 0 {
        lemma_p8_pos(k - 1);
        assert(p8(k) == 8 * p8(k - 1));
        assert(m >= 8);
        assert(m / 8 >= p8(k - 1)) by (nonlinear_arith)
            requires
                m >= 8 * p8(k - 1),
                p8(k - 1) >= 1,
        ;
        lemma_rank8_ge(m / 8, k - 1);
    }
}

proof fn lemma_zero_valid_bits(k: u32)
    by (bit_vector)
    ensures
        bitv(0u32, k) == 0,
{
}

proof fn lemma_pc_below_zero(k: int)
    ensures
        pc_below(0u32, k) == 0,
    decreases k,
{
    if k > 0 {
        lemma_pc_below_zero(k - 1);
        lemma_zero_valid_bits((k - 1) as u32);
    }
}

/// The resolved index stays inside the arena, and so does every node along
/// the way.
proof fn lemma_resolve_in_bounds<T>(nodes: Seq<Node<T>>, i: int, path: Seq<u8>)
    requires
        wf_nodes(nodes),
        0 <= i < nodes.len(),
    ensures
        0 <= resolve(nodes, i, path) < nodes.len(),
        0 <= rdepth(nodes, i, path) <= path.len(),
    decreases path.len(),
{
    if path.len() > 0 {
        match step(nodes, i, path[0]) {
            Some(j) => {
                let n = nodes[i];
                let k = mask_octant(path[0]);
                lemma_offset_in_block(n.valid, k);
                lemma_resolve_in_bounds(nodes, j, path.drop_first());
            },
            None => {},
        }
    }
}

/// A descent step lands inside the parent's block.
proof fn lemma_step_in_block<T>(nodes: Seq<Node<T>>, i: int, m: u8, j: int)
    requires
        wf_nodes(nodes),
        0 <= i < nodes.len(),
        step(nodes, i, m) == Some(j),
    ensures
        in_block(nodes[i], j),
        0 <= j < nodes.len(),
        rank8(nodes[j].morton) == rank8(nodes[i].morton) + 1,
{
    let k = mask_octant(m);
    lemma_offset_in_block(nodes[i].valid, k);
    assert(in_block(nodes[i], j));
}

/// The node reached after fully descending `d` levels from a node of rank
/// `r` has rank `r + d`.
proof fn lemma_chain_rank<T>(nodes: Seq<Node<T>>, i: int, path: Seq<u8>)
    requires
        wf_nodes(nodes),
        0 <= i < nodes.len(),
    ensures
        rank8(nodes[resolve(nodes, i, path)].morton) == rank8(nodes[i].morton) + rdepth(
            nodes,
            i,
            path,
        ),
    decreases path.len(),
{
    lemma_resolve_in_bounds(nodes, i, path);
    if path.len() > 0 {
        match step(nodes, i, path[0]) {
            Some(j) => {
                lemma_step_in_block(nodes, i, path[0], j);
                lemma_chain_rank(nodes, j, path.drop_first());
            },
            None => {},
        }
    }
}

proof fn lemma_or_bits(v: u32, k: u32, j: u32)
    by (bit_vector)
    requires
        k < 8,
        j < 32,
    ensures
        bitv(v | (1u32 << k), j) == if j == k {
            1u32
        } else {
            bitv(v, j)
        },
        v < 256 ==> (v | (1u32 << k)) < 256,
        (v | (1u32 << k)) != 0,
{
}

/// Setting a clear bit `k` leaves offsets below `k` unchanged and raises by
/// one every count that looks past `k`.
proof fn lemma_pc_or(v: u32, k: u32, j: int)
    requires
        k < 8,
        !bit_set(v, k),
        0 <= j <= 8,
    ensures
        pc_below(v | (1u32 << k), j) == pc_below(v, j) + if k < j {
            1int
        } else {
            0int
        },
    decreases j,
{
    if j > 0 {
        lemma_pc_or(v, k, j - 1);
        lemma_or_bits(v, k, (j - 1) as u32);
        if j - 1 == k {
            lemma_bitv_le_one(v, k);
        }
    }
}

/// Resolution out of a node with no children block goes nowhere.
proof fn lemma_resolve_leaf<T>(nodes: Seq<Node<T>>, i: int, q: Seq<u8>)
    requires
        0 <= i < nodes.len() ==> !has_block(nodes[i]),
    ensures
        resolve(nodes, i, q) == i,
        rdepth(nodes, i, q) == 0,
{
    if q.len() > 0 {
        assert(step(nodes, i, q[0]) is None);
    }
}

/// Fully-descended prefixes compose with what remains.
proof fn lemma_resolve_append<T>(nodes: Seq<Node<T>>, i: int, a: Seq<u8>, b: Seq<u8>)
    requires
        rdepth(nodes, i, a) == a.len(),
    ensures
        resolve(nodes, i, a + b) == resolve(nodes, resolve(nodes, i, a), b),
        rdepth(nodes, i, a + b) == a.len() + rdepth(nodes, resolve(nodes, i, a), b),
    decreases a.len(),
{
    if a.len() == 0 {
        assert(a + b =~= b);
    } else {
        let j = step(nodes, i, a[0]).unwrap();
        assert((a + b)[0] == a[0]);
        assert((a + b).drop_first() =~= a.drop_first() + b);
        lemma_resolve_append(nodes, j, a.drop_first(), b);
    }
}

/// Full descents of equal length from distinct nodes end at distinct nodes:
/// sibling blocks of distinct parents never overlap.
proof fn lemma_chains_distinct<T>(nodes: Seq<Node<T>>, i1: int, i2: int, q1: Seq<u8>, q2: Seq<u8>)
    requires
        wf_nodes(nodes),
        0 <= i1 < nodes.len(),
        0 <= i2 < nodes.len(),
        i1 != i2,
        q1.len() == q2.len(),
        rdepth(nodes, i1, q1) == q1.len(),
        rdepth(nodes, i2, q2) == q2.len(),
    ensures
        resolve(nodes, i1, q1) != resolve(nodes, i2, q2),
    decreases q1.len(),
{
    if q1.len() > 0 {
        let t1 = step(nodes, i1, q1[0]).unwrap();
        let t2 = step(nodes, i2, q2[0]).unwrap();
        lemma_step_in_block(nodes, i1, q1[0], t1);
        lemma_step_in_block(nodes, i2, q2[0], t2);
        lemma_chains_distinct(nodes, t1, t2, q1.drop_first(), q2.drop_first());
    }
}

/// Two full descents of equal length from one node that end at the same
/// node took the same path.
proof fn lemma_full_resolve_inj<T>(nodes: Seq<Node<T>>, i: int, p1: Seq<u8>, p2: Seq<u8>)
    requires
        wf_nodes(nodes),
        0 <= i < nodes.len(),
        p1.len() == p2.len(),
        rdepth(nodes, i, p1) == p1.len(),
        rdepth(nodes, i, p2) == p2.len(),
        resolve(nodes, i, p1) == resolve(nodes, i, p2),
    ensures
        p1 == p2,
    decreases p1.len(),
{
    if p1.len() > 0 {
        let t1 = step(nodes, i, p1[0]).unwrap();
        let t2 = step(nodes, i, p2[0]).unwrap();
        lemma_step_in_block(nodes, i, p1[0], t1);
        lemma_step_in_block(nodes, i, p2[0], t2);
        let k1 = mask_octant(p1[0]);
        let k2 = mask_octant(p2[0]);
        if k1 != k2 {
            if k1 < k2 {
                lemma_offset_injective(nodes[i].valid, k1, k2);
            } else {
                lemma_offset_injective(nodes[i].valid, k2, k1);
            }
            lemma_chains_distinct(nodes, t1, t2, p1.drop_first(), p2.drop_first());
            assert(false);
        }
        lemma_mask_octant_inj(p1[0], p2[0]);
        lemma_full_resolve_inj(nodes, t1, p1.drop_first(), p2.drop_first());
        assert forall|j: int| 0 <= j < p1.len() implies p1[j] == p2[j] by {
            if j > 0 {
                assert(p1[j] == p1.drop_first()[j - 1]);
                assert(p2[j] == p2.drop_first()[j - 1]);
            }
        }
        assert(p1 =~= p2);
    } else {
        assert(p1 =~= p2);
    }
}

/// A one-hot mask is determined by its octant index.
proof fn lemma_mask_octant_inj(m1: u8, m2: u8)
    requires
        mask_octant(m1) == mask_octant(m2),
        mask_octant(m1) < 8,
    ensures
        m1 == m2,
{
}

/// A lookup that ends at the node a full descent reaches took that same
/// descent: morton ranks rule out stopping early at it, and disjointness
/// rules out reaching it another way.
proof fn lemma_resolve_unique<T>(nodes: Seq<Node<T>>, p1: Seq<u8>, p2: Seq<u8>)
    requires
        wf_nodes(nodes),
        p1.len() == p2.len(),
        rdepth(nodes, 0, p1) == p1.len(),
        resolve(nodes, 0, p2) == resolve(nodes, 0, p1),
    ensures
        p1 == p2,
{
    lemma_chain_rank(nodes, 0, p1);
    lemma_chain_rank(nodes, 0, p2);
    lemma_resolve_in_bounds(nodes, 0, p2);
    lemma_full_resolve_inj(nodes, 0, p1, p2);
}

proof fn lemma_shift_masks()
    by (bit_vector)
    ensures
        (1u8 << 0u8) == 1u8,
        (1u8 << 1u8) == 2u8,
        (1u8 << 2u8) == 4u8,
        (1u8 << 3u8) == 8u8,
        (1u8 << 4u8) == 16u8,
        (1u8 << 5u8) == 32u8,
        (1u8 << 6u8) == 64u8,
        (1u8 << 7u8) == 128u8,
{
}

/// Every byte of a coordinate path is a one-hot mask.
proof fn lemma_path_one_hot(size: int, x: int, y: int, z: int)
    ensures
        forall|j: int|
            0 <= j < path_spec(size, x, y, z).len() ==> one_hot(
                #[trigger] path_spec(size, x, y, z)[j],
            ),
    decreases size,
{
    if size > 0 {
        lemma_shift_masks();
        let c = p2((size - 1) as nat) as int;
        let px: int = if x >= c {
            1
        } else {
            0
        };
        let py: int = if y >= c {
            1
        } else {
            0
        };
        let pz: int = if z >= c {
            1
        } else {
            0
        };
        lemma_path_one_hot(size - 1, x - px * c, y - py * c, z - pz * c);
        assert forall|j: int| 0 <= j < path_spec(size, x, y, z).len() implies one_hot(
            #[trigger] path_spec(size, x, y, z)[j],
        ) by {
            if j > 0 {
                assert(path_spec(size, x, y, z)[j] == path_spec(
                    size - 1,
                    x - px * c,
                    y - py * c,
                    z - pz * c,
                )[j - 1]);
            }
        }
    }
}

/// A descent never rejects a path of one-hot masks.
proof fn lemma_one_hot_no_err<T>(nodes: Seq<Node<T>>, i: int, p: Seq<u8>)
    requires
        forall|j: int| 0 <= j < p.len() ==> one_hot(#[trigger] p[j]),
    ensures
        !gn_err(nodes, i, p),
    decreases p.len(),
{
    if p.len() > 0 {
        match step(nodes, i, p[0]) {
            Some(j) => {
                assert(forall|l: int|
                    0 <= l < p.drop_first().len() ==> #[trigger] p.drop_first()[l] == p[l + 1]);
                lemma_one_hot_no_err(nodes, j, p.drop_first());
            },
            None => {},
        }
    }
}

/// The morton key of a path of one-hot masks encodes exactly its depth.
proof fn lemma_morton_rank(path: Seq<u8>)
    requires
        path.len() <= 20,
        forall|j: int| 0 <= j < path.len() ==> one_hot(#[trigger] path[j]),
    ensures
        rank8(morton_code(path) as u64) == path.len(),
    decreases path.len(),
{
    lemma_morton_code_bound(path);
    lemma_morton_cap_mono(path.len() as int, 20);
    lemma_morton_cap_val();
    if path.len() > 0 {
        assert(forall|j: int|
            0 <= j < path.drop_last().len() ==> one_hot(#[trigger] path.drop_last()[j]));
        lemma_morton_rank(path.drop_last());
        lemma_morton_code_bound(path.drop_last());
        let m = morton_code(path.drop_last());
        let d = mask_octant(path.last());
        assert(one_hot(path.last()));
        assert(0 <= d < 8);
        assert(morton_code(path) == m * 8 + d);
        assert((m * 8 + d) / 8 == m);
        assert(rank8((m * 8 + d) as u64) == 1 + rank8(m as u64));
    }
}

/// Law: among sibling paths (a shared prefix followed by one more octant),
/// morton keys are strictly monotonic in the final octant's index.
pub proof fn lemma_morton_sibling_order(prefix: Seq<u8>, m1: u8, m2: u8)
    requires
        one_hot(m1),
        one_hot(m2),
        mask_octant(m1) < mask_octant(m2),
    ensures
        morton_code(prefix.push(m1)) < morton_code(prefix.push(m2)),
{
    assert(prefix.push(m1).drop_last() =~= prefix);
    assert(prefix.push(m2).drop_last() =~= prefix);
    assert(prefix.push(m1).last() == m1);
    assert(prefix.push(m2).last() == m2);
}

/// Distinct in-domain cells have distinct paths.
proof fn lemma_path_inj(size: int, x1: int, y1: int, z1: int, x2: int, y2: int, z2: int)
    requires
        0 <= x1 < p2(size as nat) as int,
        0 <= y1 < p2(size as nat) as int,
        0 <= z1 < p2(size as nat) as int,
        0 <= x2 < p2(size as nat) as int,
        0 <= y2 < p2(size as nat) as int,
        0 <= z2 < p2(size as nat) as int,
        0 <= size,
        path_spec(size, x1, y1, z1) == path_spec(size, x2, y2, z2),
    ensures
        x1 == x2 && y1 == y2 && z1 == z2,
    decreases size,
{
    if size > 0 {
        lemma_shift_masks();
        let c = p2((size - 1) as nat) as int;
        let px1: int = if x1 >= c {
            1
        } else {
            0
        };
        let py1: int = if y1 >= c {
            1
        } else {
            0
        };
        let pz1: int = if z1 >= c {
            1
        } else {
            0
        };
        let px2: int = if x2 >= c {
            1
        } else {
            0
        };
        let py2: int = if y2 >= c {
            1
        } else {
            0
        };
        let pz2: int = if z2 >= c {
            1
        } else {
            0
        };
        let m1 = (1u8 << ((4 * px1 + 2 * py1 + pz1) as u8));
        let m2 = (1u8 << ((4 * px2 + 2 * py2 + pz2) as u8));
        assert(path_spec(size, x1, y1, z1)[0] == m1);
        assert(path_spec(size, x2, y2, z2)[0] == m2);
        assert(mask_octant(m1) == 4 * px1 + 2 * py1 + pz1);
        assert(mask_octant(m2) == 4 * px2 + 2 * py2 + pz2);
        assert(px1 == px2 && py1 == py2 && pz1 == pz2);
        assert(path_spec(size, x1, y1, z1).drop_first() =~= path_spec(
            size - 1,
            x1 - px1 * c,
            y1 - py1 * c,
            z1 - pz1 * c,
        ));
        assert(path_spec(size, x2, y2, z2).drop_first() =~= path_spec(
            size - 1,
            x2 - px2 * c,
            y2 - py2 * c,
            z2 - pz2 * c,
        ));
        lemma_path_inj(
            size - 1,
            x1 - px1 * c,
            y1 - py1 * c,
            z1 - pz1 * c,
            x2 - px2 * c,
            y2 - py2 * c,
            z2 - pz2 * c,
        );
    }
}

/// A fully materialized path has every prefix fully materialized.
proof fn lemma_rdepth_prefix<T>(nodes: Seq<Node<T>>, i: int, p: Seq<u8>, l: int)
    requires
        rdepth(nodes, i, p) == p.len(),
        0 <= l <= p.len(),
    ensures
        rdepth(nodes, i, p.take(l)) == l,
    decreases p.len(),
{
    if l > 0 {
        let j = step(nodes, i, p[0]).unwrap();
        assert(p.take(l)[0] == p[0]);
        assert(p.take(l).drop_first() =~= p.drop_first().take(l - 1));
        lemma_rdepth_prefix(nodes, j, p.drop_first(), l - 1);
    }
}

/// Morton accumulation along a path from a given leading digit string.
spec fn morton_from(base: int, p: Seq<u8>) -> int
    decreases p.len(),
{
    if p.len() == 0 {
        base
    } else {
        morton_from(base * 8 + mask_octant(p[0]), p.drop_first())
    }
}

proof fn lemma_morton_from_push(base: int, p: Seq<u8>, m: u8)
    ensures
        morton_from(base, p.push(m)) == morton_from(base, p) * 8 + mask_octant(m),
    decreases p.len(),
{
    if p.len() == 0 {
        assert(p.push(m)[0] == m);
        assert(p.push(m).drop_first() =~= Seq::<u8>::empty());
        assert(morton_from(base, p.push(m)) == morton_from(
            base * 8 + mask_octant(m),
            Seq::<u8>::empty(),
        ));
    } else {
        assert(p.push(m)[0] == p[0]);
        assert(p.push(m).drop_first() =~= p.drop_first().push(m));
        assert(morton_from(base, p.push(m)) == morton_from(
            base * 8 + mask_octant(p[0]),
            p.drop_first().push(m),
        ));
        assert(morton_from(base, p) == morton_from(base * 8 + mask_octant(p[0]), p.drop_first()));
        lemma_morton_from_push(base * 8 + mask_octant(p[0]), p.drop_first(), m);
    }
}

/// Accumulating from the bare sentinel digit gives the path's morton code.
proof fn lemma_morton_from_code(p: Seq<u8>)
    ensures
        morton_from(7, p) == morton_code(p),
    decreases p.len(),
{
    if p.len() > 0 {
        lemma_morton_from_code(p.drop_last());
        lemma_morton_from_push(7, p.drop_last(), p.last());
        assert(p.drop_last().push(p.last()) =~= p);
    }
}

/// Along a fully materialized descent, the morton accumulator follows the
/// path digits exactly.
proof fn lemma_chain_meff<T>(nodes: Seq<Node<T>>, i: int, p: Seq<u8>)
    requires
        wf_nodes(nodes),
        0 <= i < nodes.len(),
        rdepth(nodes, i, p) == p.len(),
    ensures
        meff(nodes, resolve(nodes, i, p)) == morton_from(meff(nodes, i), p),
    decreases p.len(),
{
    if p.len() > 0 {
        let k = mask_octant(p[0]);
        let t = step(nodes, i, p[0]).unwrap();
        lemma_step_in_block(nodes, i, p[0], t);
        assert(bit_set(nodes[i].valid, k as u32));
        assert(nodes[t].morton as int == meff(nodes, i) * 8 + k);
        assert(rank8(0u64) == 0);
        assert(rank8(nodes[0].morton) == 0);
        assert(rank8(nodes[t].morton) == rank8(nodes[i].morton) + 1);
        assert(t != 0) by {
            if t == 0 {
                assert(rank8(nodes[i].morton) >= 0) by {
                    lemma_rank8_nonneg(nodes[i].morton);
                }
            }
        }
        assert(meff(nodes, t) == meff(nodes, i) * 8 + k);
        lemma_chain_meff(nodes, t, p.drop_first());
    }
}

proof fn lemma_rank8_nonneg(m: u64)
    ensures
        rank8(m) >= 0,
    decreases m,
{
    if m >= 8 {
        lemma_rank8_nonneg(m / 8);
    }
}

// ---------------------------------------------------------------------------
// The split step: materializing one octant under one node.
// ---------------------------------------------------------------------------

/// Payload of the node at `i`, `None` out of bounds.
spec fn data_at<T>(nodes: Seq<Node<T>>, i: int) -> Option<T> {
    if 0 <= i < nodes.len() {
        nodes[i].data
    } else {
        None
    }
}

/// The parent after a split: occupancy gains bit `k`, the block is repointed.
spec fn split_parent<T>(n: Node<T>, k: u32, newchild: u32) -> Node<T> {
    Node { child: newchild, valid: n.valid | (1u32 << k), morton: n.morton, data: n.data }
}

/// A freshly materialized node: a leaf inheriting the parent's payload, so
/// that splitting a collapsed subtree keeps answering with its value.
spec fn fresh_node<T>(code: u64, data: Option<T>) -> Node<T> {
    Node { child: NO_CHILD, valid: 0, morton: code, data }
}

spec fn tomb_node<T>() -> Node<T> {
    Node { child: NO_CHILD, valid: 0, morton: TOMBSTONE, data: None }
}

/// The arena after materializing octant `k` under the node at `ip` with a
/// fresh node keyed `code`: the parent's block is reallocated at the end of
/// the arena one entry longer, the old siblings keep their order around the
/// fresh node spliced in at octant order, and the old block is tombstoned.
spec fn split_nodes<T>(nodes: Seq<Node<T>>, ip: int, k: u32, code: u64) -> Seq<Node<T>> {
    let p = nodes[ip];
    let off = pc_below(p.valid, k as int);
    let base = Seq::new(
        nodes.len(),
        |i: int|
            if i == ip {
                split_parent(p, k, nodes.len() as u32)
            } else if in_block(p, i) {
                tomb_node()
            } else {
                nodes[i]
            },
    );
    let newblock = Seq::new(
        (blk_len(p) + 1) as nat,
        |j: int|
            if j == off {
                fresh_node(code, p.data)
            } else if j < off {
                nodes[blk_start(p) + j]
            } else {
                nodes[blk_start(p) + j - 1]
            },
    );
    base + newblock
}

/// Pairs an index of the old arena with the index where the same subtree
/// root stands after the split: untouched nodes stay in place, the parent
/// stays in place, relocated siblings move to the new block.
spec fn split_rel<T>(nodes: Seq<Node<T>>, ip: int, k: u32, io: int, inew: int) -> bool {
    let p = nodes[ip];
    let off = pc_below(p.valid, k as int);
    ||| (io == inew && 0 <= io < nodes.len() && io != ip && !in_block(p, io))
    ||| (io == ip && inew == ip)
    ||| (in_block(p, io) && inew == nodes.len() + (if io - blk_start(p) < off {
        io - blk_start(p)
    } else {
        io - blk_start(p) + 1
    }))
}

/// A node whose block is nonempty has a block.
proof fn lemma_block_nonempty<T>(nodes: Seq<Node<T>>, ip: int)
    requires
        wf_nodes(nodes),
        0 <= ip < nodes.len(),
        popcount8(nodes[ip].valid) > 0,
    ensures
        has_block(nodes[ip]),
        nodes[ip].valid != 0,
{
    if nodes[ip].valid == 0 {
        lemma_pc_below_zero(8);
    }
}

/// A nonzero occupancy mask has at least one set octant bit.
proof fn lemma_nonzero_has_bit(v: u32)
    requires
        v < 256,
        v != 0,
    ensures
        popcount8(v) >= 1,
{
    lemma_pc_below_bounds(v, 8);
    if popcount8(v) == 0 {
        assert forall|k: u32| k < 8 implies #[trigger] bitv(v, k) == 0 by {
            lemma_pc_below_bounds(v, k as int);
            lemma_pc_below_bounds(v, k as int + 1);
            lemma_pc_below_mono(v, k as int + 1, 8);
            assert(pc_below(v, k as int + 1) == pc_below(v, k as int) + bitv(v, k));
        }
        assert(v == 0) by (bit_vector)
            requires
                v < 256,
                bitv(v, 0u32) == 0,
                bitv(v, 1u32) == 0,
                bitv(v, 2u32) == 0,
                bitv(v, 3u32) == 0,
                bitv(v, 4u32) == 0,
                bitv(v, 5u32) == 0,
                bitv(v, 6u32) == 0,
                bitv(v, 7u32) == 0,
        ;
    }
}

/// Basic shape facts about the split arena.
proof fn lemma_split_shape<T>(nodes: Seq<Node<T>>, ip: int, k: u32, code: u64)
    requires
        wf_nodes(nodes),
        0 <= ip < nodes.len(),
        k < 8,
    ensures
        split_nodes(nodes, ip, k, code).len() == nodes.len() + blk_len(nodes[ip]) + 1,
        forall|i: int|
            0 <= i < nodes.len() && i != ip && !in_block(nodes[ip], i) ==> split_nodes(
                nodes,
                ip,
                k,
                code,
            )[i] == nodes[i],
        split_nodes(nodes, ip, k, code)[ip] == split_parent(nodes[ip], k, nodes.len() as u32),
{
    lemma_pc_below_bounds(nodes[ip].valid, 8);
}

/// One split step preserves what every lookup observes: related positions
/// resolve to nodes with the same payload.
proof fn lemma_split_preserves<T>(
    nodes: Seq<Node<T>>,
    ip: int,
    k: u32,
    code: u64,
    io: int,
    inew: int,
    q: Seq<u8>,
)
    requires
        wf_nodes(nodes),
        0 <= ip < nodes.len(),
        k < 8,
        !bit_set(nodes[ip].valid, k),
        split_rel(nodes, ip, k, io, inew),
    ensures
        data_at(nodes, resolve(nodes, io, q)) == data_at(
            split_nodes(nodes, ip, k, code),
            resolve(split_nodes(nodes, ip, k, code), inew, q),
        ),
    decreases q.len(),
{
    let new = split_nodes(nodes, ip, k, code);
    let p = nodes[ip];
    let len = nodes.len() as int;
    let pc = blk_len(p);
    let off = pc_below(p.valid, k as int);
    lemma_pc_below_bounds(p.valid, 8);
    lemma_pc_below_bounds(p.valid, k as int);
    lemma_pc_below_mono(p.valid, k as int, 8);
    assert(new.len() == len + pc + 1);
    if io == inew && 0 <= io < len && io != ip && !in_block(p, io) {
        // Untouched node: identical content on both sides.
        assert(new[io] == nodes[io]);
        if q.len() == 0 {
        } else {
            let n = nodes[io];
            let kq = mask_octant(q[0]);
            if kq < 8 && has_block(n) && bit_set(n.valid, kq as u32) {
                let t = blk_start(n) + pc_below(n.valid, kq as int);
                assert(step(nodes, io, q[0]) == Some(t));
                assert(step(new, io, q[0]) == Some(t));
                lemma_step_in_block(nodes, io, q[0], t);
                if t == ip {
                    lemma_split_preserves(nodes, ip, k, code, t, t, q.drop_first());
                } else {
                    assert(!in_block(p, t));
                    lemma_split_preserves(nodes, ip, k, code, t, t, q.drop_first());
                }
            } else {
                assert(step(nodes, io, q[0]) is None);
                assert(step(new, io, q[0]) is None);
            }
        }
    } else if io == ip && inew == ip {
        // The split node itself.
        assert(new[ip] == split_parent(p, k, len as u32));
        let vp = p.valid | (1u32 << k);
        if q.len() == 0 {
        } else {
            let kq = mask_octant(q[0]);
            if kq >= 8 {
                assert(step(nodes, ip, q[0]) is None);
                assert(step(new, ip, q[0]) is None);
            } else if kq == k as int {
                // The materialized octant: the old tree stopped here, the
                // new tree descends into the fresh leaf with the same data.
                assert(step(nodes, ip, q[0]) is None);
                lemma_or_bits(p.valid, k, k);
                lemma_pc_or(p.valid, k, k as int);
                let tf = len + off;
                assert(bit_set(vp, k));
                assert(pc_below(vp, k as int) == off);
                assert(step(new, ip, q[0]) == Some(tf));
                assert(new[tf] == fresh_node(code, p.data));
                lemma_resolve_leaf(new, tf, q.drop_first());
                assert(resolve(new, ip, q) == tf);
            } else {
                let kqu = kq as u32;
                lemma_or_bits(p.valid, k, kqu);
                assert(bit_set(vp, kqu) == bit_set(p.valid, kqu));
                if bit_set(p.valid, kqu) {
                    if p.valid == 0 {
                        lemma_zero_valid_bits(kqu);
                    }
                    assert(has_block(nodes[ip]));
                    let jo = pc_below(p.valid, kq);
                    let t = blk_start(p) + jo;
                    assert(step(nodes, ip, q[0]) == Some(t));
                    lemma_step_in_block(nodes, ip, q[0], t);
                    lemma_pc_or(p.valid, k, kq);
                    let tf = len + pc_below(vp, kq);
                    assert(step(new, ip, q[0]) == Some(tf));
                    if kq < k as int {
                        lemma_pc_below_mono(p.valid, kq + 1, k as int);
                        assert(pc_below(p.valid, kq + 1) == jo + 1);
                        assert(jo < off);
                        assert(tf == len + jo);
                    } else {
                        lemma_pc_below_mono(p.valid, k as int, kq);
                        assert(jo >= off);
                        assert(tf == len + jo + 1);
                    }
                    assert(split_rel(nodes, ip, k, t, tf));
                    lemma_split_preserves(nodes, ip, k, code, t, tf, q.drop_first());
                } else {
                    assert(step(nodes, ip, q[0]) is None);
                    assert(step(new, ip, q[0]) is None);
                }
            }
        }
    } else {
        // A relocated sibling: same content at its new position.
        let jo = io - blk_start(p);
        let jn = if jo < off {
            jo
        } else {
            jo + 1
        };
        assert(in_block(p, io));
        assert(inew == len + jn);
        assert(new[inew] == nodes[io]);
        let n = nodes[io];
        if q.len() == 0 {
            assert(data_at(nodes, io) == n.data);
            assert(data_at(new, inew) == n.data);
        } else {
            let kq = mask_octant(q[0]);
            if kq < 8 && has_block(n) && bit_set(n.valid, kq as u32) {
                let t = blk_start(n) + pc_below(n.valid, kq as int);
                assert(step(nodes, io, q[0]) == Some(t));
                assert(step(new, inew, q[0]) == Some(t));
                lemma_step_in_block(nodes, io, q[0], t);
                // t is in the sibling's block, which is disjoint from the
                // parent's block, and cannot be the parent itself: its
                // morton rank sits two levels below the parent's.
                assert(in_block(nodes[ip], io));
                assert(rank8(n.morton) == rank8(p.morton) + 1);
                assert(rank8(nodes[t].morton) == rank8(n.morton) + 1);
                assert(t != ip);
                assert(io != ip);
                assert(!in_block(p, t));
                lemma_split_preserves(nodes, ip, k, code, t, t, q.drop_first());
            } else {
                assert(step(nodes, io, q[0]) is None);
                assert(step(new, inew, q[0]) is None);
            }
        }
    }
}

/// The split arena is well formed again, with the new block in place.
proof fn lemma_split_wf<T>(nodes: Seq<Node<T>>, ip: int, k: u32, code: u64)
    requires
        wf_nodes(nodes),
        0 <= ip < nodes.len(),
        k < 8,
        !bit_set(nodes[ip].valid, k),
        nodes.len() + blk_len(nodes[ip]) + 1 <= NODE_CAP,
        rank8(code) == rank8(nodes[ip].morton) + 1,
        code as int == meff(nodes, ip) * 8 + k,
    ensures
        wf_nodes(split_nodes(nodes, ip, k, code)),
    decreases 0int,
{
    let new = split_nodes(nodes, ip, k, code);
    let p = nodes[ip];
    let len = nodes.len() as int;
    let pc = blk_len(p);
    let off = pc_below(p.valid, k as int);
    let vp = p.valid | (1u32 << k);
    lemma_pc_below_bounds(p.valid, 8);
    lemma_pc_below_bounds(p.valid, k as int);
    lemma_pc_below_mono(p.valid, k as int, 8);
    lemma_or_bits(p.valid, k, k);
    lemma_pc_or(p.valid, k, 8);
    assert(new.len() == len + pc + 1);
    assert(popcount8(vp) == pc + 1);
    assert(len as u32 != NO_CHILD && len as u32 == len);
    // Identify, for every new index, the old node it carries.
    assert forall|i: int| len <= i < new.len() && i != len + off implies new[i] == nodes[
        blk_start(p) + (if i - len < off {
            i - len
        } else {
            i - len - 1
        })
    ] && in_block(p, blk_start(p) + (if i - len < off {
        i - len
    } else {
        i - len - 1
    })) by {
        assert(pc > 0);
        lemma_block_nonempty(nodes, ip);
    }
    assert(new[len + off] == fresh_node(code, p.data));
    assert(new[ip] == split_parent(p, k, len as u32));
    // Occupancy masks stay below 256.
    assert forall|i: int| 0 <= i < new.len() implies (#[trigger] new[i]).valid < 256 by {
        if i < len {
            if i != ip && !in_block(p, i) {
                assert(new[i] == nodes[i]);
            }
        }
    }
    // A block exists exactly when some occupancy bit is set.
    assert forall|i: int| 0 <= i < new.len() implies (has_block(#[trigger] new[i]) <==> new[i].valid
        != 0) by {
        if i < len && i != ip && !in_block(p, i) {
            assert(new[i] == nodes[i]);
        }
    }
    // Blocks stay inside the arena and clear of the root.
    assert forall|i: int| 0 <= i < new.len() && has_block(#[trigger] new[i]) implies 1 <= blk_start(
        new[i],
    ) && blk_start(new[i]) + blk_len(new[i]) <= new.len() by {
        if i == ip {
            assert(blk_start(new[i]) == len);
            assert(blk_len(new[i]) == pc + 1);
        } else if i < len && !in_block(p, i) {
            assert(new[i] == nodes[i]);
        }
    }
    // Blocks of distinct nodes stay disjoint.
    assert forall|i: int, j: int|
        0 <= i < new.len() && 0 <= j < new.len() && i != j && has_block(#[trigger] new[i])
            && has_block(#[trigger] new[j]) implies blk_start(new[i]) + blk_len(new[i])
        <= blk_start(new[j]) || blk_start(new[j]) + blk_len(new[j]) <= blk_start(new[i]) by {
        let oi = split_owner(nodes, ip, k, i);
        let oj = split_owner(nodes, ip, k, j);
        lemma_split_owner(nodes, ip, k, code, i);
        lemma_split_owner(nodes, ip, k, code, j);
        if i != ip && j != ip {
            assert(new[i] == nodes[oi] && new[j] == nodes[oj]);
            assert(oi != oj);
            assert(has_block(nodes[oi]) && has_block(nodes[oj]));
        }
    }
    // Morton ranks still count depth.
    assert forall|i: int, j: int|
        0 <= i < new.len() && 0 <= j < new.len() && #[trigger] in_block(new[i], j) implies rank8(
        new[j].morton,
    ) == rank8(new[i].morton) + 1 by {
        lemma_split_owner(nodes, ip, k, code, i);
        if i == ip {
            // The relocated block: fresh node and carried-over siblings.
            assert(len <= j < len + pc + 1);
            if j != len + off {
                assert(pc > 0);
                lemma_block_nonempty(nodes, ip);
                let oj = blk_start(p) + (if j - len < off {
                    j - len
                } else {
                    j - len - 1
                });
                assert(in_block(nodes[ip], oj));
                assert(new[j] == nodes[oj]);
            }
        } else {
            let oi = split_owner(nodes, ip, k, i);
            assert(new[i] == nodes[oi]);
            assert(in_block(nodes[oi], j));
            assert(j < len);
            if j == ip {
                assert(new[j].morton == nodes[j].morton);
            } else {
                assert(!in_block(p, j)) by {
                    if in_block(p, j) {
                        assert(oi != ip);
                        assert(has_block(nodes[oi]) && has_block(p));
                    }
                }
                assert(new[j] == nodes[j]);
            }
        }
    }
    // Morton keys stay canonical: every child key is its parent's
    // accumulator times eight plus its octant.
    assert forall|i: int, k2: u32|
        0 <= i < new.len() && k2 < 8 && #[trigger] bit_set(new[i].valid, k2) implies new[blk_start(
        new[i],
    ) + pc_below(new[i].valid, k2 as int)].morton as int == meff(new, i) * 8 + k2 by {
        lemma_split_owner(nodes, ip, k, code, i);
        if i == ip {
            let w = len + pc_below(vp, k2 as int);
            lemma_or_bits(p.valid, k, k2);
            if k2 == k {
                lemma_pc_or(p.valid, k, k as int);
                assert(new[w] == fresh_node(code, p.data));
            } else {
                assert(bit_set(p.valid, k2));
                lemma_pc_or(p.valid, k, k2 as int);
                let jo = pc_below(p.valid, k2 as int);
                let wo = blk_start(p) + jo;
                lemma_offset_in_block(p.valid, k2 as int);
                if (k2 as int) < k as int {
                    lemma_pc_below_mono(p.valid, k2 as int + 1, k as int);
                    assert(pc_below(p.valid, k2 as int + 1) == jo + 1);
                    assert(w == len + jo);
                    assert(new[w] == nodes[wo]);
                } else {
                    lemma_pc_below_mono(p.valid, k as int, k2 as int);
                    assert(w == len + jo + 1);
                    assert(new[w] == nodes[wo]);
                }
                assert(nodes[wo].morton as int == meff(nodes, ip) * 8 + k2);
            }
            assert(meff(new, ip) == meff(nodes, ip));
        } else if i < len && !in_block(p, i) {
            assert(new[i] == nodes[i]);
            let w = blk_start(nodes[i]) + pc_below(nodes[i].valid, k2 as int);
            assert(nodes[i].valid != 0) by {
                if nodes[i].valid == 0 {
                    lemma_zero_valid_bits(k2);
                }
            }
            assert(has_block(nodes[i]));
            lemma_offset_in_block(nodes[i].valid, k2 as int);
            assert(in_block(nodes[i], w));
            assert(!in_block(p, w)) by {
                if in_block(p, w) {
                    assert(has_block(nodes[i]) && has_block(nodes[ip]));
                }
            }
            if w == ip {
                assert(new[w].morton == nodes[w].morton);
            } else {
                assert(new[w] == nodes[w]);
            }
            assert(meff(new, i) == meff(nodes, i));
        } else if i < len && in_block(p, i) {
            assert(new[i] == tomb_node::<T>());
            lemma_zero_valid_bits(k2);
            assert(false);
        } else if i == len + off {
            assert(new[i] == fresh_node(code, p.data));
            lemma_zero_valid_bits(k2);
            assert(false);
        } else {
            let oi = split_owner(nodes, ip, k, i);
            assert(new[i] == nodes[oi]);
            assert(in_block(nodes[ip], oi));
            let w = blk_start(nodes[oi]) + pc_below(nodes[oi].valid, k2 as int);
            assert(nodes[oi].valid != 0) by {
                if nodes[oi].valid == 0 {
                    lemma_zero_valid_bits(k2);
                }
            }
            assert(has_block(nodes[oi]));
            lemma_offset_in_block(nodes[oi].valid, k2 as int);
            assert(in_block(nodes[oi], w));
            assert(rank8(nodes[oi].morton) == rank8(p.morton) + 1);
            assert(rank8(nodes[w].morton) == rank8(p.morton) + 2);
            assert(w != ip);
            assert(!in_block(p, w)) by {
                if in_block(p, w) {
                    assert(oi != ip);
                    assert(has_block(nodes[oi]) && has_block(nodes[ip]));
                }
            }
            assert(new[w] == nodes[w]);
            assert(oi != 0) by {
                assert(rank8(nodes[0].morton) == 0);
            }
            assert(i != 0);
            assert(meff(new, i) == meff(nodes, oi));
        }
    }
    assert(new[0].morton == nodes[0].morton) by {
        if 0 != ip {
            assert(!in_block(p, 0));
        }
    }
}

/// The old node whose block the new node at `i` owns after a split (the
/// parent maps to itself; the fresh node, which owns no block, also maps to
/// itself for convenience).
spec fn split_owner<T>(nodes: Seq<Node<T>>, ip: int, k: u32, i: int) -> int {
    let p = nodes[ip];
    let off = pc_below(p.valid, k as int);
    if i < nodes.len() {
        i
    } else if i == nodes.len() + off {
        i
    } else if i - nodes.len() < off {
        blk_start(p) + (i - nodes.len())
    } else {
        blk_start(p) + (i - nodes.len()) - 1
    }
}

/// Every non-parent new index carries an old node (or the fresh leaf), and
/// distinct new indices carry distinct old nodes.
proof fn lemma_split_owner<T>(nodes: Seq<Node<T>>, ip: int, k: u32, code: u64, i: int)
    requires
        wf_nodes(nodes),
        0 <= ip < nodes.len(),
        k < 8,
        !bit_set(nodes[ip].valid, k),
        0 <= i < split_nodes(nodes, ip, k, code).len(),
    ensures
        i == nodes.len() + pc_below(nodes[ip].valid, k as int) ==> split_nodes(
            nodes,
            ip,
            k,
            code,
        )[i] == fresh_node(code, nodes[ip].data),
        i != ip && i != nodes.len() + pc_below(nodes[ip].valid, k as int) ==> {
            let oi = split_owner(nodes, ip, k, i);
            &&& 0 <= oi < nodes.len()
            &&& i >= nodes.len() ==> in_block(nodes[ip], oi)
            &&& i < nodes.len() && in_block(nodes[ip], i) ==> split_nodes(nodes, ip, k, code)[i]
                == tomb_node::<T>()
            &&& i < nodes.len() && !in_block(nodes[ip], i) ==> split_nodes(nodes, ip, k, code)[i]
                == nodes[oi]
            &&& i >= nodes.len() ==> split_nodes(nodes, ip, k, code)[i] == nodes[oi]
        },
        forall|j: int|
            0 <= j < split_nodes(nodes, ip, k, code).len() && j != i && j != ip && i != ip && j
                != nodes.len() + pc_below(nodes[ip].valid, k as int) && i != nodes.len() + pc_below(
                nodes[ip].valid,
                k as int,
            ) && !(i < nodes.len() && in_block(nodes[ip], i)) && !(j < nodes.len() && in_block(
                nodes[ip],
                j,
            )) ==> split_owner(nodes, ip, k, i) != #[trigger] split_owner(nodes, ip, k, j),
{
    let p = nodes[ip];
    let off = pc_below(p.valid, k as int);
    lemma_pc_below_bounds(p.valid, 8);
    lemma_pc_below_bounds(p.valid, k as int);
    lemma_pc_below_mono(p.valid, k as int, 8);
    if i >= nodes.len() && i != nodes.len() + off {
        assert(popcount8(p.valid) > 0);
        lemma_block_nonempty(nodes, ip);
    }
}

/// The descent to the split node survives the split: every node on the way
/// down sits at a strictly smaller morton rank than the relocated block, so
/// it is untouched and the same prefix resolves to the same parent.
proof fn lemma_split_chain<T>(
    nodes: Seq<Node<T>>,
    ip: int,
    k: u32,
    code: u64,
    i: int,
    pref: Seq<u8>,
)
    requires
        wf_nodes(nodes),
        0 <= ip < nodes.len(),
        k < 8,
        !bit_set(nodes[ip].valid, k),
        0 <= i < nodes.len(),
        rdepth(nodes, i, pref) == pref.len(),
        resolve(nodes, i, pref) == ip,
        rank8(nodes[i].morton) + pref.len() == rank8(nodes[ip].morton),
    ensures
        resolve(split_nodes(nodes, ip, k, code), i, pref) == ip,
        rdepth(split_nodes(nodes, ip, k, code), i, pref) == pref.len(),
    decreases pref.len(),
{
    let new = split_nodes(nodes, ip, k, code);
    let p = nodes[ip];
    lemma_split_shape(nodes, ip, k, code);
    if pref.len() > 0 {
        assert(rank8(nodes[i].morton) < rank8(nodes[ip].morton));
        assert(i != ip);
        assert(!in_block(p, i)) by {
            if in_block(p, i) {
                assert(in_block(nodes[ip], i));
            }
        }
        assert(new[i] == nodes[i]);
        let t = step(nodes, i, pref[0]).unwrap();
        lemma_step_in_block(nodes, i, pref[0], t);
        assert(step(new, i, pref[0]) == Some(t));
        lemma_split_chain(nodes, ip, k, code, t, pref.drop_first());
    }
}

/// Rewriting one node's payload moves no structure: every lookup still
/// walks the same chain of indices.
proof fn lemma_update_data_resolve<T>(
    nodes: Seq<Node<T>>,
    i: int,
    d: Option<T>,
    j: int,
    q: Seq<u8>,
)
    requires
        0 <= i < nodes.len(),
    ensures
        resolve(nodes.update(i, Node { data: d, ..nodes[i] }), j, q) == resolve(nodes, j, q),
        rdepth(nodes.update(i, Node { data: d, ..nodes[i] }), j, q) == rdepth(nodes, j, q),
    decreases q.len(),
{
    let n2 = nodes.update(i, Node { data: d, ..nodes[i] });
    if q.len() > 0 {
        assert(step(n2, j, q[0]) == step(nodes, j, q[0])) by {
            if 0 <= j < nodes.len() {
                assert(n2[j].valid == nodes[j].valid && n2[j].child == nodes[j].child);
            }
        }
        match step(nodes, j, q[0]) {
            Some(t) => {
                lemma_update_data_resolve(nodes, i, d, t, q.drop_first());
            },
            None => {},
        }
    }
}

/// Rewriting one node's payload keeps the arena well formed.
proof fn lemma_update_data_wf<T>(nodes: Seq<Node<T>>, i: int, d: Option<T>)
    requires
        wf_nodes(nodes),
        0 <= i < nodes.len(),
    ensures
        wf_nodes(nodes.update(i, Node { data: d, ..nodes[i] })),
{
    let n2 = nodes.update(i, Node { data: d, ..nodes[i] });
    assert(forall|t: int|
        0 <= t < nodes.len() ==> (#[trigger] n2[t]).valid == nodes[t].valid && n2[t].child
            == nodes[t].child && n2[t].morton == nodes[t].morton);
    assert(forall|t: int|
        0 <= t < nodes.len() ==> has_block(#[trigger] n2[t]) == has_block(nodes[t]) && blk_start(
            n2[t],
        ) == blk_start(nodes[t]) && blk_len(n2[t]) == blk_len(nodes[t]));
    assert forall|a: int, b: int|
        0 <= a < n2.len() && 0 <= b < n2.len() && #[trigger] in_block(n2[a], b) implies rank8(
        n2[b].morton,
    ) == rank8(n2[a].morton) + 1 by {
        assert(in_block(nodes[a], b));
    }
    assert forall|a: int, k: u32|
        0 <= a < n2.len() && k < 8 && #[trigger] bit_set(n2[a].valid, k) implies n2[blk_start(
        n2[a],
    ) + pc_below(n2[a].valid, k as int)].morton as int == meff(n2, a) * 8 + k by {
        assert(bit_set(nodes[a].valid, k));
        assert(nodes[a].valid != 0) by {
            if nodes[a].valid == 0 {
                lemma_zero_valid_bits(k);
            }
        }
        assert(has_block(nodes[a]));
        lemma_offset_in_block(nodes[a].valid, k as int);
        let w = blk_start(nodes[a]) + pc_below(nodes[a].valid, k as int);
        assert(in_block(nodes[a], w));
        assert(0 <= w < nodes.len());
        assert(n2[w].morton == nodes[w].morton);
        assert(meff(n2, a) == meff(nodes, a));
    }
}

// ---------------------------------------------------------------------------
// The octree itself.
// ---------------------------------------------------------------------------

/// Sparse spatial storage of one `T` per unit cell in a cube of edge
/// `2^size`; compaction avoids `O(8^size)` cost for empty regions.
pub struct SparseOctree<T> {
    size: usize,
    nodes: Vec<Node<T>>,
}

impl<T> Node<T> {
    /// Index of the first entry of this node's sibling-children block, or
    /// `NO_CHILD`.
    pub closed spec fn spec_child(self) -> u32 {
        self.child
    }

    /// 8-bit occupancy mask, one bit per octant.
    pub closed spec fn spec_valid(self) -> u32 {
        self.valid
    }

    /// Stable sort/search key assigned at creation; `TOMBSTONE` marks an
    /// entry pending removal.
    pub closed spec fn spec_morton(self) -> u64 {
        self.morton
    }

    /// Payload, present only on leaves and on collapsed subtrees.
    pub closed spec fn spec_data(self) -> Option<T> {
        self.data
    }

    pub fn child(&self) -> (r: u32)
        ensures
            r == self.spec_child(),
    {
        self.child
    }

    pub fn valid(&self) -> (r: u32)
        ensures
            r == self.spec_valid(),
    {
        self.valid
    }

    pub fn morton(&self) -> (r: u64)
        ensures
            r == self.spec_morton(),
    {
        self.morton
    }
}

impl<T: Copy> Node<T> {
    pub fn data(&self) -> (r: Option<T>)
        ensures
            r == self.spec_data(),
    {
        self.data
    }
}

impl<T> Default for Node<T> {
    /// The tombstone entry: no children, no occupancy, no payload.
    fn default() -> (r: Self)
        ensures
            r.spec_child() == NO_CHILD,
            r.spec_valid() == 0,
            r.spec_morton() == TOMBSTONE,
            r.spec_data() is None,
    {
        Node { child: NO_CHILD, valid: 0, morton: TOMBSTONE, data: None }
    }
}

impl<T: Copy> SparseOctree<T> {
    /// Tree depth; the domain edge is `2^size`.
    pub closed spec fn spec_size(self) -> int {
        self.size as int
    }

    /// Number of entries in the node arena, tombstones included.
    pub closed spec fn node_count(self) -> int {
        self.nodes@.len() as int
    }

    /// The node arena.
    pub closed spec fn spec_nodes(self) -> Seq<Node<T>> {
        self.nodes@
    }

    /// Structural well-formedness; established by the constructors and
    /// preserved by every mutating operation.
    pub closed spec fn wf(self) -> bool {
        &&& wf_nodes(self.nodes@)
        &&& depth_bounded(self.nodes@, self.size as int)
        &&& 1 <= self.size <= MAX_SIZE
    }

    /// The value a lookup of cell `(x, y, z)` observes: the payload of the
    /// deepest materialized node along the cell's octant path, so a subtree
    /// collapsed into an ancestor still answers for all its cells.
    pub closed spec fn value_at(self, x: int, y: int, z: int) -> Option<T> {
        resolved_data(self.nodes@, path_spec(self.size as int, x, y, z))
    }

    /// True when the full octant path of `(x, y, z)` is materialized down to
    /// the unit cell.
    pub closed spec fn cell_materialized(self, x: int, y: int, z: int) -> bool {
        rdepth(self.nodes@, 0, path_spec(self.size as int, x, y, z)) == self.spec_size()
    }

    /// True when `(x, y, z)` lies inside the cubic domain.
    pub open spec fn in_domain(self, x: int, y: int, z: int) -> bool {
        &&& 0 <= x < p2(self.spec_size() as nat)
        &&& 0 <= y < p2(self.spec_size() as nat)
        &&& 0 <= z < p2(self.spec_size() as nat)
    }

    /// An empty tree of depth `size`: a lone root with no occupancy, so
    /// every lookup observes `None`.
    pub fn with_size(size: usize) -> (r: Self)
        requires
            1 <= size <= MAX_SIZE,
        ensures
            r.wf(),
            r.spec_size() == size,
            r.node_count() == 1,
            r.spec_nodes()[0].spec_morton() == 0,
            r.spec_nodes()[0].spec_child() == NO_CHILD,
            r.spec_nodes()[0].spec_valid() == 0,
            r.spec_nodes()[0].spec_data() is None,
            forall|x: int, y: int, z: int| #[trigger] r.value_at(x, y, z) is None,
    {
        let mut nodes: Vec<Node<T>> = Vec::new();
        nodes.push(Node { morton: 0, child: NO_CHILD, valid: 0, data: None });
        let r = Self { size, nodes };
        proof {
            assert forall|k: u32| k < 8 implies !bit_set(r.nodes@[0].valid, k) by {
                lemma_zero_valid_bits(k);
            }
            assert(wf_nodes(r.nodes@));
            assert forall|x: int, y: int, z: int| #[trigger] r.value_at(x, y, z) is None by {
                let path = path_spec(size as int, x, y, z);
                if path.len() > 0 {
                    assert(step(r.nodes@, 0, path[0]) is None);
                }
            }
        }
        r
    }

    /// An empty tree of the default depth.
    pub fn new() -> (r: Self)
        ensures
            r.wf(),
            r.spec_size() == DEFAULT_SIZE,
            r.node_count() == 1,
            r.spec_nodes()[0].spec_morton() == 0,
            r.spec_nodes()[0].spec_child() == NO_CHILD,
            r.spec_nodes()[0].spec_valid() == 0,
            r.spec_nodes()[0].spec_data() is None,
            forall|x: int, y: int, z: int| #[trigger] r.value_at(x, y, z) is None,
    {
        Self::with_size(DEFAULT_SIZE)
    }

    /// Depth accessor; the domain edge is `2^size`.
    pub fn size(&self) -> (r: usize)
        ensures
            r == self.spec_size(),
    {
        self.size
    }

    /// Read-only bulk-upload escape hatch: the raw node arena.
    pub fn nodes(&self) -> (r: &[Node<T>])
        ensures
            r@ == self.spec_nodes(),
            r@.len() == self.node_count(),
    {
        self.nodes.as_slice()
    }

    /// Octant path of the unit cell `(x, y, z)`: recursively halves the
    /// cube, emitting one one-hot mask byte per level, most significant
    /// level first. Coordinates must lie in `[0, 2^size)`.
    pub fn get_position_hierarchy(&self, x: usize, y: usize, z: usize) -> (r: Vec<u8>)
        requires
            self.wf(),
        ensures
            r@ == path_spec(self.spec_size(), x as int, y as int, z as int),
            r@.len() == self.spec_size(),
    {
        let ghost gsize = self.size as int;
        let ghost gx = x as int;
        let ghost gy = y as int;
        let ghost gz = z as int;
        let mut hierarchy: Vec<u8> = Vec::new();
        let mut cursor: usize = 1;
        let mut i: usize = 0;
        while i < self.size
            invariant
                i <= self.size <= MAX_SIZE,
                cursor == p2(i as nat),
            decreases self.size - i,
        {
            proof {
                lemma_p2_mono(i as nat, (MAX_SIZE - 1) as nat);
                lemma_p2_val();
            }
            cursor = cursor * 2;
            i = i + 1;
        }
        let mut cx = x;
        let mut cy = y;
        let mut cz = z;
        let mut level: usize = 0;
        proof {
            lemma_path_len(gsize, gx, gy, gz);
        }
        while level < self.size
            invariant
                level <= self.size <= MAX_SIZE,
                cursor == p2((self.size - level) as nat),
                hierarchy@.len() == level,
                path_spec(gsize, gx, gy, gz) == hierarchy@ + path_spec(
                    self.size - level,
                    cx as int,
                    cy as int,
                    cz as int,
                ),
            decreases self.size - level,
        {
            cursor = cursor / 2;
            proof {
                assert(p2((self.size - level) as nat) == 2 * p2((self.size - level - 1) as nat));
            }
            let px: u8 = if cx >= cursor {
                1
            } else {
                0
            };
            let py: u8 = if cy >= cursor {
                1
            } else {
                0
            };
            let pz: u8 = if cz >= cursor {
                1
            } else {
                0
            };
            let octant: u8 = px * 4 + py * 2 + pz;
            let mask: u8 = 1u8 << octant;
            let ghost pre = hierarchy@;
            let ghost rest = path_spec(self.size - level, cx as int, cy as int, cz as int);
            hierarchy.push(mask);
            if px == 1 {
                cx = cx - cursor;
            }
            if py == 1 {
                cy = cy - cursor;
            }
            if pz == 1 {
                cz = cz - cursor;
            }
            level = level + 1;
            proof {
                assert(rest == seq![mask] + path_spec(
                    self.size - level,
                    cx as int,
                    cy as int,
                    cz as int,
                ));
                assert(pre + rest == (pre + seq![mask]) + path_spec(
                    self.size - level,
                    cx as int,
                    cy as int,
                    cz as int,
                ));
            }
        }
        proof {
            assert(path_spec(0, cx as int, cy as int, cz as int) =~= Seq::<u8>::empty());
            assert(hierarchy@ + Seq::<u8>::empty() =~= hierarchy@);
        }
        hierarchy
    }

    /// Morton key of a path: the sentinel octal digit 7 followed by one
    /// octal digit per level, most significant level first.
    pub fn get_morton_code(hierarchy: &[u8]) -> (r: u64)
        requires
            hierarchy@.len() <= 20,
        ensures
            r == morton_code(hierarchy@),
    {
        let mut morton: u64 = 7;
        let mut i: usize = 0;
        proof {
            lemma_morton_code_bound(hierarchy@.take(0));
        }
        while i < hierarchy.len()
            invariant
                i <= hierarchy@.len() <= 20,
                morton == morton_code(hierarchy@.take(i as int)),
                morton_code(hierarchy@.take(i as int)) < morton_cap(i as int),
            decreases hierarchy@.len() - i,
        {
            let m = hierarchy[i];
            let digit: u8 = octant_index(m);
            proof {
                lemma_morton_cap_mono(i as int, 19);
                lemma_morton_cap_val();
                assert(hierarchy@.take(i as int + 1).drop_last() =~= hierarchy@.take(i as int));
                assert(hierarchy@.take(i as int + 1).last() == hierarchy@[i as int]);
                lemma_morton_code_bound(hierarchy@.take(i as int + 1));
            }
            morton = morton * 8 + (digit as u64);
            i = i + 1;
        }
        proof {
            assert(hierarchy@.take(hierarchy@.len() as int) =~= hierarchy@);
        }
        morton
    }

    /// Arena index of the deepest node reached along `path`.
    pub closed spec fn lookup_index(self, path: Seq<u8>) -> int {
        resolve(self.nodes@, 0, path)
    }

    /// Number of levels of `path` that are materialized from the root down.
    pub closed spec fn lookup_depth(self, path: Seq<u8>) -> int {
        rdepth(self.nodes@, 0, path)
    }

    /// True when a lookup of `path` rejects it: some byte inspected before
    /// the descent stops is not a one-hot mask.
    pub closed spec fn path_rejected(self, path: Seq<u8>) -> bool {
        gn_err(self.nodes@, 0, path)
    }

    /// Payload of the deepest node reached along `path`.
    pub closed spec fn data_along(self, path: Seq<u8>) -> Option<T> {
        resolved_data(self.nodes@, path)
    }

    /// Shared descent of both lookups: the deepest materialized node, its
    /// index, and whether the whole path was materialized.
    fn descend_path(&self, hierarchy: &[u8]) -> (r: Result<(Node<T>, usize, bool), Error>)
        requires
            self.wf(),
        ensures
            r == if self.path_rejected(hierarchy@) {
                Err::<(Node<T>, usize, bool), Error>(Error::InvalidMask)
            } else {
                Ok::<(Node<T>, usize, bool), Error>(
                    (
                        self.spec_nodes()[self.lookup_index(hierarchy@)],
                        self.lookup_index(hierarchy@) as usize,
                        self.lookup_depth(hierarchy@) == hierarchy@.len(),
                    ),
                )
            },
            !self.path_rejected(hierarchy@) ==> 0 <= self.lookup_index(hierarchy@)
                < self.node_count(),
    {
        let ghost p = hierarchy@;
        let mut index: usize = 0;
        let mut level: usize = 0;
        let mut stopped: bool = false;
        proof {
            assert(p.skip(0) =~= p);
        }
        while level < hierarchy.len() && !stopped
            invariant
                self.wf(),
                level <= p.len(),
                hierarchy@ == p,
                0 <= index < self.node_count(),
                resolve(self.nodes@, 0, p) == resolve(self.nodes@, index as int, p.skip(level as int)),
                rdepth(self.nodes@, 0, p) == level + rdepth(
                    self.nodes@,
                    index as int,
                    p.skip(level as int),
                ),
                gn_err(self.nodes@, 0, p) == gn_err(self.nodes@, index as int, p.skip(level as int)),
                stopped ==> level < p.len() && rdepth(
                    self.nodes@,
                    index as int,
                    p.skip(level as int),
                ) == 0 && resolve(self.nodes@, index as int, p.skip(level as int)) == index
                    && !gn_err(self.nodes@, index as int, p.skip(level as int)),
            decreases p.len() - level + (if stopped {
                0int
            } else {
                1int
            }),
        {
            let ghost suffix = p.skip(level as int);
            proof {
                assert(suffix.drop_first() =~= p.skip(level as int + 1));
            }
            let m = hierarchy[level];
            let k = octant_index(m);
            if k == 8 {
                proof {
                    assert(gn_err(self.nodes@, index as int, suffix));
                }
                return Err(Error::InvalidMask);
            }
            let n = self.nodes[index];
            let descend = (n.valid >> (k as u32)) & 1 == 1 && n.child != NO_CHILD;
            if descend {
                let offset = offset_below(n.valid, k);
                proof {
                    assert(step(self.nodes@, index as int, m) == Some(
                        n.child as int + pc_below(n.valid, k as int),
                    ));
                    lemma_step_in_block(
                        self.nodes@,
                        index as int,
                        m,
                        n.child as int + pc_below(n.valid, k as int),
                    );
                }
                index = n.child as usize + offset as usize;
                level = level + 1;
            } else {
                proof {
                    if has_block(n) && bit_set(n.valid, k as u32) {
                        assert(step(self.nodes@, index as int, m) is Some);
                        assert(false);
                    }
                    assert(step(self.nodes@, index as int, m) is None);
                }
                stopped = true;
            }
        }
        proof {
            if !stopped {
                assert(p.skip(p.len() as int) =~= Seq::<u8>::empty());
            }
        }
        Ok((self.nodes[index], index, !stopped))
    }

    /// Strict lookup: the terminal node of the path and its arena index.
    /// Fails with `InvalidMask` if a byte inspected on the way down is not
    /// a one-hot mask, and with `NodeNotFound` if some level's octant is
    /// absent before the path is exhausted.
    pub fn get_node(&self, hierarchy: &[u8]) -> (r: Result<(Node<T>, usize), Error>)
        requires
            self.wf(),
        ensures
            r == if self.path_rejected(hierarchy@) {
                Err::<(Node<T>, usize), Error>(Error::InvalidMask)
            } else if self.lookup_depth(hierarchy@) == hierarchy@.len() {
                Ok::<(Node<T>, usize), Error>(
                    (
                        self.spec_nodes()[self.lookup_index(hierarchy@)],
                        self.lookup_index(hierarchy@) as usize,
                    ),
                )
            } else {
                Err::<(Node<T>, usize), Error>(Error::NodeNotFound)
            },
            !self.path_rejected(hierarchy@) ==> 0 <= self.lookup_index(hierarchy@)
                < self.node_count(),
    {
        match self.descend_path(hierarchy) {
            Ok((node, index, full)) => {
                if full {
                    Ok((node, index))
                } else {
                    Err(Error::NodeNotFound)
                }
            },
            Err(e) => Err(e),
        }
    }

    /// Lenient lookup: the deepest materialized node along the path (the
    /// sought node itself or its nearest materialized ancestor) together
    /// with its arena index, or `InvalidMask` if a byte inspected on the
    /// way down is not a one-hot mask.
    pub fn get_node_or_parent(&self, hierarchy: &[u8]) -> (r: Result<(Node<T>, usize), Error>)
        requires
            self.wf(),
        ensures
            r == if self.path_rejected(hierarchy@) {
                Err::<(Node<T>, usize), Error>(Error::InvalidMask)
            } else {
                Ok::<(Node<T>, usize), Error>(
                    (
                        self.spec_nodes()[self.lookup_index(hierarchy@)],
                        self.lookup_index(hierarchy@) as usize,
                    ),
                )
            },
            !self.path_rejected(hierarchy@) ==> 0 <= self.lookup_index(hierarchy@)
                < self.node_count(),
    {
        match self.descend_path(hierarchy) {
            Ok((node, index, _)) => Ok((node, index)),
            Err(e) => Err(e),
        }
    }

    /// Read-then-write descent entry point: identical strict lookup to
    /// `get_node`, reached through a mutable receiver.
    pub fn get_node_mut(&mut self, hierarchy: &[u8]) -> (r: Result<(Node<T>, usize), Error>)
        requires
            old(self).wf(),
        ensures
            *final(self) == *old(self),
            r == if old(self).path_rejected(hierarchy@) {
                Err::<(Node<T>, usize), Error>(Error::InvalidMask)
            } else if old(self).lookup_depth(hierarchy@) == hierarchy@.len() {
                Ok::<(Node<T>, usize), Error>(
                    (
                        old(self).spec_nodes()[old(self).lookup_index(hierarchy@)],
                        old(self).lookup_index(hierarchy@) as usize,
                    ),
                )
            } else {
                Err::<(Node<T>, usize), Error>(Error::NodeNotFound)
            },
    {
        self.get_node(hierarchy)
    }

    /// True when the deepest materialized node along the path carries a
    /// payload (and the path is not rejected).
    pub fn has_data(&self, hierarchy: &[u8]) -> (r: bool)
        requires
            self.wf(),
        ensures
            r == (!self.path_rejected(hierarchy@) && self.data_along(hierarchy@) is Some),
    {
        let node = match self.get_node_or_parent(hierarchy) {
            Ok((node, _)) => node,
            Err(_) => {
                return false;
            },
        };
        node.data.is_some()
    }

    /// Mutable access to the node at an arena index. The caller takes over
    /// the structural obligations: the contract records the update, not
    /// that well-formedness survives it.
    pub fn get_node_by_index_mut(&mut self, index: usize) -> (r: &mut Node<T>)
        requires
            index < old(self).node_count(),
        ensures
            *r == old(self).spec_nodes()[index as int],
            final(self).spec_nodes() == old(self).spec_nodes().update(index as int, *final(r)),
            final(self).spec_size() == old(self).spec_size(),
    {
        &mut self.nodes[index]
    }

    /// The node at an arena index, if any. Indices are only stable between
    /// compactions: `optimize` invalidates all previously observed indices.
    pub fn get_node_by_index(&self, index: usize) -> (r: Option<&Node<T>>)
        ensures
            r == if index < self.node_count() {
                Some(&self.spec_nodes()[index as int])
            } else {
                None::<&Node<T>>
            },
    {
        if index < self.nodes.len() {
            Some(&self.nodes[index])
        } else {
            None
        }
    }

    /// The raw arena's structural discipline, restated over the public node
    /// accessors for consumers of `nodes()`: the root sits at index 0 with
    /// its zero key; occupancy masks use their low eight bits; a node has a
    /// children block exactly when some occupancy bit is set; blocks hold
    /// one entry per set bit, lie inside the arena clear of the root, never
    /// overlap, and sit strictly above the unit-cell level; and each child's
    /// key is its parent's key accumulator times eight plus its octant.
    pub proof fn lemma_arena_invariant(self)
        requires
            self.wf(),
        ensures
            self.node_count() == self.spec_nodes().len(),
            1 <= self.node_count() <= NODE_CAP,
            self.spec_nodes()[0].spec_morton() == 0,
            forall|i: int|
                0 <= i < self.node_count() ==> (#[trigger] self.spec_nodes()[i]).spec_valid()
                    < 256,
            forall|i: int|
                0 <= i < self.node_count() ==> ((#[trigger] self.spec_nodes()[i]).spec_child()
                    != NO_CHILD <==> self.spec_nodes()[i].spec_valid() != 0),
            forall|i: int|
                0 <= i < self.node_count() && (#[trigger] self.spec_nodes()[i]).spec_child()
                    != NO_CHILD ==> 1 <= self.spec_nodes()[i].spec_child()
                    && self.spec_nodes()[i].spec_child() + popcount8(
                    self.spec_nodes()[i].spec_valid(),
                ) <= self.node_count() && rank8(self.spec_nodes()[i].spec_morton())
                    < self.spec_size(),
            forall|i: int, j: int|
                0 <= i < self.node_count() && 0 <= j < self.node_count() && i != j && (
                #[trigger] self.spec_nodes()[i]).spec_child() != NO_CHILD && (
                #[trigger] self.spec_nodes()[j]).spec_child() != NO_CHILD ==> self.spec_nodes()[i].spec_child()
                    + popcount8(self.spec_nodes()[i].spec_valid())
                    <= self.spec_nodes()[j].spec_child() || self.spec_nodes()[j].spec_child()
                    + popcount8(self.spec_nodes()[j].spec_valid())
                    <= self.spec_nodes()[i].spec_child(),
            forall|i: int, k: u32|
                0 <= i < self.node_count() && k < 8 && #[trigger] bit_set(
                    self.spec_nodes()[i].spec_valid(),
                    k,
                ) ==> self.spec_nodes()[self.spec_nodes()[i].spec_child() + pc_below(
                    self.spec_nodes()[i].spec_valid(),
                    k as int,
                )].spec_morton() as int == (if i == 0 {
                    7int
                } else {
                    self.spec_nodes()[i].spec_morton() as int
                }) * 8 + k,
    {
        assert forall|i: int|
            0 <= i < self.node_count() && (#[trigger] self.spec_nodes()[i]).spec_child()
                != NO_CHILD implies 1 <= self.spec_nodes()[i].spec_child()
            && self.spec_nodes()[i].spec_child() + popcount8(self.spec_nodes()[i].spec_valid())
            <= self.node_count() && rank8(self.spec_nodes()[i].spec_morton())
            < self.spec_size() by {
            assert(has_block(self.nodes@[i]));
        }
    }

    /// Every coordinate path is made of one-hot masks, has one byte per
    /// level, and is never rejected by the lookups.
    pub proof fn lemma_coordinate_path_accepted(self, x: int, y: int, z: int)
        requires
            self.wf(),
        ensures
            !self.path_rejected(path_spec(self.spec_size(), x, y, z)),
            path_spec(self.spec_size(), x, y, z).len() == self.spec_size(),
            forall|j: int|
                0 <= j < path_spec(self.spec_size(), x, y, z).len() ==> one_hot(
                    #[trigger] path_spec(self.spec_size(), x, y, z)[j],
                ),
    {
        lemma_path_one_hot(self.spec_size(), x, y, z);
        lemma_one_hot_no_err(self.nodes@, 0, path_spec(self.spec_size(), x, y, z));
        lemma_path_len(self.spec_size(), x, y, z);
    }

    /// A fully materialized cell has every prefix of its path materialized:
    /// the existence map owes it one bit per ancestor level.
    pub proof fn lemma_cell_ready_prefixes(self, x: int, y: int, z: int, l: int)
        requires
            self.wf(),
            self.cell_materialized(x, y, z),
            0 <= l <= self.spec_size(),
        ensures
            self.lookup_depth(path_spec(self.spec_size(), x, y, z).take(l)) == l,
    {
        lemma_path_len(self.spec_size(), x, y, z);
        lemma_rdepth_prefix(self.nodes@, 0, path_spec(self.spec_size(), x, y, z), l);
    }

    /// The node a fully materialized path resolves to carries exactly the
    /// path's morton code as its key (the root keeps its zero key).
    pub proof fn lemma_resolved_morton(self, p: Seq<u8>)
        requires
            self.wf(),
            self.lookup_depth(p) == p.len(),
        ensures
            self.spec_nodes()[self.lookup_index(p)].spec_morton() as int == if p.len() == 0 {
                0int
            } else {
                morton_code(p)
            },
    {
        lemma_resolve_in_bounds(self.nodes@, 0, p);
        lemma_chain_meff(self.nodes@, 0, p);
        lemma_morton_from_code(p);
        if p.len() > 0 {
            lemma_chain_rank(self.nodes@, 0, p);
            assert(rank8(0u64) == 0);
            assert(rank8(self.nodes@[0].morton) == 0);
            let r = resolve(self.nodes@, 0, p);
            assert(rank8(self.nodes@[r].morton) == p.len());
            assert(r != 0);
        }
    }

    /// Materializes every missing node along the path and returns the arena
    /// index of its terminal node. Rejects paths holding a byte that is not
    /// a one-hot mask, leaving the tree untouched. What every lookup
    /// observes is unchanged: a fresh node inherits the payload of the node
    /// it was split from.
    pub fn add_node(&mut self, hierarchy: &[u8]) -> (r: Result<usize, Error>)
        requires
            old(self).wf(),
            hierarchy@.len() <= old(self).spec_size(),
            old(self).node_count() + 8 * MAX_SIZE <= NODE_CAP,
        ensures
            final(self).wf(),
            final(self).spec_size() == old(self).spec_size(),
            r is Err <==> exists|j: int| 0 <= j < hierarchy@.len() && !one_hot(hierarchy@[j]),
            r is Err ==> r == Err::<usize, Error>(Error::InvalidMask) && *final(self) == *old(self),
            r is Ok ==> {
                &&& r == Ok::<usize, Error>(final(self).lookup_index(hierarchy@) as usize)
                &&& final(self).lookup_depth(hierarchy@) == hierarchy@.len()
                &&& forall|q: Seq<u8>|
                    #[trigger] old(self).data_along(q) == final(self).data_along(q)
                &&& (old(self).lookup_depth(hierarchy@) == hierarchy@.len()
                    ==> final(self).spec_nodes() == old(self).spec_nodes())
                &&& old(self).node_count() <= final(self).node_count() <= old(self).node_count()
                    + 8 * hierarchy@.len()
            },
    {
        let ghost h = hierarchy@;
        let mut v: usize = 0;
        while v < hierarchy.len()
            invariant
                v <= h.len(),
                hierarchy@ == h,
                *self == *old(self),
                old(self).wf(),
                forall|j: int| 0 <= j < v ==> one_hot(#[trigger] h[j]),
            decreases h.len() - v,
        {
            if octant_index(hierarchy[v]) == 8 {
                return Err(Error::InvalidMask);
            }
            v = v + 1;
        }
        let ghost orig = *self;
        let mut index: usize = 0;
        let mut level: usize = 0;
        let mut code: u64 = 7;
        proof {
            assert(h.take(0) =~= Seq::<u8>::empty());
        }
        while level < hierarchy.len()
            invariant
                self.wf(),
                self.size == orig.size,
                hierarchy@ == h,
                level <= h.len() <= self.spec_size(),
                orig.node_count() + 8 * MAX_SIZE <= NODE_CAP,
                forall|j: int| 0 <= j < h.len() ==> one_hot(#[trigger] h[j]),
                0 <= index < self.node_count(),
                code as int == morton_code(h.take(level as int)),
                level > 0 ==> self.spec_nodes()[index as int].morton as int == morton_code(
                    h.take(level as int),
                ),
                rank8(self.spec_nodes()[index as int].morton) == level,
                resolve(self.spec_nodes(), 0, h.take(level as int)) == index,
                rdepth(self.spec_nodes(), 0, h.take(level as int)) == level,
                forall|q: Seq<u8>|
                    #[trigger] resolved_data(orig.spec_nodes(), q) == resolved_data(
                        self.spec_nodes(),
                        q,
                    ),
                orig.node_count() <= self.node_count() <= orig.node_count() + 8 * level,
                rdepth(orig.spec_nodes(), 0, h) == h.len() ==> self.spec_nodes()
                    == orig.spec_nodes(),
            decreases h.len() - level,
        {
            let ghost pre = self.nodes@;
            let ghost prefix = h.take(level as int);
            let m = hierarchy[level];
            let k = octant_index(m);
            proof {
                assert(one_hot(h[level as int]));
                lemma_morton_code_bound(prefix);
                lemma_morton_cap_mono(level as int, 19);
                lemma_morton_cap_val();
                assert(h.take(level as int + 1).drop_last() =~= prefix);
                assert(h.take(level as int + 1).last() == h[level as int]);
                lemma_morton_code_bound(h.take(level as int + 1));
            }
            code = code * 8 + (k as u64);
            let ghost prefix1 = h.take(level as int + 1);
            proof {
                assert(code as int == morton_code(prefix1));
                assert(prefix1 =~= prefix + seq![m]);
                assert(forall|j: int|
                    0 <= j < prefix1.len() ==> one_hot(#[trigger] prefix1[j]));
                lemma_morton_rank(prefix1);
                assert(rank8(code) == level + 1);
            }
            let n = self.nodes[index];
            let ghost old_index = index;
            let descend = (n.valid >> (k as u32)) & 1 == 1;
            if descend {
                let off = offset_below(n.valid, k);
                proof {
                    assert(bit_set(n.valid, k as u32));
                    assert(has_block(n)) by {
                        if n.valid == 0 {
                            lemma_zero_valid_bits(k as u32);
                        }
                    }
                    assert(step(self.nodes@, index as int, m) == Some(
                        n.child as int + pc_below(n.valid, k as int),
                    ));
                    lemma_step_in_block(
                        self.nodes@,
                        index as int,
                        m,
                        n.child as int + pc_below(n.valid, k as int),
                    );
                    lemma_resolve_append(self.nodes@, 0, prefix, seq![m]);
                    let t = n.child as int + pc_below(n.valid, k as int);
                    assert(seq![m].drop_first() =~= Seq::<u8>::empty());
                    assert(resolve(self.nodes@, t, Seq::<u8>::empty()) == t);
                    assert(resolve(self.nodes@, index as int, seq![m]) == t);
                    assert(rdepth(self.nodes@, t, Seq::<u8>::empty()) == 0);
                    assert(rdepth(self.nodes@, index as int, seq![m]) == 1);
                    assert(prefix + seq![m] == prefix1);
                    assert(resolve(self.nodes@, 0, prefix1) == t);
                    assert(rdepth(self.nodes@, 0, prefix1) == level + 1);
                }
                index = n.child as usize + off as usize;
                proof {
                    assert(self.spec_nodes()[index as int].morton as int == meff(
                        self.spec_nodes(),
                        old_index as int,
                    ) * 8 + k);
                    if level == 0 {
                        assert(prefix =~= Seq::<u8>::empty());
                        assert(old_index == 0);
                    }
                    assert(meff(self.spec_nodes(), old_index as int) == morton_code(prefix));
                    assert(mask_octant(m) == k as int);
                    assert(self.spec_nodes()[index as int].morton as int == morton_code(prefix1));
                }
            } else {
                // Materialize the octant: relocate the sibling block to the
                // end of the arena, one entry longer.
                proof {
                    assert(!bit_set(n.valid, k as u32));
                    lemma_pc_below_bounds(n.valid, 8);
                    lemma_pc_or(n.valid, k as u32, 8);
                    lemma_pc_below_bounds((n.valid | (1u32 << (k as u32))), 8);
                    assert(popcount8(n.valid) <= 7);
                    lemma_pc_below_bounds(n.valid, k as int);
                    lemma_pc_below_mono(n.valid, k as int, 8);
                }
                let ghost ip = index as int;
                let ghost full = split_nodes(pre, ip, k as u32, code);
                let newfam_us = self.nodes.len();
                let newfam: u32 = newfam_us as u32;
                let pcnt = offset_below(n.valid, 8);
                let off = offset_below(n.valid, k);
                let mut parent = n;
                parent.valid = n.valid | (1u32 << (k as u32));
                parent.child = newfam;
                self.nodes[index] = parent;
                proof {
                    assert(!in_block(pre[ip], ip)) by {
                        if in_block(pre[ip], ip) {
                        }
                    }
                    if pcnt > 0 {
                        lemma_block_nonempty(pre, ip);
                    }
                }
                let mut jj: u32 = 0;
                while jj < pcnt + 1
                    invariant
                        wf_nodes(pre),
                        0 <= ip < pre.len(),
                        n == pre[ip],
                        (k as int) < 8,
                        !bit_set(n.valid, k as u32),
                        pcnt as int == popcount8(n.valid),
                        pcnt <= 7,
                        off as int == pc_below(n.valid, k as int),
                        off <= pcnt,
                        pcnt > 0 ==> has_block(n) && 1 <= blk_start(n) && blk_start(n) + pcnt
                            <= pre.len(),
                        parent == split_parent(n, k as u32, pre.len() as u32),
                        full == split_nodes(pre, ip, k as u32, code),
                        full.len() == pre.len() + pcnt + 1,
                        jj <= pcnt + 1,
                        self.nodes@.len() == pre.len() + jj,
                        self.size == orig.size,
                        forall|i: int|
                            0 <= i < pre.len() ==> self.nodes@[i] == pre.update(ip, parent)[i],
                        forall|j: int|
                            0 <= j < jj ==> #[trigger] self.nodes@[pre.len() + j] == full[pre.len()
                                + j],
                    decreases pcnt + 1 - jj,
                {
                    if jj == off {
                        self.nodes.push(
                            Node { child: NO_CHILD, valid: 0, morton: code, data: n.data },
                        );
                        proof {
                            assert(full[pre.len() + jj] == fresh_node(code, n.data));
                        }
                    } else if jj < off {
                        proof {
                            if n.valid == 0 {
                                lemma_pc_below_zero(k as int);
                            }
                            lemma_block_nonempty(pre, ip);
                            assert(n.child as int + jj < pre.len());
                            assert(in_block(pre[ip], n.child as int + jj));
                            assert(n.child as int + jj != ip);
                        }
                        let s = self.nodes[n.child as usize + jj as usize];
                        proof {
                            assert(s == pre[n.child as int + jj]);
                            assert(full[pre.len() + jj] == pre[blk_start(n) + jj]);
                        }
                        self.nodes.push(s);
                    } else {
                        proof {
                            lemma_block_nonempty(pre, ip);
                            assert(n.child as int + (jj - 1) < pre.len());
                            assert(in_block(pre[ip], n.child as int + (jj - 1)));
                            assert(n.child as int + (jj - 1) != ip);
                        }
                        let s = self.nodes[n.child as usize + (jj - 1) as usize];
                        proof {
                            assert(s == pre[n.child as int + (jj - 1)]);
                            assert(full[pre.len() + jj] == pre[blk_start(n) + jj - 1]);
                        }
                        self.nodes.push(s);
                    }
                    jj = jj + 1;
                }
                proof {
                    lemma_split_shape(pre, ip, k as u32, code);
                    assert(!in_block(pre[ip], ip)) by {
                        if in_block(pre[ip], ip) {
                        }
                    }
                    assert forall|i: int| 0 <= i < self.nodes@.len() implies self.nodes@[i] == (
                    if pcnt > 0 && blk_start(n) + 0 <= i < blk_start(n) + pcnt {
                        pre[i]
                    } else {
                        full[i]
                    }) by {
                        if i < pre.len() {
                            assert(self.nodes@[i] == pre.update(ip, parent)[i]);
                            if pcnt > 0 && blk_start(n) <= i < blk_start(n) + pcnt {
                                assert(in_block(pre[ip], i));
                                assert(i != ip);
                            } else if i == ip {
                                assert(full[ip] == split_parent(
                                    pre[ip],
                                    k as u32,
                                    pre.len() as u32,
                                ));
                            } else {
                                assert(!in_block(pre[ip], i));
                                assert(full[i] == pre[i]);
                            }
                        } else {
                            let j = i - pre.len();
                            assert(self.nodes@[pre.len() + j] == full[pre.len() + j]);
                        }
                    }
                }
                let mut jt: u32 = 0;
                while jt < pcnt
                    invariant
                        wf_nodes(pre),
                        0 <= ip < pre.len(),
                        n == pre[ip],
                        (k as int) < 8,
                        pcnt as int == popcount8(n.valid),
                        pcnt <= 7,
                        jt <= pcnt,
                        pcnt > 0 ==> has_block(n) && 1 <= blk_start(n) && blk_start(n) + pcnt
                            <= pre.len(),
                        full == split_nodes(pre, ip, k as u32, code),
                        full.len() == pre.len() + pcnt + 1,
                        self.nodes@.len() == full.len(),
                        self.size == orig.size,
                        forall|i: int|
                            0 <= i < self.nodes@.len() ==> self.nodes@[i] == (if pcnt > 0
                                && blk_start(n) + jt <= i < blk_start(n) + pcnt {
                                pre[i]
                            } else {
                                full[i]
                            }),
                    decreases pcnt - jt,
                {
                    proof {
                        assert(in_block(pre[ip], blk_start(n) + jt));
                        assert(blk_start(n) + jt != ip);
                        assert(full[blk_start(n) + jt] == tomb_node::<T>());
                    }
                    self.nodes[n.child as usize + jt as usize] = Node {
                        child: NO_CHILD,
                        valid: 0,
                        morton: TOMBSTONE,
                        data: None,
                    };
                    jt = jt + 1;
                }
                proof {
                    assert(self.nodes@ =~= split_nodes(pre, ip, k as u32, code));
                }
                index = newfam_us + off as usize;
                proof {
                    let new = split_nodes(pre, ip, k as u32, code);
                    assert(pre.len() + blk_len(pre[ip]) + 1 <= NODE_CAP) by {
                        assert(blk_len(pre[ip]) <= 7);
                        assert(8 * level + 8 <= 8 * MAX_SIZE);
                    }
                    assert(code as int == meff(pre, ip) * 8 + k) by {
                        if level == 0 {
                            assert(prefix =~= Seq::<u8>::empty());
                            assert(ip == 0);
                        }
                        assert(meff(pre, ip) == morton_code(prefix));
                        assert(mask_octant(m) == k as int);
                    }
                    lemma_split_wf(pre, ip, k as u32, code);
                    lemma_split_chain(pre, ip, k as u32, code, 0, prefix);
                    lemma_split_shape(pre, ip, k as u32, code);
                    lemma_or_bits(n.valid, k as u32, k as u32);
                    lemma_pc_or(n.valid, k as u32, k as int);
                    let t = pre.len() + pc_below(n.valid, k as int);
                    assert(new[ip] == split_parent(pre[ip], k as u32, pre.len() as u32));
                    assert(bit_set(new[ip].valid, k as u32));
                    assert(step(new, ip, m) == Some(t));
                    lemma_resolve_append(new, 0, prefix, seq![m]);
                    assert(seq![m].drop_first() =~= Seq::<u8>::empty());
                    assert(resolve(new, t, Seq::<u8>::empty()) == t);
                    assert(resolve(new, ip, seq![m]) == t);
                    assert(rdepth(new, t, Seq::<u8>::empty()) == 0);
                    assert(rdepth(new, ip, seq![m]) == 1);
                    assert(prefix + seq![m] == prefix1);
                    assert(t == index);
                    assert(resolve(new, 0, prefix1) == index);
                    assert(rdepth(new, 0, prefix1) == level + 1);
                    assert(new[index as int] == fresh_node(code, pre[ip].data));
                    assert(new[index as int].morton as int == morton_code(prefix1));
                    assert(rank8(new[index as int].morton) == level + 1);
                    assert forall|i2: int|
                        0 <= i2 < new.len() && has_block(#[trigger] new[i2]) implies rank8(
                        new[i2].morton,
                    ) < self.spec_size() by {
                        lemma_split_owner(pre, ip, k as u32, code, i2);
                        if i2 == ip {
                            assert(new[ip].morton == pre[ip].morton);
                        } else if i2 == pre.len() + pc_below(pre[ip].valid, k as int) {
                            assert(new[i2] == fresh_node(code, pre[ip].data));
                        } else if i2 < pre.len() && in_block(pre[ip], i2) {
                            assert(new[i2] == tomb_node::<T>());
                        } else {
                            let oi = split_owner(pre, ip, k as u32, i2);
                            assert(new[i2] == pre[oi]);
                        }
                    }
                    assert forall|q: Seq<u8>| #[trigger] resolved_data(orig.spec_nodes(), q)
                        == resolved_data(new, q) by {
                        lemma_split_preserves(pre, ip, k as u32, code, 0, 0, q);
                        if has_block(pre[ip]) {
                            assert(!in_block(pre[ip], 0));
                        }
                        assert(split_rel(pre, ip, k as u32, 0, 0));
                        lemma_resolve_in_bounds(pre, 0, q);
                        lemma_resolve_in_bounds(new, 0, q);
                    }
                    // A split can only happen off the already-materialized
                    // trunk, so a fully materialized path sees none.
                    if rdepth(orig.spec_nodes(), 0, h) == h.len() {
                        lemma_resolve_append(pre, 0, prefix, h.skip(level as int));
                        assert(prefix + h.skip(level as int) =~= h);
                        assert(h.skip(level as int)[0] == m);
                        assert(false);
                    }
                }
            }
            level = level + 1;
        }
        proof {
            assert(h.take(h.len() as int) =~= h);
            assert forall|q: Seq<u8>| #[trigger] orig.data_along(q) == self.data_along(q) by {
                assert(resolved_data(orig.spec_nodes(), q) == resolved_data(self.spec_nodes(), q));
            }
        }
        Ok(index)
    }
}

// ---------------------------------------------------------------------------
// Compaction: the canonical two-array rebuild.
// ---------------------------------------------------------------------------

/// Invariant of the breadth-first copy in `rebuild_pass`. `on` is the old
/// arena, `out` the new one, `i` the next entry to process. `src[j]` is the
/// old index whose node entry `j` carries; `par[j]` is the entry whose block
/// `j` belongs to. Entries before `i` have their child pointer rewritten to
/// their relocated block; entries from `i` on are verbatim copies.
#[verifier::opaque]
spec fn rb_inv<T>(on: Seq<Node<T>>, out: Seq<Node<T>>, src: Seq<int>, par: Seq<int>, i: int) -> bool {
    &&& wf_nodes(on)
    &&& src.len() == out.len()
    &&& par.len() == out.len()
    &&& 1 <= out.len()
    &&& src[0] == 0
    &&& 0 <= i <= out.len()
    &&& forall|j: int| 0 <= j < out.len() ==> 0 <= #[trigger] src[j] < on.len()
    &&& forall|j: int|
        1 <= j < out.len() ==> {
            let pj = #[trigger] par[j];
            &&& 0 <= pj < i
            &&& pj < j
            &&& has_block(out[pj])
            &&& in_block(out[pj], j)
            &&& src[j] == blk_start(on[src[pj]]) + (j - blk_start(out[pj]))
            &&& in_block(on[src[pj]], src[j])
        }
    &&& forall|j: int| i <= j < out.len() ==> #[trigger] out[j] == on[src[j]]
    &&& forall|j: int|
        0 <= j < i ==> (#[trigger] out[j]).valid == on[src[j]].valid && out[j].morton
            == on[src[j]].morton && out[j].data == on[src[j]].data
    &&& forall|j: int| 0 <= j < i ==> (has_block(#[trigger] out[j]) <==> out[j].valid != 0)
    &&& forall|j: int|
        0 <= j < i && has_block(#[trigger] out[j]) ==> 1 <= blk_start(out[j]) && blk_start(out[j])
            + blk_len(out[j]) <= out.len() && blk_start(out[j]) > j
    &&& forall|j: int, t: int|
        0 <= j < i && #[trigger] in_block(out[j], t) ==> src[t] == blk_start(on[src[j]]) + (t
            - blk_start(out[j]))
    &&& forall|j1: int, j2: int|
        0 <= j1 < j2 < out.len() ==> (#[trigger] out[j1]).morton < (#[trigger] out[j2]).morton
    &&& forall|j: int|
        1 <= j < out.len() ==> 56 <= (#[trigger] out[j]).morton && meff(on, src[par[j]]) * 8
            <= out[j].morton as int <= meff(on, src[par[j]]) * 8 + 7
}

/// True when every child pointer leads strictly forward in the arena, as a
/// breadth-first layout guarantees.
pub open spec fn forward_linked<T>(nodes: Seq<Node<T>>) -> bool {
    forall|j: int|
        0 <= j < nodes.len() && (#[trigger] nodes[j]).spec_child() != NO_CHILD ==> j
            < nodes[j].spec_child()
}

/// A node the merge pass of `optimize` eliminates: fully occupied, its
/// eight children all leaves carrying one shared present payload.
pub open spec fn collapsible<T>(nodes: Seq<Node<T>>, i: int) -> bool {
    &&& 0 <= i < nodes.len()
    &&& nodes[i].spec_valid() == 255
    &&& nodes[i].spec_child() != NO_CHILD
    &&& forall|t: int|
        nodes[i].spec_child() <= t < nodes[i].spec_child() + 8 ==> 0 <= t < nodes.len() && (
        #[trigger] nodes[t]).spec_child() == NO_CHILD && nodes[t].spec_data() is Some
            && nodes[t].spec_data() == nodes[nodes[i].spec_child() as int].spec_data()
}

/// Entries carry pairwise distinct old nodes: two entries of one block have
/// distinct offsets, and the blocks of distinct parents are disjoint.
proof fn lemma_rb_src_pair<T>(
    on: Seq<Node<T>>,
    out: Seq<Node<T>>,
    src: Seq<int>,
    par: Seq<int>,
    i: int,
    j1: int,
    j2: int,
)
    requires
        rb_inv(on, out, src, par, i),
        0 <= j1 < j2 < out.len(),
    ensures
        src[j1] != src[j2],
    decreases j2,
{
    reveal(rb_inv);
    if j1 == 0 {
        assert(in_block(on[src[par[j2]]], src[j2]));
        assert(1 <= blk_start(on[src[par[j2]]]));
    } else {
        let p1 = par[j1];
        let p2 = par[j2];
        if p1 == p2 {
            assert(in_block(out[p1], j1) && in_block(out[p1], j2));
        } else {
            if p1 < p2 {
                lemma_rb_src_pair(on, out, src, par, i, p1, p2);
            } else {
                lemma_rb_src_pair(on, out, src, par, i, p2, p1);
            }
            assert(src[p1] != src[p2]);
            assert(in_block(on[src[p1]], src[j1]));
            assert(in_block(on[src[p2]], src[j2]));
            assert(has_block(on[src[p1]]) && has_block(on[src[p2]]));
        }
    }
}

/// The copy never outgrows the old arena: its entries carry pairwise
/// distinct old indices.
proof fn lemma_rb_len<T>(on: Seq<Node<T>>, out: Seq<Node<T>>, src: Seq<int>, par: Seq<int>, i: int)
    requires
        rb_inv(on, out, src, par, i),
    ensures
        src.no_duplicates(),
        out.len() <= on.len(),
{
    reveal(rb_inv);
    assert forall|j1: int, j2: int| 0 <= j1 < src.len() && 0 <= j2 < src.len() && j1
        != j2 implies src[j1] != src[j2] by {
        if j1 < j2 {
            lemma_rb_src_pair(on, out, src, par, i, j1, j2);
        } else {
            lemma_rb_src_pair(on, out, src, par, i, j2, j1);
        }
    }
    src.unique_seq_to_set();
    vstd::set_lib::lemma_int_range(0, on.len() as int);
    assert(src.to_set().subset_of(vstd::set_lib::set_int_range(0, on.len() as int))) by {
        assert forall|v: int| src.to_set().contains(v) implies 0 <= v < on.len() by {
            let j = choose|j: int| 0 <= j < src.len() && src[j] == v;
        }
    }
    vstd::set_lib::lemma_len_subset(
        src.to_set(),
        vstd::set_lib::set_int_range(0, on.len() as int),
    );
}

/// After the copy is complete, every lookup observes through the new arena
/// exactly what it observed through the old one.
proof fn lemma_rb_preserves<T>(
    on: Seq<Node<T>>,
    out: Seq<Node<T>>,
    src: Seq<int>,
    par: Seq<int>,
    jn: int,
    q: Seq<u8>,
)
    requires
        rb_inv(on, out, src, par, out.len() as int),
        0 <= jn < out.len(),
    ensures
        data_at(on, resolve(on, src[jn], q)) == data_at(out, resolve(out, jn, q)),
    decreases q.len(),
{
    reveal(rb_inv);
    let io = src[jn];
    if q.len() > 0 {
        let kq = mask_octant(q[0]);
        if kq < 8 && has_block(out[jn]) && bit_set(out[jn].valid, kq as u32) {
            assert(has_block(on[io])) by {
                if on[io].valid == 0 {
                    lemma_zero_valid_bits(kq as u32);
                }
            }
            let off = pc_below(on[io].valid, kq);
            let told = blk_start(on[io]) + off;
            let tnew = blk_start(out[jn]) + off;
            assert(step(on, io, q[0]) == Some(told));
            lemma_step_in_block(on, io, q[0], told);
            lemma_offset_in_block(out[jn].valid, kq);
            assert(in_block(out[jn], tnew));
            assert(step(out, jn, q[0]) == Some(tnew));
            assert(src[tnew] == told);
            assert(0 <= tnew < out.len());
            lemma_rb_preserves(on, out, src, par, tnew, q.drop_first());
        } else {
            assert(step(out, jn, q[0]) is None);
            assert(step(on, io, q[0]) is None) by {
                if kq < 8 && has_block(on[io]) && bit_set(on[io].valid, kq as u32) {
                    assert(has_block(out[jn]) <==> out[jn].valid != 0);
                    if out[jn].valid == 0 {
                        lemma_zero_valid_bits(kq as u32);
                    }
                }
            }
        }
    }
}

impl<T: Copy> SparseOctree<T> {
    /// Compaction pass: a breadth-first copy into a fresh arena. Tombstoned
    /// and unreachable entries are dropped, survivors land in canonical
    /// order (each parent's relocated block keeps octant order, level by
    /// level, which is ascending morton order), and every surviving child
    /// pointer is rewritten to its relocated block.
    #[verifier::rlimit(100)]
    #[verifier::spinoff_prover]
    fn rebuild_pass(&mut self)
        requires
            old(self).wf(),
        ensures
            final(self).wf(),
            final(self).spec_size() == old(self).spec_size(),
            final(self).node_count() <= old(self).node_count(),
            forall|q: Seq<u8>| #[trigger] old(self).data_along(q) == final(self).data_along(q),
            final(self).spec_nodes()[0].spec_morton() == 0,
            forall|j1: int, j2: int|
                0 <= j1 < j2 < final(self).node_count() ==> (
                #[trigger] final(self).spec_nodes()[j1]).spec_morton() < (
                #[trigger] final(self).spec_nodes()[j2]).spec_morton(),
            forall|j: int|
                0 <= j < final(self).node_count() ==> (
                #[trigger] final(self).spec_nodes()[j]).spec_morton() != TOMBSTONE,
            forward_linked(final(self).spec_nodes()),
            (forall|w: int| !(#[trigger] collapsible(old(self).spec_nodes(), w))) ==> (forall|
            j: int|
                !collapsible(final(self).spec_nodes(), j)),
    {
        let ghost on = self.nodes@;
        let (out, ghost_src, ghost_par) = self.rebuild_core();
        let ghost src = ghost_src@;
        let ghost par = ghost_par@;
        self.nodes = out;
        proof {
            let nn = self.nodes@;
            assert(on == old(self).spec_nodes());
            assert(nn == self.spec_nodes());
            assert(rb_inv(on, nn, src, par, nn.len() as int));
            lemma_rb_shape(on, nn, src, par, self.spec_size());
            if forall|w: int| #[trigger] collapsible(old(self).spec_nodes(), w) == false {
                assert forall|w: int| !collapsible(on, w) by {
                    assert(collapsible(old(self).spec_nodes(), w) == false);
                }
                lemma_rb_nocollapse(on, nn, src, par);
                assert forall|j: int| !collapsible(self.spec_nodes(), j) by {
                    assert(!collapsible(nn, j));
                }
            }
            lemma_rb_keep(on, nn, src, par);
            assert forall|q: Seq<u8>| #[trigger] old(self).data_along(q) == self.data_along(
                q,
            ) by {
                assert(resolved_data(on, q) == resolved_data(nn, q));
            }
        }
    }

    /// The breadth-first copy itself, with the correspondence to the old
    /// arena handed back as ghost data.
    #[verifier::rlimit(100)]
    fn rebuild_core(&self) -> (r: (Vec<Node<T>>, Ghost<Seq<int>>, Ghost<Seq<int>>))
        requires
            self.wf(),
        ensures
            rb_inv(self.nodes@, r.0@, r.1@, r.2@, r.0@.len() as int),
            r.0@.len() <= self.nodes@.len(),
    {
        let ghost on = self.nodes@;
        let mut out: Vec<Node<T>> = Vec::new();
        let root = self.nodes[0];
        out.push(root);
        let ghost mut src: Seq<int> = seq![0int];
        let ghost mut par: Seq<int> = seq![0int];
        let mut i: usize = 0;
        proof {
            reveal(rb_inv);
            assert(rb_inv(on, out@, src, par, 0));
        }
        while i < out.len()
            invariant
                self.wf(),
                self.nodes@ == on,
                rb_inv(on, out@, src, par, i as int),
                i <= out@.len(),
                out@.len() <= on.len(),
            decreases on.len() - i,
        {
            let n = out[i];
            proof {
                reveal(rb_inv);
                assert(out@[i as int] == on[src[i as int]]);
            }
            if n.valid != 0 {
                proof {
                    assert(has_block(on[src[i as int]]));
                    lemma_pc_below_bounds(n.valid, 8);
                }
                let ob = n.child as usize;
                let pcnt = offset_below(n.valid, 8);
                let newstart = out.len();
                let ghost out0 = out@;
                let ghost src0 = src;
                let ghost par0 = par;
                let ghost pm = meff(on, src0[i as int]);
                proof {
                    reveal(rb_inv);
                    if i > 0 {
                        assert(in_block(on[src0[par0[i as int]]], src0[i as int]));
                        assert(1 <= blk_start(on[src0[par0[i as int]]]));
                        assert(src0[i as int] != 0);
                        assert(out0[i as int] == on[src0[i as int]]);
                        assert(pm == out0[i as int].morton);
                        assert(56 <= pm);
                    } else {
                        assert(src0[0] == 0);
                        assert(pm == 7);
                    }
                    // The keys the relocated block will carry, and that
                    // every key so far sits below them.
                    assert forall|t2: int|
                        #![trigger oct_at(n.valid, t2)]
                        0 <= t2 < pcnt implies on[ob + t2].morton as int == pm * 8 + oct_at(
                        n.valid,
                        t2,
                    ) && 56 <= on[ob + t2].morton && oct_at(n.valid, t2) < 8 by {
                        lemma_oct_at_props(n.valid, t2);
                        let k = oct_at(n.valid, t2);
                        assert(bit_set(on[src0[i as int]].valid, k));
                        assert(on[blk_start(on[src0[i as int]]) + pc_below(
                            on[src0[i as int]].valid,
                            k as int,
                        )].morton as int == meff(on, src0[i as int]) * 8 + k);
                    }
                    assert forall|j: int| 0 <= j < out0.len() implies (
                    #[trigger] out0[j]).morton < pm * 8 by {
                        if j == i as int {
                            if i == 0 {
                                assert(out0[0] == on[src0[0]]);
                                assert(on[0].morton == 0);
                            }
                        } else if j >= 1 {
                            assert(0 <= par0[j] < i as int);
                            assert(56 <= out0[j].morton && meff(on, src0[par0[j]]) * 8
                                <= out0[j].morton as int <= meff(on, src0[par0[j]]) * 8 + 7);
                            assert(meff(on, src0[par0[j]]) < pm) by {
                                if par0[j] == 0 {
                                    assert(meff(on, src0[0]) == 7);
                                    assert(i >= 1);
                                } else {
                                    assert(out0[par0[j]].morton == on[src0[par0[j]]].morton);
                                    assert(out0[par0[j]].morton < out0[i as int].morton);
                                }
                            }
                        } else {
                            assert(j == 0 && i as int >= 1);
                            assert(out0[0].morton == on[src0[0]].morton);
                            assert(on[0].morton == 0);
                        }
                    }
                }
                let mut t: u32 = 0;
                while t < pcnt
                    invariant
                        self.wf(),
                        self.nodes@ == on,
                        on.len() <= NODE_CAP,
                        n.valid < 256,
                        t <= pcnt,
                        0 <= src0[i as int] < on.len(),
                        n == on[src0[i as int]],
                        0 <= (i as int) < out0.len(),
                        ob == n.child as int,
                        pcnt as int == blk_len(n),
                        has_block(n),
                        blk_start(n) + blk_len(n) <= on.len(),
                        1 <= blk_start(n),
                        newstart == out0.len(),
                        out@.len() == out0.len() + t,
                        src.len() == out@.len(),
                        par.len() == out@.len(),
                        out0.len() <= on.len(),
                        7 <= pm,
                        pm == meff(on, src0[i as int]),
                        forall|j: int| 0 <= j < out0.len() ==> (#[trigger] out0[j]).morton < pm * 8,
                        forall|j: int| 0 <= j < out0.len() ==> #[trigger] out@[j] == out0[j],
                        forall|j: int| 0 <= j < out0.len() ==> #[trigger] src[j] == src0[j],
                        forall|j: int| 0 <= j < out0.len() ==> #[trigger] par[j] == par0[j],
                        forall|j: int|
                            out0.len() <= j < out@.len() ==> #[trigger] src[j] == ob + (j
                                - out0.len()) && par[j] == i && out@[j] == on[src[j]]
                                && out@[j].morton as int == pm * 8 + oct_at(n.valid, j
                                - out0.len()) && 56 <= out@[j].morton,
                        forall|j1: int, j2: int|
                            0 <= j1 < j2 < out@.len() ==> (#[trigger] out@[j1]).morton < (
                            #[trigger] out@[j2]).morton,
                    decreases pcnt - t,
                {
                    let ghost w = out@.len() as int;
                    let ch = self.nodes[ob + t as usize];
                    proof {
                        lemma_oct_at_props(n.valid, t as int);
                        let k = oct_at(n.valid, t as int);
                        assert(bit_set(self.nodes@[src0[i as int]].valid, k));
                        assert(self.nodes@[blk_start(self.nodes@[src0[i as int]]) + pc_below(
                            self.nodes@[src0[i as int]].valid,
                            k as int,
                        )].morton as int == meff(self.nodes@, src0[i as int]) * 8 + k);
                        assert(meff(self.nodes@, src0[i as int]) == meff(on, src0[i as int]));
                        assert(ch == on[ob + t as int]);
                        assert(ch.morton as int == pm * 8 + k);
                        assert(56 <= ch.morton);
                    }
                    let ghost src_pre = src;
                    let ghost par_pre = par;
                    let ghost out_pre = out@;
                    out.push(ch);
                    proof {
                        src = src.push(ob + t as int);
                        par = par.push(i as int);
                        // The new entry's key exceeds everything before it.
                        assert(out@[w].morton as int == pm * 8 + oct_at(n.valid, t as int));
                        assert(src[w] == ob + (w - out0.len()) && par[w] == i);
                        assert(out@[w] == on[src[w]]);
                        assert forall|j: int|
                            out0.len() <= j < out@.len() implies #[trigger] src[j] == ob + (j
                            - out0.len()) && par[j] == i && out@[j] == on[src[j]]
                            && out@[j].morton as int == pm * 8 + oct_at(n.valid, j - out0.len())
                            && 56 <= out@[j].morton by {
                            if j < w {
                                assert(src_pre[j] == ob + (j - out0.len()) && par_pre[j] == i
                                    && out_pre[j] == on[src_pre[j]] && out_pre[j].morton as int
                                    == pm * 8 + oct_at(n.valid, j - out0.len()) && 56
                                    <= out_pre[j].morton);
                                assert(src[j] == src_pre[j] && par[j] == par_pre[j] && out@[j]
                                    == out_pre[j]);
                            }
                        }
                        assert forall|j: int| 0 <= j < w implies out@[j].morton
                            < out@[w].morton by {
                            if j < out0.len() {
                                assert(out@[j] == out0[j]);
                                assert(out0[j].morton < pm * 8);
                            } else {
                                assert(src[j] == ob + (j - out0.len()));
                                assert(out@[j].morton as int == pm * 8 + oct_at(
                                    n.valid,
                                    j - out0.len(),
                                ));
                                lemma_oct_at_increasing(n.valid, j - out0.len(), t as int);
                            }
                        }
                    }
                    t = t + 1;
                }
                let mut nn = n;
                nn.child = newstart as u32;
                let ghost pre_rewrite = out@;
                out[i] = nn;
                proof {
                    reveal(rb_inv);
                    assert(rb_inv(on, out@, src, par, i as int + 1)) by {
                        assert(out@[i as int] == nn);
                        assert(nn.valid == on[src[i as int]].valid);
                        assert(has_block(nn));
                        assert(blk_start(nn) == newstart && blk_len(nn) == pcnt);
                        assert forall|j: int| 1 <= j < out@.len() implies {
                            let pj = #[trigger] par[j];
                            &&& 0 <= pj < i as int + 1
                            &&& pj < j
                            &&& has_block(out@[pj])
                            &&& in_block(out@[pj], j)
                            &&& src[j] == blk_start(on[src[pj]]) + (j - blk_start(out@[pj]))
                            &&& in_block(on[src[pj]], src[j])
                        } by {
                            if j < out0.len() {
                                assert(par[j] == par0[j] && src[j] == src0[j]);
                                if par0[j] == i as int {
                                    assert(in_block(out0[par0[j]], j));
                                    assert(false);
                                }
                                assert(out@[par0[j]] == out0[par0[j]]);
                            } else {
                                assert(out0.len() <= j < out0.len() + pcnt);
                                assert(src[j] == ob + (j - out0.len()));
                                assert(par[j] == i as int);
                                assert(src[j] == ob + (j - newstart));
                                assert(in_block(out@[i as int], j));
                                assert(in_block(on[src[i as int]], src[j]));
                            }
                        }
                        assert forall|j: int, t2: int|
                            0 <= j < i as int + 1 && #[trigger] in_block(out@[j], t2) implies
                        src[t2] == blk_start(on[src[j]]) + (t2 - blk_start(out@[j])) by {
                            if j < i as int {
                                assert(out@[j] == out0[j]);
                                assert(in_block(out0[j], t2));
                                assert(blk_start(out0[j]) + blk_len(out0[j]) <= out0.len());
                                assert(src[t2] == src0[t2]);
                            } else {
                                assert(newstart <= t2 < newstart + pcnt);
                            }
                        }
                        // The child-pointer rewrite moves no morton key.
                        assert forall|j1: int, j2: int|
                            0 <= j1 < j2 < out@.len() implies (#[trigger] out@[j1]).morton < (
                        #[trigger] out@[j2]).morton by {
                            assert(out@[j1].morton == pre_rewrite[j1].morton);
                            assert(out@[j2].morton == pre_rewrite[j2].morton);
                        }
                        assert forall|j: int| 1 <= j < out@.len() implies 56 <= (
                        #[trigger] out@[j]).morton && meff(on, src[par[j]]) * 8
                            <= out@[j].morton as int <= meff(on, src[par[j]]) * 8 + 7 by {
                            assert(out@[j].morton == pre_rewrite[j].morton);
                            if j < out0.len() {
                                assert(par[j] == par0[j] && src[par0[j]] == src0[par0[j]]);
                                assert(pre_rewrite[j].morton == out0[j].morton);
                            } else {
                                assert(par[j] == i as int);
                                assert(pre_rewrite[j].morton as int == pm * 8 + oct_at(
                                    n.valid,
                                    j - out0.len(),
                                ));
                                lemma_oct_at_props(n.valid, j - out0.len());
                            }
                        }
                    }
                    lemma_rb_len(on, out@, src, par, i as int + 1);
                }
            } else {
                proof {
                    reveal(rb_inv);
                    assert(!has_block(on[src[i as int]]));
                    assert(rb_inv(on, out@, src, par, i as int + 1)) by {
                        assert(out@[i as int] == on[src[i as int]]);
                        assert(!has_block(out@[i as int]));
                    }
                }
            }
            i = i + 1;
        }
        proof {
            lemma_rb_len(on, out@, src, par, i as int);
        }
        (out, Ghost(src), Ghost(par))
    }
}

/// The rebuilt arena is well formed at every depth and has the canonical
/// shape: root key zero, forward child links, no tombstone keys, strictly
/// ascending morton order.
#[verifier::rlimit(100)]
proof fn lemma_rb_shape<T>(on: Seq<Node<T>>, nn: Seq<Node<T>>, src: Seq<int>, par: Seq<int>, size: int)
    requires
        rb_inv(on, nn, src, par, nn.len() as int),
        depth_bounded(on, size),
        1 <= size <= MAX_SIZE,
    ensures
        wf_nodes(nn),
        depth_bounded(nn, size),
        forward_linked(nn),
        forall|j: int| 0 <= j < nn.len() ==> (#[trigger] nn[j]).morton != TOMBSTONE,
        forall|j1: int, j2: int|
            0 <= j1 < j2 < nn.len() ==> (#[trigger] nn[j1]).morton < (#[trigger] nn[j2]).morton,
{
    reveal(rb_inv);
    lemma_rb_len(on, nn, src, par, nn.len() as int);
    // Well-formedness of the rebuilt arena.
    assert(wf_nodes(nn)) by {
        assert forall|a: int, b: int|
            0 <= a < nn.len() && 0 <= b < nn.len() && a != b && has_block(
                #[trigger] nn[a],
            ) && has_block(#[trigger] nn[b]) implies blk_start(nn[a]) + blk_len(nn[a])
            <= blk_start(nn[b]) || blk_start(nn[b]) + blk_len(nn[b]) <= blk_start(
            nn[a],
        ) by {
            if !(blk_start(nn[a]) + blk_len(nn[a]) <= blk_start(nn[b]) || blk_start(nn[b])
                + blk_len(nn[b]) <= blk_start(nn[a])) {
                lemma_nonzero_has_bit(nn[a].valid);
                lemma_nonzero_has_bit(nn[b].valid);
                let w = if blk_start(nn[a]) <= blk_start(nn[b]) {
                    blk_start(nn[b])
                } else {
                    blk_start(nn[a])
                };
                assert(in_block(nn[a], w) && in_block(nn[b], w));
                assert(0 <= w < nn.len());
                lemma_rb_block_same(on, nn, src, par, a, b, w);
            }
        }
        assert forall|a: int, b: int|
            0 <= a < nn.len() && 0 <= b < nn.len() && #[trigger] in_block(nn[a], b) implies
        rank8(nn[b].morton) == rank8(nn[a].morton) + 1 by {
            assert(src[b] == blk_start(on[src[a]]) + (b - blk_start(nn[a])));
            assert(in_block(on[src[a]], src[b]));
            assert(nn[b].morton == on[src[b]].morton);
        }
        assert forall|a: int, k: u32|
            0 <= a < nn.len() && k < 8 && #[trigger] bit_set(nn[a].valid, k) implies nn[
        blk_start(nn[a]) + pc_below(nn[a].valid, k as int)].morton as int == meff(nn, a)
            * 8 + k by {
            assert(nn[a].valid == on[src[a]].valid);
            assert(nn[a].valid != 0) by {
                if nn[a].valid == 0 {
                    lemma_zero_valid_bits(k);
                }
            }
            assert(has_block(nn[a]) && has_block(on[src[a]]));
            let w = blk_start(nn[a]) + pc_below(nn[a].valid, k as int);
            lemma_offset_in_block(nn[a].valid, k as int);
            assert(in_block(nn[a], w));
            assert(src[w] == blk_start(on[src[a]]) + pc_below(on[src[a]].valid, k as int));
            assert(nn[w].morton == on[src[w]].morton);
            assert(bit_set(on[src[a]].valid, k));
            assert(on[src[w]].morton as int == meff(on, src[a]) * 8 + k);
            if a == 0 {
                assert(src[a] == 0);
            } else {
                assert(in_block(on[src[par[a]]], src[a]));
                assert(1 <= blk_start(on[src[par[a]]]));
                assert(src[a] != 0);
                assert(nn[a].morton == on[src[a]].morton);
            }
            assert(meff(nn, a) == meff(on, src[a]));
        }
        assert(nn[0].morton == on[0].morton);
    }
    assert(depth_bounded(nn, size)) by {
        assert forall|a: int|
            0 <= a < nn.len() && has_block(#[trigger] nn[a]) implies rank8(nn[a].morton)
            < size by {
            assert(nn[a].valid == on[src[a]].valid && nn[a].morton == on[src[a]].morton);
            assert(has_block(on[src[a]]));
        }
    }
    // The canonical shape of the result: forward child links, no
    // tombstone keys, strictly ascending morton order.
    assert(forward_linked(nn)) by {
        assert forall|j: int|
            0 <= j < nn.len() && (#[trigger] nn[j]).spec_child() != NO_CHILD implies j
            < nn[j].spec_child() by {
            assert(has_block(nn[j]));
            assert(blk_start(nn[j]) > j);
        }
    }
    assert forall|j: int| 0 <= j < nn.len() implies (#[trigger] nn[j]).morton
        != TOMBSTONE by {
        lemma_p8_val();
        lemma_rank8_ge(TOMBSTONE, 11);
        if j >= 1 {
            assert(in_block(nn[par[j]], j));
            assert(has_block(nn[par[j]]));
            assert(rank8(nn[j].morton) == rank8(nn[par[j]].morton) + 1);
            assert(rank8(nn[par[j]].morton) < size);
            assert(rank8(nn[j].morton) <= MAX_SIZE);
        }
    }
    assert(depth_bounded(nn, size)) by {
        assert forall|a: int|
            0 <= a < nn.len() && has_block(#[trigger] nn[a]) implies rank8(nn[a].morton)
            < size by {
            assert(nn[a].valid == on[src[a]].valid && nn[a].morton == on[src[a]].morton);
            assert(has_block(on[src[a]]));
        }
    }
    assert(forward_linked(nn)) by {
        assert forall|j: int|
            0 <= j < nn.len() && (#[trigger] nn[j]).spec_child() != NO_CHILD implies j
            < nn[j].spec_child() by {
            assert(has_block(nn[j]));
            assert(blk_start(nn[j]) > j);
        }
    }
    assert forall|j: int| 0 <= j < nn.len() implies (#[trigger] nn[j]).morton
        != TOMBSTONE by {
        lemma_p8_val();
        lemma_rank8_ge(TOMBSTONE, 11);
        if j >= 1 {
            assert(in_block(nn[par[j]], j));
            assert(has_block(nn[par[j]]));
            assert(rank8(nn[j].morton) == rank8(nn[par[j]].morton) + 1);
            assert(rank8(nn[par[j]].morton) < size);
            assert(rank8(nn[j].morton) <= MAX_SIZE);
        }
    }
}

/// Every lookup observes through the rebuilt arena exactly what it
/// observed through the old one.
proof fn lemma_rb_keep<T>(on: Seq<Node<T>>, nn: Seq<Node<T>>, src: Seq<int>, par: Seq<int>)
    requires
        rb_inv(on, nn, src, par, nn.len() as int),
        wf_nodes(nn),
    ensures
        forall|q: Seq<u8>| #[trigger] resolved_data(on, q) == resolved_data(nn, q),
{
    reveal(rb_inv);
    assert forall|q: Seq<u8>| #[trigger] resolved_data(on, q) == resolved_data(nn, q) by {
        lemma_rb_preserves(on, nn, src, par, 0, q);
        lemma_resolve_in_bounds(on, 0, q);
        lemma_resolve_in_bounds(nn, 0, q);
    }
}

/// A rebuild introduces no collapsible node: every copied parent's children
/// carry exactly what their sources carried.
#[verifier::rlimit(100)]
proof fn lemma_rb_nocollapse<T>(on: Seq<Node<T>>, nn: Seq<Node<T>>, src: Seq<int>, par: Seq<int>)
    requires
        rb_inv(on, nn, src, par, nn.len() as int),
        forall|w: int| !collapsible(on, w),
    ensures
        forall|j: int| !collapsible(nn, j),
{
    reveal(rb_inv);
    if forall|w: int| !collapsible(on, w) {
        assert forall|j: int| !collapsible(nn, j) by {
            if collapsible(nn, j) {
                lemma_pc_full();
                assert(nn[j].valid == 255 && has_block(nn[j]));
                assert(blk_len(nn[j]) == 8);
                let c = blk_start(nn[j]);
                let oj = src[j];
                let oc = blk_start(on[oj]);
                assert(on[oj].valid == 255);
                assert(has_block(on[oj]));
                assert(blk_len(on[oj]) == 8);
                assert(!collapsible(on, oj));
                assert forall|to: int| oc <= to < oc + 8 implies 0 <= to < on.len() && (
                #[trigger] on[to]).spec_child() == NO_CHILD && on[to].spec_data() is Some
                    && on[to].spec_data() == on[oc].spec_data() by {
                    let t2 = c + (to - oc);
                    assert(in_block(nn[j], t2));
                    assert(src[t2] == oc + (t2 - c));
                    assert(nn[t2].spec_child() == NO_CHILD && nn[t2].spec_data() is Some
                        && nn[t2].spec_data() == nn[c as int].spec_data());
                    assert(!has_block(nn[t2]));
                    assert(nn[t2].valid == on[to].valid && nn[t2].data == on[to].data);
                    assert(on[to].valid == 0);
                    assert(!has_block(on[to]));
                    assert(in_block(nn[j], c));
                    assert(src[c as int] == oc);
                    assert(nn[c as int].data == on[oc].data);
                }
                assert(collapsible(on, oj));
            }
        }
    }
}

/// Companion fact for the rebuilt arena: two distinct owners cannot claim
/// one block member.
proof fn lemma_rb_block_same<T>(
    on: Seq<Node<T>>,
    nn: Seq<Node<T>>,
    src: Seq<int>,
    par: Seq<int>,
    a: int,
    b: int,
    w: int,
)
    requires
        rb_inv(on, nn, src, par, nn.len() as int),
        0 <= a < nn.len(),
        0 <= b < nn.len(),
        in_block(nn[a], w),
        in_block(nn[b], w),
        0 <= w < nn.len(),
    ensures
        a == b,
{
    reveal(rb_inv);
    if a != b {
        assert(nn[a].valid == on[src[a]].valid);
        assert(nn[b].valid == on[src[b]].valid);
        assert(has_block(on[src[a]]) && has_block(on[src[b]]));
        assert(blk_len(nn[a]) == blk_len(on[src[a]]));
        assert(blk_len(nn[b]) == blk_len(on[src[b]]));
        assert(src[w] == blk_start(on[src[a]]) + (w - blk_start(nn[a])));
        assert(src[w] == blk_start(on[src[b]]) + (w - blk_start(nn[b])));
        assert(in_block(on[src[a]], src[w]));
        assert(in_block(on[src[b]], src[w]));
        if a < b {
            lemma_rb_src_pair(on, nn, src, par, nn.len() as int, a, b);
        } else {
            lemma_rb_src_pair(on, nn, src, par, nn.len() as int, b, a);
        }
        assert(src[a] != src[b]);
        assert(false);
    }
}

// ---------------------------------------------------------------------------
// Compaction: merging uniform subtrees.
// ---------------------------------------------------------------------------

/// True when the type's `==` agrees with logical equality, so that the
/// uniformity check of `optimize` really detects equal payloads.
pub open spec fn eq_exact<T: PartialEq>() -> bool {
    &&& T::obeys_eq_spec()
    &&& forall|a: T, b: T| #[trigger] a.eq_spec(&b) == (a == b)
}

/// The voxel payload's `==` agrees with logical equality, so `optimize` on
/// an octree of voxels is unconditionally query-preserving.
pub proof fn lemma_voxel_eq_exact()
    ensures
        eq_exact::<Voxel>(),
{
}

/// So does the bare material tag's.
pub proof fn lemma_id_eq_exact()
    ensures
        eq_exact::<Id>(),
{
}

proof fn lemma_full_mask(k: u32)
    by (bit_vector)
    requires
        k < 8,
    ensures
        bitv(255u32, k) == 1,
{
}

proof fn lemma_pc_full()
    ensures
        popcount8(255u32) == 8,
{
    assert forall|k: u32| k < 8 implies #[trigger] bitv(255u32, k) == 1 by {
        lemma_full_mask(k);
    }
    assert(pc_below(255u32, 0) == 0);
    assert(pc_below(255u32, 1) == 1);
    assert(pc_below(255u32, 2) == 2);
    assert(pc_below(255u32, 3) == 3);
    assert(pc_below(255u32, 4) == 4);
    assert(pc_below(255u32, 5) == 5);
    assert(pc_below(255u32, 6) == 6);
    assert(pc_below(255u32, 7) == 7);
    assert(pc_below(255u32, 8) == 8);
}

/// The arena after collapsing the fully occupied node at `ip` into a leaf
/// holding `d`: its occupancy and child pointer are cleared and its eight
/// children are tombstoned.
spec fn collapse_nodes<T>(nodes: Seq<Node<T>>, ip: int, d: T) -> Seq<Node<T>> {
    let p = nodes[ip];
    Seq::new(
        nodes.len(),
        |i: int|
            if i == ip {
                Node { child: NO_CHILD, valid: 0, morton: p.morton, data: Some(d) }
            } else if in_block(p, i) {
                tomb_node()
            } else {
                nodes[i]
            },
    )
}

/// Collapsing a node whose children are leaves keeps the arena well formed
/// at every depth.
proof fn lemma_collapse_wf<T>(nodes: Seq<Node<T>>, size: int, ip: int, d: T)
    requires
        wf_nodes(nodes),
        depth_bounded(nodes, size),
        0 <= ip < nodes.len(),
        has_block(nodes[ip]),
        forall|t: int| #[trigger] in_block(nodes[ip], t) ==> !has_block(nodes[t]),
    ensures
        wf_nodes(collapse_nodes(nodes, ip, d)),
        depth_bounded(collapse_nodes(nodes, ip, d), size),
{
    let new = collapse_nodes(nodes, ip, d);
    let p = nodes[ip];
    assert(!in_block(p, ip)) by {
        if in_block(nodes[ip], ip) {
        }
    }
    assert forall|i: int| 0 <= i < new.len() && has_block(#[trigger] new[i]) implies new[i]
        == nodes[i] && i != ip && !in_block(p, i) by {
        if i == ip {
        } else if in_block(p, i) {
            assert(in_block(nodes[ip], i));
        }
    }
    assert forall|i: int, j: int|
        0 <= i < new.len() && 0 <= j < new.len() && #[trigger] in_block(new[i], j) implies rank8(
        new[j].morton,
    ) == rank8(new[i].morton) + 1 by {
        assert(in_block(nodes[i], j));
        if j != ip && in_block(p, j) {
            assert(in_block(nodes[ip], j));
            assert(has_block(nodes[i]) && has_block(nodes[ip]));
            assert(false);
        }
        assert(new[j].morton == nodes[j].morton);
    }
    assert forall|a: int, k: u32|
        0 <= a < new.len() && k < 8 && #[trigger] bit_set(new[a].valid, k) implies new[blk_start(
        new[a],
    ) + pc_below(new[a].valid, k as int)].morton as int == meff(new, a) * 8 + k by {
        if a == ip || in_block(p, a) {
            lemma_zero_valid_bits(k);
            assert(false);
        } else {
            assert(new[a] == nodes[a]);
            assert(bit_set(nodes[a].valid, k));
            let w = blk_start(nodes[a]) + pc_below(nodes[a].valid, k as int);
            assert(nodes[a].valid != 0) by {
                if nodes[a].valid == 0 {
                    lemma_zero_valid_bits(k);
                }
            }
            assert(has_block(nodes[a]));
            lemma_offset_in_block(nodes[a].valid, k as int);
            assert(in_block(nodes[a], w));
            assert(!in_block(p, w)) by {
                if in_block(p, w) {
                    assert(in_block(nodes[ip], w));
                    assert(has_block(nodes[a]) && has_block(nodes[ip]));
                }
            }
            assert(new[w].morton == nodes[w].morton);
            assert(meff(new, a) == meff(nodes, a));
        }
    }
    assert(new[0].morton == nodes[0].morton) by {
        if 0 != ip {
            assert(!in_block(nodes[ip], 0));
        }
    }
}

/// Collapsing a uniform sibling block of leaves preserves what every
/// full-depth lookup observes: descents that used to end in one of the
/// leaves now end at the collapsed node, which answers with the same value.
proof fn lemma_collapse_preserves<T>(
    nodes: Seq<Node<T>>,
    size: int,
    ip: int,
    d: T,
    io: int,
    q: Seq<u8>,
)
    requires
        wf_nodes(nodes),
        depth_bounded(nodes, size),
        0 <= ip < nodes.len(),
        nodes[ip].valid == 255,
        has_block(nodes[ip]),
        forall|t: int|
            #[trigger] in_block(nodes[ip], t) ==> !has_block(nodes[t]) && nodes[t].data == Some(d),
        0 <= io < nodes.len(),
        !in_block(nodes[ip], io),
        rank8(nodes[io].morton) + q.len() == size,
        forall|j: int| 0 <= j < q.len() ==> one_hot(#[trigger] q[j]),
    ensures
        data_at(nodes, resolve(nodes, io, q)) == data_at(
            collapse_nodes(nodes, ip, d),
            resolve(collapse_nodes(nodes, ip, d), io, q),
        ),
    decreases q.len(),
{
    let new = collapse_nodes(nodes, ip, d);
    let p = nodes[ip];
    assert(!in_block(p, ip)) by {
        if in_block(nodes[ip], ip) {
        }
    }
    if io == ip {
        assert(rank8(nodes[ip].morton) < size);
        assert(q.len() >= 1);
        assert(!has_block(new[ip]));
        lemma_resolve_leaf(new, ip, q);
        let kq = mask_octant(q[0]);
        assert(one_hot(q[0]));
        lemma_full_mask(kq as u32);
        assert(bit_set(p.valid, kq as u32));
        let t = blk_start(p) + pc_below(p.valid, kq);
        assert(step(nodes, ip, q[0]) == Some(t));
        lemma_step_in_block(nodes, ip, q[0], t);
        assert(in_block(nodes[ip], t));
        assert(!has_block(nodes[t]) && nodes[t].data == Some(d));
        lemma_resolve_leaf(nodes, t, q.drop_first());
        assert(data_at(nodes, t) == Some(d));
        assert(data_at(new, ip) == Some(d));
    } else {
        assert(new[io] == nodes[io]);
        if q.len() > 0 {
            let kq = mask_octant(q[0]);
            if kq < 8 && has_block(nodes[io]) && bit_set(nodes[io].valid, kq as u32) {
                let t = blk_start(nodes[io]) + pc_below(nodes[io].valid, kq);
                assert(step(nodes, io, q[0]) == Some(t));
                assert(step(new, io, q[0]) == Some(t));
                lemma_step_in_block(nodes, io, q[0], t);
                assert(!in_block(nodes[ip], t)) by {
                    if in_block(nodes[ip], t) {
                        assert(has_block(nodes[io]) && has_block(nodes[ip]));
                    }
                }
                assert(forall|j: int|
                    0 <= j < q.drop_first().len() ==> one_hot(#[trigger] q.drop_first()[j]));
                lemma_collapse_preserves(nodes, size, ip, d, t, q.drop_first());
            } else {
                assert(step(nodes, io, q[0]) is None);
                assert(step(new, io, q[0]) is None);
            }
        }
    }
}

/// True when the eight sibling entries starting at `c` are all leaves
/// carrying one shared present payload.
spec fn uniform_block<T>(nodes: Seq<Node<T>>, c: int) -> bool {
    forall|t: int|
        c <= t < c + 8 ==> !has_block(#[trigger] nodes[t]) && nodes[t].data is Some
            && nodes[t].data == nodes[c].data
}

impl<T: Copy + PartialEq> SparseOctree<T> {
    /// Checks whether the eight sibling entries starting at `c` are all
    /// leaves carrying a present payload equal to the first one, and
    /// returns that payload if so. When the payload's `==` is exact, the
    /// check detects uniformity exactly.
    fn uniform_children(&self, c: usize) -> (r: Option<T>)
        requires
            self.wf(),
            c + 8 <= self.node_count(),
        ensures
            r is Some ==> forall|t: int|
                c <= t < c + 8 ==> !has_block(#[trigger] self.spec_nodes()[t])
                    && self.spec_nodes()[t].data is Some,
            (r is Some && eq_exact::<T>()) ==> forall|t: int|
                c <= t < c + 8 ==> (#[trigger] self.spec_nodes()[t]).data == Some(r.unwrap()),
            eq_exact::<T>() ==> (r is Some <==> uniform_block(self.spec_nodes(), c as int)),
    {
        let first = self.nodes[c];
        if first.child != NO_CHILD {
            proof {
                assert(has_block(self.spec_nodes()[c as int]));
            }
            return None;
        }
        let d0 = match first.data {
            Some(d) => d,
            None => {
                proof {
                    assert(self.spec_nodes()[c as int].data is None);
                }
                return None;
            },
        };
        let mut j: usize = 1;
        while j < 8
            invariant
                self.wf(),
                c + 8 <= self.node_count(),
                1 <= j <= 8,
                self.spec_nodes()[c as int].data == Some(d0),
                forall|t: int|
                    c <= t < c + j ==> !has_block(#[trigger] self.spec_nodes()[t])
                        && self.spec_nodes()[t].data is Some,
                eq_exact::<T>() ==> forall|t: int|
                    c <= t < c + j ==> (#[trigger] self.spec_nodes()[t]).data == Some(d0),
            decreases 8 - j,
        {
            let ch = self.nodes[c + j];
            if ch.child != NO_CHILD {
                proof {
                    assert(has_block(self.spec_nodes()[c + j]));
                }
                return None;
            }
            match ch.data {
                Some(dj) => {
                    if !(dj == d0) {
                        proof {
                            if eq_exact::<T>() {
                                assert(self.spec_nodes()[c + j].data != self.spec_nodes()[
                                    c as int].data);
                            }
                        }
                        return None;
                    }
                },
                None => {
                    proof {
                        assert(self.spec_nodes()[c + j].data is None);
                    }
                    return None;
                },
            }
            j = j + 1;
        }
        Some(d0)
    }

    /// Merge pass: collapses every fully occupied node whose eight children
    /// are leaves carrying equal payloads into a single leaf holding that
    /// payload, tombstoning the children. Scanning in descending index
    /// order over a canonically laid-out arena visits children before their
    /// parents, so uniform regions cascade all the way up.
    fn merge_pass(&mut self)
        requires
            old(self).wf(),
        ensures
            final(self).wf(),
            final(self).spec_size() == old(self).spec_size(),
            final(self).node_count() == old(self).node_count(),
            eq_exact::<T>() ==> forall|x: int, y: int, z: int|
                #[trigger] final(self).value_at(x, y, z) == old(self).value_at(x, y, z),
    {
        let ghost orig = *self;
        let mut i: usize = self.nodes.len();
        while i > 0
            invariant
                self.wf(),
                self.spec_size() == orig.spec_size(),
                self.node_count() == orig.node_count(),
                i <= self.node_count(),
                eq_exact::<T>() ==> forall|x: int, y: int, z: int|
                    #[trigger] self.value_at(x, y, z) == orig.value_at(x, y, z),
            decreases i,
        {
            i = i - 1;
            let n = self.nodes[i];
            if n.valid == 255 && n.child != NO_CHILD {
                proof {
                    lemma_pc_full();
                    assert(has_block(self.spec_nodes()[i as int]));
                    assert(blk_len(self.spec_nodes()[i as int]) == 8);
                }
                let c = n.child as usize;
                match self.uniform_children(c) {
                    Some(d0) => {
                        let ghost pre = *self;
                        let ghost pn = pre.spec_nodes();
                        proof {
                            assert(!in_block(pn[i as int], i as int)) by {
                                if in_block(pn[i as int], i as int) {
                                }
                            }
                            assert forall|t: int| #[trigger] in_block(pn[i as int], t) implies
                            !has_block(pn[t]) && pn[t].data is Some by {}
                        }
                        self.nodes[i] = Node {
                            child: NO_CHILD,
                            valid: 0,
                            morton: n.morton,
                            data: Some(d0),
                        };
                        let mut t: usize = 0;
                        while t < 8
                            invariant
                                t <= 8,
                                0 <= (i as int) < pn.len(),
                                wf_nodes(pn),
                                pn == pre.spec_nodes(),
                                self.size == pre.size,
                                n == pn[i as int],
                                n.valid == 255,
                                has_block(n),
                                c == n.child as int,
                                blk_len(n) == 8,
                                c + 8 <= pn.len(),
                                1 <= c,
                                !in_block(pn[i as int], i as int),
                                self.nodes@.len() == pn.len(),
                                forall|w: int|
                                    0 <= w < self.nodes@.len() ==> #[trigger] self.nodes@[w] == (
                                    if w == i as int {
                                        Node {
                                            child: NO_CHILD,
                                            valid: 0,
                                            morton: n.morton,
                                            data: Some(d0),
                                        }
                                    } else if c <= w < c + t {
                                        tomb_node()
                                    } else {
                                        pn[w]
                                    }),
                            decreases 8 - t,
                        {
                            self.nodes[c + t] = Node {
                                child: NO_CHILD,
                                valid: 0,
                                morton: TOMBSTONE,
                                data: None,
                            };
                            t = t + 1;
                        }
                        proof {
                            assert(self.nodes@ =~= collapse_nodes(pn, i as int, d0));
                            lemma_collapse_wf(pn, pre.spec_size(), i as int, d0);
                            if eq_exact::<T>() {
                                assert forall|x: int, y: int, z: int|
                                    #[trigger] self.value_at(x, y, z) == orig.value_at(
                                        x,
                                        y,
                                        z,
                                    ) by {
                                    let q = path_spec(pre.spec_size(), x, y, z);
                                    lemma_path_len(pre.spec_size(), x, y, z);
                                    lemma_path_one_hot(pre.spec_size(), x, y, z);
                                    assert(!in_block(pn[i as int], 0)) by {
                                        if in_block(pn[i as int], 0) {
                                            assert(1 <= blk_start(pn[i as int]));
                                        }
                                    }
                                    lemma_collapse_preserves(
                                        pn,
                                        pre.spec_size(),
                                        i as int,
                                        d0,
                                        0,
                                        q,
                                    );
                                    lemma_resolve_in_bounds(pn, 0, q);
                                    lemma_resolve_in_bounds(self.nodes@, 0, q);
                                    assert(pre.value_at(x, y, z) == orig.value_at(x, y, z));
                                }
                            }
                        }
                    },
                    None => {},
                }
            }
        }
    }

    /// Periodic batch compaction. A first rebuild drops tombstones and
    /// unreachable entries and puts the arena in canonical morton order;
    /// the merge pass then collapses uniform subtrees bottom-up; a final
    /// rebuild drops the tombstones the merge left behind and restores the
    /// canonical order. Lookups observe exactly the same values afterwards,
    /// the arena never grows, and all previously observed node indices are
    /// invalidated.
    pub fn optimize(&mut self)
        requires
            old(self).wf(),
        ensures
            final(self).wf(),
            final(self).spec_size() == old(self).spec_size(),
            final(self).node_count() <= old(self).node_count(),
            eq_exact::<T>() ==> forall|x: int, y: int, z: int|
                #[trigger] final(self).value_at(x, y, z) == old(self).value_at(x, y, z),
            final(self).spec_nodes()[0].spec_morton() == 0,
            forall|j1: int, j2: int|
                0 <= j1 < j2 < final(self).node_count() ==> (
                #[trigger] final(self).spec_nodes()[j1]).spec_morton() < (
                #[trigger] final(self).spec_nodes()[j2]).spec_morton(),
            forall|j: int|
                0 <= j < final(self).node_count() ==> (
                #[trigger] final(self).spec_nodes()[j]).spec_morton() != TOMBSTONE,
            forward_linked(final(self).spec_nodes()),
    {
        let ghost orig = *self;
        self.rebuild_pass();
        let ghost s1 = *self;
        proof {
            assert forall|x: int, y: int, z: int| #[trigger] s1.value_at(x, y, z) == orig.value_at(
                x,
                y,
                z,
            ) by {
                assert(orig.data_along(path_spec(orig.spec_size(), x, y, z)) == s1.data_along(
                    path_spec(orig.spec_size(), x, y, z),
                ));
            }
        }
        self.merge_pass();
        let ghost s2 = *self;
        self.rebuild_pass();
        proof {
            assert forall|x: int, y: int, z: int| #[trigger] self.value_at(x, y, z)
                == s2.value_at(x, y, z) by {
                assert(s2.data_along(path_spec(s2.spec_size(), x, y, z)) == self.data_along(
                    path_spec(s2.spec_size(), x, y, z),
                ));
            }
        }
    }
}

/// Spatial storage of one value per unit cell of a cubic integer domain.
pub trait Octree<T>: Sized {
    /// Structural well-formedness: established by `new`, preserved by
    /// `place`.
    spec fn inv(&self) -> bool;

    /// True when the cell lies inside the addressable domain.
    spec fn pos_ok(&self, x: int, y: int, z: int) -> bool;

    /// The value a lookup of the cell observes.
    spec fn obs(&self, x: int, y: int, z: int) -> Option<T>;

    /// True when the cell is materialized down to the unit level, so that a
    /// repeated `place` there allocates nothing.
    spec fn cell_ready(&self, x: int, y: int, z: int) -> bool;

    /// Number of storage entries held.
    spec fn footprint(&self) -> int;

    /// True when one more `place` has room to materialize its cell.
    spec fn can_grow(&self) -> bool;

    /// An empty store: every cell observes nothing.
    fn new() -> (r: Self)
        ensures
            r.inv(),
            forall|x: int, y: int, z: int| #[trigger] r.obs(x, y, z) is None,
    ;

    /// Stores `object` at `position`: afterwards exactly that cell observes
    /// the new value, every other cell observes what it did before, and a
    /// cell that was already materialized is stored without new allocation.
    fn place(&mut self, position: [usize; 3], object: T)
        requires
            old(self).inv(),
            old(self).pos_ok(
                position@[0] as int,
                position@[1] as int,
                position@[2] as int,
            ),
            old(self).can_grow(),
        ensures
            final(self).inv(),
            forall|x: int, y: int, z: int|
                #[trigger] final(self).pos_ok(x, y, z) == old(self).pos_ok(x, y, z),
            forall|x: int, y: int, z: int|
                old(self).pos_ok(x, y, z) ==> #[trigger] final(self).obs(x, y, z) == (if x
                    == position@[0] as int && y == position@[1] as int && z
                    == position@[2] as int {
                    Some(object)
                } else {
                    old(self).obs(x, y, z)
                }),
            final(self).cell_ready(
                position@[0] as int,
                position@[1] as int,
                position@[2] as int,
            ),
            old(self).cell_ready(
                position@[0] as int,
                position@[1] as int,
                position@[2] as int,
            ) ==> final(self).footprint() == old(self).footprint(),
            old(self).footprint() <= final(self).footprint() <= old(self).footprint() + 8
                * MAX_SIZE,
    ;

    /// Looks up the value stored for `position`.
    fn query(&self, position: [usize; 3]) -> (r: Option<T>)
        requires
            self.inv(),
            self.pos_ok(position@[0] as int, position@[1] as int, position@[2] as int),
        ensures
            r == self.obs(position@[0] as int, position@[1] as int, position@[2] as int),
    ;
}

impl<T: Copy> Octree<T> for SparseOctree<T> {
    open spec fn inv(&self) -> bool {
        self.wf()
    }

    open spec fn pos_ok(&self, x: int, y: int, z: int) -> bool {
        self.in_domain(x, y, z)
    }

    open spec fn obs(&self, x: int, y: int, z: int) -> Option<T> {
        self.value_at(x, y, z)
    }

    open spec fn cell_ready(&self, x: int, y: int, z: int) -> bool {
        self.cell_materialized(x, y, z)
    }

    open spec fn footprint(&self) -> int {
        self.node_count()
    }

    open spec fn can_grow(&self) -> bool {
        self.node_count() + 8 * MAX_SIZE <= NODE_CAP
    }

    fn new() -> (r: Self) {
        Self::with_size(DEFAULT_SIZE)
    }

    fn place(&mut self, position: [usize; 3], object: T) {
        let ghost orig = *self;
        let ghost gsize = self.spec_size();
        let ghost gx = position@[0] as int;
        let ghost gy = position@[1] as int;
        let ghost gz = position@[2] as int;
        let hierarchy = self.get_position_hierarchy(position[0], position[1], position[2]);
        let ghost h = hierarchy@;
        proof {
            lemma_path_one_hot(gsize, gx, gy, gz);
        }
        let r = self.add_node(hierarchy.as_slice());
        match r {
            Ok(idx) => {
                let ghost mid = *self;
                proof {
                    lemma_resolve_in_bounds(mid.spec_nodes(), 0, h);
                    assert(0 <= mid.lookup_index(h) < mid.node_count());
                    assert(idx as int == resolve(mid.spec_nodes(), 0, h));
                }
                let mut nd = self.nodes[idx];
                nd.data = Some(object);
                self.nodes[idx] = nd;
                proof {
                    let nm = mid.spec_nodes();
                    let ii = idx as int;
                    assert(nd == (Node { data: Some(object), ..nm[ii] }));
                    assert(self.nodes@ == nm.update(ii, Node { data: Some(object), ..nm[ii] }));
                    lemma_update_data_wf(nm, ii, Some(object));
                    assert forall|i2: int|
                        0 <= i2 < self.nodes@.len() && has_block(#[trigger] self.nodes@[i2])
                        implies rank8(self.nodes@[i2].morton) < self.spec_size() by {
                        assert(self.nodes@[i2].morton == nm[i2].morton && self.nodes@[i2].child
                            == nm[i2].child);
                        assert(has_block(nm[i2]));
                    }
                    lemma_update_data_resolve(nm, ii, Some(object), 0, h);
                    assert forall|x: int, y: int, z: int| orig.pos_ok(x, y, z) implies #[trigger] self.value_at(
                        x,
                        y,
                        z,
                    ) == (if x == gx && y == gy && z == gz {
                        Some(object)
                    } else {
                        orig.value_at(x, y, z)
                    }) by {
                        let q = path_spec(gsize, x, y, z);
                        lemma_update_data_resolve(nm, ii, Some(object), 0, q);
                        lemma_resolve_in_bounds(nm, 0, q);
                        assert(orig.data_along(q) == mid.data_along(q));
                        if resolve(nm, 0, q) == ii {
                            lemma_path_len(gsize, x, y, z);
                            lemma_path_len(gsize, gx, gy, gz);
                            lemma_resolve_unique(nm, h, q);
                            lemma_p2_val();
                            lemma_path_inj(gsize, gx, gy, gz, x, y, z);
                            assert(x == gx && y == gy && z == gz);
                            assert(self.value_at(x, y, z) == Some(object));
                        } else {
                            assert(self.value_at(x, y, z) == mid.value_at(x, y, z));
                        }
                    }
                    assert(self.cell_materialized(gx, gy, gz)) by {
                        lemma_update_data_resolve(nm, ii, Some(object), 0, h);
                    }
                    if orig.cell_materialized(gx, gy, gz) {
                        assert(mid.spec_nodes() == orig.spec_nodes());
                    }
                }
            },
            Err(_) => {
                proof {
                    assert(false);
                }
            },
        }
    }

    fn query(&self, position: [usize; 3]) -> (r: Option<T>) {
        let hierarchy = self.get_position_hierarchy(position[0], position[1], position[2]);
        proof {
            lemma_path_one_hot(
                self.spec_size(),
                position@[0] as int,
                position@[1] as int,
                position@[2] as int,
            );
            lemma_one_hot_no_err(self.spec_nodes(), 0, hierarchy@);
        }
        match self.get_node_or_parent(hierarchy.as_slice()) {
            Ok((node, _)) => node.data(),
            Err(_) => {
                proof {
                    assert(false);
                }
                None
            },
        }
    }
}

/// Upper bound on a morton key of `k` digits.
pub open spec fn morton_cap(k: int) -> int
    decreases k,
{
    if k <= 0 {
        8
    } else {
        morton_cap(k - 1) * 8 + 8
    }
}

proof fn lemma_morton_cap_val()
    ensures
        morton_cap(20) <= 0xA000_0000_0000_0000,
{
    assert(morton_cap(0) == 8);
    assert(morton_cap(1) == 72);
    assert(morton_cap(2) == 584);
    assert(morton_cap(3) == 4680);
    assert(morton_cap(4) == 37448);
    assert(morton_cap(5) == 299592);
    assert(morton_cap(6) == 2396744);
    assert(morton_cap(7) == 19173960);
    assert(morton_cap(8) == 153391688);
    assert(morton_cap(9) == 1227133512);
    assert(morton_cap(10) == 9817068104);
    assert(morton_cap(11) == 78536544840);
    assert(morton_cap(12) == 628292358728);
    assert(morton_cap(13) == 5026338869832);
    assert(morton_cap(14) == 40210710958664);
    assert(morton_cap(15) == 321685687669320);
    assert(morton_cap(16) == 2573485501354568);
    assert(morton_cap(17) == 20587884010836552);
    assert(morton_cap(18) == 164703072086692424);
    assert(morton_cap(19) == 1317624576693539400);
    assert(morton_cap(20) == 10540996613548315208);
}

proof fn lemma_morton_cap_pos(k: int)
    ensures
        8 <= morton_cap(k),
    decreases k,
{
    if k > 0 {
        lemma_morton_cap_pos(k - 1);
    }
}

proof fn lemma_morton_cap_mono(k1: int, k2: int)
    requires
        k1 <= k2,
    ensures
        morton_cap(k1) <= morton_cap(k2),
    decreases k2 - k1,
{
    lemma_morton_cap_pos(k1);
    if k1 < k2 {
        lemma_morton_cap_mono(k1, k2 - 1);
        lemma_morton_cap_pos(k2 - 1);
    }
}

proof fn lemma_morton_code_bound(path: Seq<u8>)
    ensures
        7 <= morton_code(path) < morton_cap(path.len() as int),
    decreases path.len(),
{
    if path.len() > 0 {
        lemma_morton_code_bound(path.drop_last());
    }
}

proof fn lemma_p2_mono(k1: nat, k2: nat)
    requires
        k1 <= k2,
    ensures
        p2(k1) <= p2(k2),
    decreases k2,
{
    if k1 < k2 {
        lemma_p2_mono(k1, (k2 - 1) as nat);
    }
}

proof fn lemma_p2_val()
    ensures
        p2(9) == 512,
        p2(10) == 1024,
{
    reveal_with_fuel(p2, 12);
}

proof fn lemma_path_len(size: int, x: int, y: int, z: int)
    ensures
        path_spec(size, x, y, z).len() == if size <= 0 {
            0
        } else {
            size
        },
    decreases size,
{
    if size > 0 {
        let c = p2((size - 1) as nat) as int;
        let px: int = if x >= c {
            1
        } else {
            0
        };
        let py: int = if y >= c {
            1
        } else {
            0
        };
        let pz: int = if z >= c {
            1
        } else {
            0
        };
        lemma_path_len(size - 1, x - px * c, y - py * c, z - pz * c);
    }
}

/// Number of set bits of `v` among bit positions `0 .. k`: the offset a set
/// octant bit occupies within its compacted sibling block.
fn offset_below(v: u32, k: u8) -> (r: u32)
    requires
        k <= 8,
    ensures
        r as int == pc_below(v, k as int),
{
    let mut c: u32 = 0;
    let mut j: u8 = 0;
    while j < k
        invariant
            j <= k <= 8,
            c as int == pc_below(v, j as int),
            c <= j,
        decreases k - j,
    {
        proof {
            lemma_bitv_le_one(v, j as u32);
        }
        c = c + ((v >> (j as u32)) & 1);
        j = j + 1;
    }
    c
}

/// Octant index of a one-hot mask byte, or 8 when the byte is not one-hot.
fn octant_index(m: u8) -> (r: u8)
    ensures
        r as int == mask_octant(m),
{
    if m == 1 {
        0
    } else if m == 2 {
        1
    } else if m == 4 {
        2
    } else if m == 8 {
        3
    } else if m == 16 {
        4
    } else if m == 32 {
        5
    } else if m == 64 {
        6
    } else if m == 128 {
        7
    } else {
        8
    }
}

// ---------------------------------------------------------------------------
// Surface extraction: octree of voxels to renderable mesh.
// ---------------------------------------------------------------------------

/// True when the in-domain cell holds a voxel; out-of-domain cells hold
/// none.
pub open spec fn occupied_at(t: SparseOctree<Voxel>, x: int, y: int, z: int) -> bool {
    t.in_domain(x, y, z) && t.value_at(x, y, z) is Some
}

/// Occupancy as a 0/1 sample for the ambient-occlusion sums.
pub open spec fn occ_b(t: SparseOctree<Voxel>, x: int, y: int, z: int) -> int {
    if occupied_at(t, x, y, z) {
        1
    } else {
        0
    }
}

/// The six axis directions, in emission order: +z, -z, +x, -x, +y, -y.
pub open spec fn dir_x(d: int) -> int {
    if d == 2 {
        1
    } else if d == 3 {
        -1
    } else {
        0
    }
}

pub open spec fn dir_y(d: int) -> int {
    if d == 4 {
        1
    } else if d == 5 {
        -1
    } else {
        0
    }
}

pub open spec fn dir_z(d: int) -> int {
    if d == 0 {
        1
    } else if d == 1 {
        -1
    } else {
        0
    }
}

/// First tangent axis of a face: the absolute normal components rotated one
/// place.
pub open spec fn t1_x(d: int) -> int {
    if 4 <= d {
        1
    } else {
        0
    }
}

pub open spec fn t1_y(d: int) -> int {
    if d < 2 {
        1
    } else {
        0
    }
}

pub open spec fn t1_z(d: int) -> int {
    if 2 <= d < 4 {
        1
    } else {
        0
    }
}

/// Second tangent axis: the absolute normal components rotated the other
/// way.
pub open spec fn t2_x(d: int) -> int {
    if d < 2 {
        1
    } else {
        0
    }
}

pub open spec fn t2_y(d: int) -> int {
    if 2 <= d < 4 {
        1
    } else {
        0
    }
}

pub open spec fn t2_z(d: int) -> int {
    if 4 <= d {
        1
    } else {
        0
    }
}

/// Ambient occlusion of one face corner from its two edge-adjacent samples
/// and its diagonal sample: `side1 + side2 + max(corner, side1*side2)`,
/// on 0/1 samples, giving a value in `0 ..= 3`.
pub open spec fn ao_corner(s1: int, s2: int, c: int) -> int {
    s1 + s2 + (if c == 1 || (s1 == 1 && s2 == 1) {
        1int
    } else {
        0int
    })
}

/// The four per-corner ambient factors of face `d` of cell `(x, y, z)`, in
/// thirds of full light (3 = fully lit), from the eight occupancy samples
/// in the face's tangent plane.
pub open spec fn face_ambient(t: SparseOctree<Voxel>, x: int, y: int, z: int, d: int) -> [u8; 4] {
    let bx = x + dir_x(d);
    let by = y + dir_y(d);
    let bz = z + dir_z(d);
    let s0 = occ_b(t, bx + t1_x(d), by + t1_y(d), bz + t1_z(d));
    let s1 = occ_b(t, bx + t2_x(d), by + t2_y(d), bz + t2_z(d));
    let s2 = occ_b(t, bx - t1_x(d), by - t1_y(d), bz - t1_z(d));
    let s3 = occ_b(t, bx - t2_x(d), by - t2_y(d), bz - t2_z(d));
    let c0 = occ_b(t, bx + t1_x(d) + t2_x(d), by + t1_y(d) + t2_y(d), bz + t1_z(d) + t2_z(d));
    let c1 = occ_b(t, bx - t1_x(d) + t2_x(d), by - t1_y(d) + t2_y(d), bz - t1_z(d) + t2_z(d));
    let c2 = occ_b(t, bx - t1_x(d) - t2_x(d), by - t1_y(d) - t2_y(d), bz - t1_z(d) - t2_z(d));
    let c3 = occ_b(t, bx + t1_x(d) - t2_x(d), by + t1_y(d) - t2_y(d), bz + t1_z(d) - t2_z(d));
    [
        (3 - ao_corner(s0, s1, c0)) as u8,
        (3 - ao_corner(s1, s2, c1)) as u8,
        (3 - ao_corner(s2, s3, c2)) as u8,
        (3 - ao_corner(s3, s0, c3)) as u8,
    ]
}

/// A face is emitted when the neighboring cell holds no voxel or lies
/// outside the addressable domain: the boundary always renders.
pub open spec fn face_visible(t: SparseOctree<Voxel>, x: int, y: int, z: int, d: int) -> bool {
    !occupied_at(t, x + dir_x(d), y + dir_y(d), z + dir_z(d))
}

/// The vertex emitted for face `d` of cell `(x, y, z)`.
pub open spec fn face_vertex(t: SparseOctree<Voxel>, x: int, y: int, z: int, d: int) -> Vertex {
    Vertex {
        position: [x as usize, y as usize, z as usize],
        normal: [dir_x(d) as i8, dir_y(d) as i8, dir_z(d) as i8],
        id: t.value_at(x, y, z).unwrap().id,
        ambient: face_ambient(t, x, y, z, d),
    }
}

/// The vertices of the first `d` face directions of one occupied cell.
pub open spec fn faces_upto(t: SparseOctree<Voxel>, x: int, y: int, z: int, d: int) -> Seq<Vertex>
    decreases d,
{
    if d <= 0 {
        Seq::empty()
    } else {
        faces_upto(t, x, y, z, d - 1) + (if face_visible(t, x, y, z, d - 1) {
            seq![face_vertex(t, x, y, z, d - 1)]
        } else {
            Seq::empty()
        })
    }
}

/// Every face one cell emits: nothing for an empty or out-of-domain cell,
/// otherwise one vertex per exposed side in direction order.
pub open spec fn cell_faces(t: SparseOctree<Voxel>, x: int, y: int, z: int) -> Seq<Vertex> {
    if occupied_at(t, x, y, z) {
        faces_upto(t, x, y, z, 6)
    } else {
        Seq::empty()
    }
}

/// Faces of the cells `(x, y, z0 ..< z1)`, in ascending z order.
pub open spec fn verts_z(t: SparseOctree<Voxel>, x: int, y: int, z0: int, z1: int) -> Seq<Vertex>
    decreases z1 - z0,
{
    if z1 <= z0 {
        Seq::empty()
    } else {
        verts_z(t, x, y, z0, z1 - 1) + cell_faces(t, x, y, z1 - 1)
    }
}

/// Faces of the cells `(x, y0 ..< y1, z0 ..< z1)`, y-major.
pub open spec fn verts_y(
    t: SparseOctree<Voxel>,
    x: int,
    y0: int,
    y1: int,
    z0: int,
    z1: int,
) -> Seq<Vertex>
    decreases y1 - y0,
{
    if y1 <= y0 {
        Seq::empty()
    } else {
        verts_y(t, x, y0, y1 - 1, z0, z1) + verts_z(t, x, y1 - 1, z0, z1)
    }
}

/// Faces of a whole box of cells, x-major.
pub open spec fn verts_x(
    t: SparseOctree<Voxel>,
    x0: int,
    x1: int,
    y0: int,
    y1: int,
    z0: int,
    z1: int,
) -> Seq<Vertex>
    decreases x1 - x0,
{
    if x1 <= x0 {
        Seq::empty()
    } else {
        verts_x(t, x0, x1 - 1, y0, y1, z0, z1) + verts_y(t, x1 - 1, y0, y1, z0, z1)
    }
}

/// Faces of one region.
pub open spec fn region_verts(t: SparseOctree<Voxel>, r: Region) -> Seq<Vertex> {
    verts_x(
        t,
        r.start@[0] as int,
        r.end@[0] as int,
        r.start@[1] as int,
        r.end@[1] as int,
        r.start@[2] as int,
        r.end@[2] as int,
    )
}

/// Faces of a list of regions, in order.
pub open spec fn regions_verts(t: SparseOctree<Voxel>, rs: Seq<Region>) -> Seq<Vertex>
    decreases rs.len(),
{
    if rs.len() == 0 {
        Seq::empty()
    } else {
        regions_verts(t, rs.drop_last()) + region_verts(t, rs.last())
    }
}

impl SparseOctree<Voxel> {
    /// The domain edge `2^size`.
    fn edge(&self) -> (r: usize)
        requires
            self.wf(),
        ensures
            r == p2(self.spec_size() as nat),
            r <= 1024,
    {
        let mut cursor: usize = 1;
        let mut i: usize = 0;
        while i < self.size
            invariant
                i <= self.size <= MAX_SIZE,
                cursor == p2(i as nat),
            decreases self.size - i,
        {
            proof {
                lemma_p2_mono(i as nat, (MAX_SIZE - 1) as nat);
                lemma_p2_val();
            }
            cursor = cursor * 2;
            i = i + 1;
        }
        proof {
            lemma_p2_mono(self.size as nat, MAX_SIZE as nat);
            lemma_p2_val();
        }
        cursor
    }

    /// Occupancy of a cell given by `usize` coordinates.
    fn occ_cell(&self, x: usize, y: usize, z: usize) -> (r: bool)
        requires
            self.wf(),
        ensures
            r == occupied_at(*self, x as int, y as int, z as int),
    {
        let e = self.edge();
        if x >= e || y >= e || z >= e {
            return false;
        }
        let h = self.get_position_hierarchy(x, y, z);
        proof {
            lemma_path_one_hot(self.spec_size(), x as int, y as int, z as int);
            lemma_one_hot_no_err(self.spec_nodes(), 0, h@);
        }
        self.has_data(h.as_slice())
    }

    /// Occupancy of a possibly negative or out-of-domain sample position.
    fn occ_sample(&self, x: i64, y: i64, z: i64) -> (r: u8)
        requires
            self.wf(),
            -4 <= x < 0x10000,
            -4 <= y < 0x10000,
            -4 <= z < 0x10000,
        ensures
            r as int == occ_b(*self, x as int, y as int, z as int),
    {
        if x < 0 || y < 0 || z < 0 {
            return 0;
        }
        if self.occ_cell(x as usize, y as usize, z as usize) {
            1
        } else {
            0
        }
    }

    /// Emits the faces of one cell, in direction order, onto `out`.
    #[verifier::rlimit(80)]
    fn emit_cell(&self, x: usize, y: usize, z: usize, out: &mut Vec<Vertex>)
        requires
            self.wf(),
        ensures
            final(out)@ == old(out)@ + cell_faces(*self, x as int, y as int, z as int),
    {
        let ghost base0 = out@;
        if !self.occ_cell(x, y, z) {
            proof {
                assert(out@ =~= base0 + cell_faces(*self, x as int, y as int, z as int));
            }
            return ;
        }
        proof {
            lemma_p2_val();
            lemma_p2_mono(self.spec_size() as nat, MAX_SIZE as nat);
        }
        let h = self.get_position_hierarchy(x, y, z);
        proof {
            lemma_path_one_hot(self.spec_size(), x as int, y as int, z as int);
            lemma_one_hot_no_err(self.spec_nodes(), 0, h@);
        }
        let vox: Voxel = match self.get_node_or_parent(h.as_slice()) {
            Ok((node, _)) => {
                match node.data() {
                    Some(v) => v,
                    None => {
                        proof {
                            assert(false);
                        }
                        Voxel { id: Id::Error }
                    },
                }
            },
            Err(_) => {
                proof {
                    assert(false);
                }
                Voxel { id: Id::Error }
            },
        };
        let mut d: usize = 0;
        while d < 6
            invariant
                self.wf(),
                d <= 6,
                occupied_at(*self, x as int, y as int, z as int),
                x < 1024 && y < 1024 && z < 1024,
                vox == self.value_at(x as int, y as int, z as int).unwrap(),
                out@ == base0 + faces_upto(*self, x as int, y as int, z as int, d as int),
            decreases 6 - d,
        {
            self.emit_face(x, y, z, d, vox, out);
            proof {
                assert(out@ =~= base0 + faces_upto(*self, x as int, y as int, z as int, d as int + 1));
            }
            d = d + 1;
        }
    }

    /// Emits the face of one cell in direction `d`, if it is exposed.
    #[verifier::rlimit(100)]
    fn emit_face(&self, x: usize, y: usize, z: usize, d: usize, vox: Voxel, out: &mut Vec<Vertex>)
        requires
            self.wf(),
            d < 6,
            occupied_at(*self, x as int, y as int, z as int),
            x < 1024,
            y < 1024,
            z < 1024,
            vox == self.value_at(x as int, y as int, z as int).unwrap(),
        ensures
            final(out)@ == old(out)@ + (if face_visible(*self, x as int, y as int, z as int, d as int) {
                seq![face_vertex(*self, x as int, y as int, z as int, d as int)]
            } else {
                Seq::<Vertex>::empty()
            }),
    {
        let xi = x as i64;
        let yi = y as i64;
        let zi = z as i64;
        {
            let (dx, dy, dz): (i64, i64, i64) = if d == 0 {
                (0, 0, 1)
            } else if d == 1 {
                (0, 0, -1)
            } else if d == 2 {
                (1, 0, 0)
            } else if d == 3 {
                (-1, 0, 0)
            } else if d == 4 {
                (0, 1, 0)
            } else {
                (0, -1, 0)
            };
            proof {
                assert(dx == dir_x(d as int) && dy == dir_y(d as int) && dz == dir_z(d as int));
            }
            let nx = xi + dx;
            let ny = yi + dy;
            let nz = zi + dz;
            let neighbor = self.occ_sample(nx, ny, nz);
            let ghost gd = d as int;
            if neighbor == 0 {
                let (t1x, t1y, t1z): (i64, i64, i64) = if d < 2 {
                    (0, 1, 0)
                } else if d < 4 {
                    (0, 0, 1)
                } else {
                    (1, 0, 0)
                };
                let (t2x, t2y, t2z): (i64, i64, i64) = if d < 2 {
                    (1, 0, 0)
                } else if d < 4 {
                    (0, 1, 0)
                } else {
                    (0, 0, 1)
                };
                proof {
                    assert(t1x == t1_x(gd) && t1y == t1_y(gd) && t1z == t1_z(gd));
                    assert(t2x == t2_x(gd) && t2y == t2_y(gd) && t2z == t2_z(gd));
                }
                let s0 = self.occ_sample(nx + t1x, ny + t1y, nz + t1z);
                let s1 = self.occ_sample(nx + t2x, ny + t2y, nz + t2z);
                let s2 = self.occ_sample(nx - t1x, ny - t1y, nz - t1z);
                let s3 = self.occ_sample(nx - t2x, ny - t2y, nz - t2z);
                let c0 = self.occ_sample(nx + t1x + t2x, ny + t1y + t2y, nz + t1z + t2z);
                let c1 = self.occ_sample(nx - t1x + t2x, ny - t1y + t2y, nz - t1z + t2z);
                let c2 = self.occ_sample(nx - t1x - t2x, ny - t1y - t2y, nz - t1z - t2z);
                let c3 = self.occ_sample(nx + t1x - t2x, ny + t1y - t2y, nz + t1z - t2z);
                let a0: u8 = 3 - (s0 + s1 + (if c0 == 1 || (s0 == 1 && s1 == 1) {
                    1u8
                } else {
                    0u8
                }));
                let a1: u8 = 3 - (s1 + s2 + (if c1 == 1 || (s1 == 1 && s2 == 1) {
                    1u8
                } else {
                    0u8
                }));
                let a2: u8 = 3 - (s2 + s3 + (if c2 == 1 || (s2 == 1 && s3 == 1) {
                    1u8
                } else {
                    0u8
                }));
                let a3: u8 = 3 - (s3 + s0 + (if c3 == 1 || (s3 == 1 && s0 == 1) {
                    1u8
                } else {
                    0u8
                }));
                let vtx = Vertex {
                    position: [x, y, z],
                    normal: [dx as i8, dy as i8, dz as i8],
                    id: vox.id,
                    ambient: [a0, a1, a2, a3],
                };
                out.push(vtx);
                proof {
                    assert(face_visible(*self, x as int, y as int, z as int, gd));
                    assert(vtx.ambient == face_ambient(*self, x as int, y as int, z as int, gd));
                    assert(vtx == face_vertex(*self, x as int, y as int, z as int, gd));
                }
            } else {
                proof {
                    assert(!face_visible(*self, x as int, y as int, z as int, gd));
                    assert(out@ =~= old(out)@ + Seq::<Vertex>::empty());
                }
            }
        }
    }
}

impl Transform<Mesh> for SparseOctree<Voxel> {
    open spec fn transform_pre(&self, transformation: Transformation) -> bool {
        self.wf()
    }

    /// The mesh holds exactly the faces of the requested regions, in region
    /// then x-major cell order, and no indices: triangulation is the
    /// consumer's decision.
    open spec fn transform_ok(&self, transformation: Transformation, output: Mesh) -> bool {
        &&& output.spec_vertices() == regions_verts(*self, transformation.regions@)
        &&& output.spec_indices() == Seq::<Index>::empty()
    }

    fn transform(&self, transformation: &Transformation) -> (r: Mesh) {
        let mut vertices: Vec<Vertex> = Vec::new();
        let indices: Vec<Index> = Vec::new();
        let mut ri: usize = 0;
        while ri < transformation.regions.len()
            invariant
                self.wf(),
                ri <= transformation.regions@.len(),
                vertices@ == regions_verts(*self, transformation.regions@.take(ri as int)),
            decreases transformation.regions@.len() - ri,
        {
            let region = transformation.regions[ri];
            let sx = region.start[0];
            let ex = region.end[0];
            let sy = region.start[1];
            let ey = region.end[1];
            let sz = region.start[2];
            let ez = region.end[2];
            let ghost rbase = vertices@;
            let mut x = sx;
            proof {
                assert(verts_x(*self, sx as int, sx as int, sy as int, ey as int, sz as int, ez as int)
                    =~= Seq::<Vertex>::empty());
                assert(rbase + Seq::<Vertex>::empty() =~= rbase);
            }
            while x < ex
                invariant
                    self.wf(),
                    sx <= x,
                    x <= ex || x == sx,
                    vertices@ == rbase + verts_x(
                        *self,
                        sx as int,
                        x as int,
                        sy as int,
                        ey as int,
                        sz as int,
                        ez as int,
                    ),
                decreases ex - x,
            {
                let ghost xbase = vertices@;
                let mut y = sy;
                proof {
                    assert(verts_y(*self, x as int, sy as int, sy as int, sz as int, ez as int)
                        =~= Seq::<Vertex>::empty());
                    assert(xbase + Seq::<Vertex>::empty() =~= xbase);
                }
                while y < ey
                    invariant
                        self.wf(),
                        sy <= y,
                        y <= ey || y == sy,
                        vertices@ == xbase + verts_y(
                            *self,
                            x as int,
                            sy as int,
                            y as int,
                            sz as int,
                            ez as int,
                        ),
                    decreases ey - y,
                {
                    let ghost ybase = vertices@;
                    let mut z = sz;
                    proof {
                        assert(verts_z(*self, x as int, y as int, sz as int, sz as int)
                            =~= Seq::<Vertex>::empty());
                        assert(ybase + Seq::<Vertex>::empty() =~= ybase);
                    }
                    while z < ez
                        invariant
                            self.wf(),
                            sz <= z,
                            z <= ez || z == sz,
                            vertices@ == ybase + verts_z(
                                *self,
                                x as int,
                                y as int,
                                sz as int,
                                z as int,
                            ),
                        decreases ez - z,
                    {
                        self.emit_cell(x, y, z, &mut vertices);
                        proof {
                            assert(vertices@ =~= ybase + verts_z(
                                *self,
                                x as int,
                                y as int,
                                sz as int,
                                z as int + 1,
                            ));
                        }
                        z = z + 1;
                    }
                    proof {
                        if z != ez {
                            assert(verts_z(*self, x as int, y as int, sz as int, ez as int)
                                =~= Seq::<Vertex>::empty());
                            assert(verts_z(*self, x as int, y as int, sz as int, z as int)
                                =~= Seq::<Vertex>::empty());
                        }
                        assert(vertices@ =~= xbase + verts_y(
                            *self,
                            x as int,
                            sy as int,
                            y as int + 1,
                            sz as int,
                            ez as int,
                        ));
                    }
                    y = y + 1;
                }
                proof {
                    if y != ey {
                        assert(verts_y(*self, x as int, sy as int, ey as int, sz as int, ez as int)
                            =~= Seq::<Vertex>::empty());
                        assert(verts_y(*self, x as int, sy as int, y as int, sz as int, ez as int)
                            =~= Seq::<Vertex>::empty());
                    }
                    assert(vertices@ =~= rbase + verts_x(
                        *self,
                        sx as int,
                        x as int + 1,
                        sy as int,
                        ey as int,
                        sz as int,
                        ez as int,
                    ));
                }
                x = x + 1;
            }
            proof {
                if x != ex {
                    assert(verts_x(*self, sx as int, ex as int, sy as int, ey as int, sz as int, ez as int)
                        =~= Seq::<Vertex>::empty());
                    assert(verts_x(*self, sx as int, x as int, sy as int, ey as int, sz as int, ez as int)
                        =~= Seq::<Vertex>::empty());
                }
                assert(vertices@ =~= rbase + verts_x(
                    *self,
                    sx as int,
                    ex as int,
                    sy as int,
                    ey as int,
                    sz as int,
                    ez as int,
                ));
                assert(transformation.regions@.take(ri as int + 1).drop_last()
                    =~= transformation.regions@.take(ri as int));
                assert(transformation.regions@.take(ri as int + 1).last()
                    == transformation.regions@[ri as int]);
                assert(vertices@ =~= regions_verts(
                    *self,
                    transformation.regions@.take(ri as int + 1),
                ));
            }
            ri = ri + 1;
        }
        proof {
            assert(transformation.regions@.take(transformation.regions@.len() as int)
                =~= transformation.regions@);
        }
        Mesh::new(vertices, indices)
    }
}

/// The ambient factors of a face come out fully lit when the whole
/// neighborhood around the cell is empty: every occlusion sample misses.
#[verifier::rlimit(100)]
proof fn lemma_face_fully_lit(t: SparseOctree<Voxel>, x: int, y: int, z: int, d: int)
    requires
        0 <= d < 6,
        forall|xi: int, yi: int, zi: int|
            x - 1 <= xi <= x + 1 && y - 1 <= yi <= y + 1 && z - 1 <= zi <= z + 1 && !(xi == x && yi
                == y && zi == z) ==> !#[trigger] occupied_at(t, xi, yi, zi),
    ensures
        face_ambient(t, x, y, z, d) == [3u8, 3u8, 3u8, 3u8],
        face_visible(t, x, y, z, d),
{
}

/// Law: a single solid voxel surrounded by empty space emits exactly six
/// faces, one per axis direction, each fully lit.
#[verifier::rlimit(100)]
pub proof fn lemma_isolated_voxel_faces(t: SparseOctree<Voxel>, x: int, y: int, z: int)
    requires
        occupied_at(t, x, y, z),
        forall|xi: int, yi: int, zi: int|
            x - 1 <= xi <= x + 1 && y - 1 <= yi <= y + 1 && z - 1 <= zi <= z + 1 && !(xi == x && yi
                == y && zi == z) ==> !#[trigger] occupied_at(t, xi, yi, zi),
    ensures
        cell_faces(t, x, y, z) == seq![
            face_vertex(t, x, y, z, 0),
            face_vertex(t, x, y, z, 1),
            face_vertex(t, x, y, z, 2),
            face_vertex(t, x, y, z, 3),
            face_vertex(t, x, y, z, 4),
            face_vertex(t, x, y, z, 5),
        ],
        cell_faces(t, x, y, z).len() == 6,
        forall|d: int|
            0 <= d < 6 ==> (#[trigger] cell_faces(t, x, y, z)[d]).ambient == [3u8, 3u8, 3u8, 3u8],
        forall|d1: int, d2: int|
            0 <= d1 < d2 < 6 ==> (#[trigger] cell_faces(t, x, y, z)[d1]).normal != (
            #[trigger] cell_faces(t, x, y, z)[d2]).normal,
{
    assert forall|d: int| 0 <= d < 6 implies face_visible(t, x, y, z, d) && face_ambient(
        t,
        x,
        y,
        z,
        d,
    ) == [3u8, 3u8, 3u8, 3u8] by {
        lemma_face_fully_lit(t, x, y, z, d);
    }
    assert(cell_faces(t, x, y, z) =~= seq![
        face_vertex(t, x, y, z, 0),
        face_vertex(t, x, y, z, 1),
        face_vertex(t, x, y, z, 2),
        face_vertex(t, x, y, z, 3),
        face_vertex(t, x, y, z, 4),
        face_vertex(t, x, y, z, 5),
    ]) by {
        reveal_with_fuel(faces_upto, 7);
    }
    assert forall|d1: int, d2: int| 0 <= d1 < d2 < 6 implies (
    #[trigger] cell_faces(t, x, y, z)[d1]).normal != (#[trigger] cell_faces(t, x, y, z)[d2]).normal
        by {
        assert(cell_faces(t, x, y, z)[d1] == face_vertex(t, x, y, z, d1));
        assert(cell_faces(t, x, y, z)[d2] == face_vertex(t, x, y, z, d2));
        assert(face_vertex(t, x, y, z, d1).normal@[0] == dir_x(d1) as i8);
        assert(face_vertex(t, x, y, z, d2).normal@[0] == dir_x(d2) as i8);
        assert(face_vertex(t, x, y, z, d1).normal@[1] == dir_y(d1) as i8);
        assert(face_vertex(t, x, y, z, d2).normal@[1] == dir_y(d2) as i8);
        assert(face_vertex(t, x, y, z, d1).normal@[2] == dir_z(d1) as i8);
        assert(face_vertex(t, x, y, z, d2).normal@[2] == dir_z(d2) as i8);
    }
}

/// Law: two adjacent voxels of one material emit no face on their shared
/// boundary, and emit faces on all ten other exposed sides.
#[verifier::rlimit(100)]
pub proof fn lemma_adjacent_voxel_faces(t: SparseOctree<Voxel>, x: int, y: int, z: int)
    requires
        occupied_at(t, x, y, z),
        occupied_at(t, x + 1, y, z),
        t.value_at(x, y, z).unwrap().id == t.value_at(x + 1, y, z).unwrap().id,
        forall|xi: int, yi: int, zi: int|
            x - 1 <= xi <= x + 2 && y - 1 <= yi <= y + 1 && z - 1 <= zi <= z + 1 && !(xi == x && yi
                == y && zi == z) && !(xi == x + 1 && yi == y && zi == z)
                ==> !#[trigger] occupied_at(t, xi, yi, zi),
    ensures
        !face_visible(t, x, y, z, 2),
        !face_visible(t, x + 1, y, z, 3),
        cell_faces(t, x, y, z) == seq![
            face_vertex(t, x, y, z, 0),
            face_vertex(t, x, y, z, 1),
            face_vertex(t, x, y, z, 3),
            face_vertex(t, x, y, z, 4),
            face_vertex(t, x, y, z, 5),
        ],
        cell_faces(t, x + 1, y, z) == seq![
            face_vertex(t, x + 1, y, z, 0),
            face_vertex(t, x + 1, y, z, 1),
            face_vertex(t, x + 1, y, z, 2),
            face_vertex(t, x + 1, y, z, 4),
            face_vertex(t, x + 1, y, z, 5),
        ],
        cell_faces(t, x, y, z).len() + cell_faces(t, x + 1, y, z).len() == 10,
{
    assert(occupied_at(t, x + 1, y, z));
    assert(!face_visible(t, x, y, z, 2));
    assert(occupied_at(t, x, y, z));
    assert(!face_visible(t, x + 1, y, z, 3));
    assert forall|d: int| 0 <= d < 6 && d != 2 implies #[trigger] face_visible(t, x, y, z, d) by {
        assert(!occupied_at(t, x + dir_x(d), y + dir_y(d), z + dir_z(d)));
    }
    assert forall|d: int| 0 <= d < 6 && d != 3 implies #[trigger] face_visible(t, x + 1, y, z, d) by {
        assert(!occupied_at(t, x + 1 + dir_x(d), y + dir_y(d), z + dir_z(d)));
    }
    assert(cell_faces(t, x, y, z) =~= seq![
        face_vertex(t, x, y, z, 0),
        face_vertex(t, x, y, z, 1),
        face_vertex(t, x, y, z, 3),
        face_vertex(t, x, y, z, 4),
        face_vertex(t, x, y, z, 5),
    ]) by {
        reveal_with_fuel(faces_upto, 7);
    }
    assert(cell_faces(t, x + 1, y, z) =~= seq![
        face_vertex(t, x + 1, y, z, 0),
        face_vertex(t, x + 1, y, z, 1),
        face_vertex(t, x + 1, y, z, 2),
        face_vertex(t, x + 1, y, z, 4),
        face_vertex(t, x + 1, y, z, 5),
    ]) by {
        reveal_with_fuel(faces_upto, 7);
    }
}

// ---------------------------------------------------------------------------
// Existence serialization: octree of voxels to bit-packed ancestor map.
// ---------------------------------------------------------------------------

/// `8^k`.
pub open spec fn p8(k: int) -> int
    decreases k,
{
    if k <= 0 {
        1
    } else {
        8 * p8(k - 1)
    }
}

/// First flat bit index of the tree level that paths of length `l` live on:
/// the cumulative size of all shallower levels.
pub open spec fn level_base(l: int) -> int
    decreases l,
{
    if l <= 0 {
        0
    } else {
        level_base(l - 1) + p8(l - 1)
    }
}

/// Positional encoding of an octant path within its level: the base-8
/// number whose digits are the octant indices, most significant level
/// first.
pub open spec fn posnum(p: Seq<u8>) -> int
    decreases p.len(),
{
    if p.len() == 0 {
        0
    } else {
        posnum(p.drop_last()) * 8 + mask_octant(p.last())
    }
}

/// Flat bit index of an octant path in the existence map.
pub open spec fn flat_index(p: Seq<u8>) -> int {
    level_base(p.len() as int) + posnum(p)
}

/// Flat bit indices of the materialized ancestors of one cell, for path
/// prefixes of length `1 ..= l`.
pub open spec fn cell_bits(t: SparseOctree<Voxel>, x: int, y: int, z: int, l: int) -> Seq<int>
    decreases l,
{
    if l <= 0 {
        Seq::empty()
    } else {
        cell_bits(t, x, y, z, l - 1) + (if t.lookup_depth(
            path_spec(t.spec_size(), x, y, z).take(l),
        ) == l {
            seq![flat_index(path_spec(t.spec_size(), x, y, z).take(l))]
        } else {
            Seq::empty()
        })
    }
}

/// Bits of the cells `(x, y, z0 ..< z1)`.
pub open spec fn bits_z(t: SparseOctree<Voxel>, x: int, y: int, z0: int, z1: int) -> Seq<int>
    decreases z1 - z0,
{
    if z1 <= z0 {
        Seq::empty()
    } else {
        bits_z(t, x, y, z0, z1 - 1) + cell_bits(t, x, y, z1 - 1, t.spec_size())
    }
}

pub open spec fn bits_y(
    t: SparseOctree<Voxel>,
    x: int,
    y0: int,
    y1: int,
    z0: int,
    z1: int,
) -> Seq<int>
    decreases y1 - y0,
{
    if y1 <= y0 {
        Seq::empty()
    } else {
        bits_y(t, x, y0, y1 - 1, z0, z1) + bits_z(t, x, y1 - 1, z0, z1)
    }
}

pub open spec fn bits_x(
    t: SparseOctree<Voxel>,
    x0: int,
    x1: int,
    y0: int,
    y1: int,
    z0: int,
    z1: int,
) -> Seq<int>
    decreases x1 - x0,
{
    if x1 <= x0 {
        Seq::empty()
    } else {
        bits_x(t, x0, x1 - 1, y0, y1, z0, z1) + bits_y(t, x1 - 1, y0, y1, z0, z1)
    }
}

/// Every bit the existence map of one region must hold: the root, plus one
/// bit per materialized ancestor path of each cell.
pub open spec fn region_bits(t: SparseOctree<Voxel>, r: Region) -> Seq<int> {
    seq![0int] + bits_x(
        t,
        r.start@[0] as int,
        r.end@[0] as int,
        r.start@[1] as int,
        r.end@[1] as int,
        r.start@[2] as int,
        r.end@[2] as int,
    )
}

proof fn lemma_contains_concat(a: Seq<int>, b: Seq<int>, v: int)
    ensures
        (a + b).contains(v) == (a.contains(v) || b.contains(v)),
{
    if (a + b).contains(v) {
        let i = choose|i: int| 0 <= i < (a + b).len() && (a + b)[i] == v;
        if i < a.len() {
            assert(a[i] == v);
        } else {
            assert(b[i - a.len()] == v);
        }
    }
    if a.contains(v) {
        let i = choose|i: int| 0 <= i < a.len() && a[i] == v;
        assert((a + b)[i] == v);
    }
    if b.contains(v) {
        let i = choose|i: int| 0 <= i < b.len() && b[i] == v;
        assert((a + b)[a.len() + i] == v);
    }
}

/// Marking one more index in the existence map: the set of set bits grows
/// by exactly that index.
proof fn lemma_bitset_mark(b0: Bitset, bpre: Bitset, bpost: Bitset, done: Seq<int>, v: int)
    requires
        forall|i: int|
            #![trigger bpre.spec_bit(i)]
            bpre.spec_bit(i) == (b0.spec_bit(i) || done.contains(i)),
        bpost.spec_bit(v),
        forall|i: int| i != v ==> #[trigger] bpost.spec_bit(i) == bpre.spec_bit(i),
    ensures
        forall|i: int|
            #![trigger bpost.spec_bit(i)]
            bpost.spec_bit(i) == (b0.spec_bit(i) || (done + seq![v]).contains(i)),
{
    assert forall|i: int|
        #![trigger bpost.spec_bit(i)]
        bpost.spec_bit(i) == (b0.spec_bit(i) || (done + seq![v]).contains(i)) by {
        lemma_contains_concat(done, seq![v], i);
        assert(seq![v][0] == v);
        if i == v {
            assert(seq![v].contains(i));
        } else {
            assert(!seq![v].contains(i)) by {
                if seq![v].contains(i) {
                    let w = choose|w: int| 0 <= w < seq![v].len() && seq![v][w] == i;
                    assert(w == 0);
                }
            }
            assert(bpost.spec_bit(i) == bpre.spec_bit(i));
            assert(bpre.spec_bit(i) == (b0.spec_bit(i) || done.contains(i)));
        }
    }
}

proof fn lemma_p8_val()
    ensures
        p8(10) == 1073741824,
        p8(11) == 8589934592,
        level_base(11) == 1227133513,
{
    assert(p8(0) == 1);
    assert(p8(1) == 8);
    assert(p8(2) == 64);
    assert(p8(3) == 512);
    assert(p8(4) == 4096);
    assert(p8(5) == 32768);
    assert(p8(6) == 262144);
    assert(p8(7) == 2097152);
    assert(p8(8) == 16777216);
    assert(p8(9) == 134217728);
    assert(p8(10) == 1073741824);
    assert(p8(11) == 8589934592);
    assert(level_base(0) == 0);
    assert(level_base(1) == 1);
    assert(level_base(2) == 9);
    assert(level_base(3) == 73);
    assert(level_base(4) == 585);
    assert(level_base(5) == 4681);
    assert(level_base(6) == 37449);
    assert(level_base(7) == 299593);
    assert(level_base(8) == 2396745);
    assert(level_base(9) == 19173961);
    assert(level_base(10) == 153391689);
    assert(level_base(11) == 1227133513);
}

proof fn lemma_p8_mono(k1: int, k2: int)
    requires
        k1 <= k2,
    ensures
        p8(k1) <= p8(k2),
        1 <= p8(k2),
    decreases k2 - k1,
{
    if k1 < k2 {
        lemma_p8_mono(k1, k2 - 1);
    } else {
        lemma_p8_pos(k1);
    }
}

proof fn lemma_p8_pos(k: int)
    ensures
        1 <= p8(k),
    decreases k,
{
    if k > 0 {
        lemma_p8_pos(k - 1);
    }
}

proof fn lemma_level_base_mono(l1: int, l2: int)
    requires
        l1 <= l2,
    ensures
        level_base(l1) <= level_base(l2),
        0 <= level_base(l1),
    decreases l2 - l1,
{
    lemma_level_base_pos(l1);
    if l1 < l2 {
        lemma_level_base_mono(l1, l2 - 1);
        lemma_p8_pos(l2 - 1);
    }
}

proof fn lemma_level_base_pos(l: int)
    ensures
        0 <= level_base(l),
    decreases l,
{
    if l > 0 {
        lemma_level_base_pos(l - 1);
        lemma_p8_pos(l - 1);
    }
}

proof fn lemma_posnum_bound(p: Seq<u8>)
    requires
        forall|j: int| 0 <= j < p.len() ==> one_hot(#[trigger] p[j]),
    ensures
        0 <= posnum(p) < p8(p.len() as int),
    decreases p.len(),
{
    if p.len() == 0 {
    } else {
        assert(forall|j: int|
            0 <= j < p.drop_last().len() ==> one_hot(#[trigger] p.drop_last()[j]));
        assert(one_hot(p.last()));
        lemma_posnum_bound(p.drop_last());
    }
}

/// Once a prefix of the path is not materialized, no longer prefix is, so
/// the deeper levels contribute no bits.
proof fn lemma_cell_bits_frozen(t: SparseOctree<Voxel>, x: int, y: int, z: int, l: int, l2: int)
    requires
        0 <= l <= l2,
        forall|w: int| l < w <= l2 ==> t.lookup_depth(path_spec(t.spec_size(), x, y, z).take(w)) != w,
    ensures
        cell_bits(t, x, y, z, l2) == cell_bits(t, x, y, z, l),
    decreases l2 - l,
{
    if l < l2 {
        lemma_cell_bits_frozen(t, x, y, z, l, l2 - 1);
        assert(cell_bits(t, x, y, z, l2) =~= cell_bits(t, x, y, z, l2 - 1));
    }
}

impl SparseOctree<Voxel> {
    /// Sets the existence bits of one cell: walking the path shallow to
    /// deep, one bit per materialized prefix, stopping at the first level
    /// that is not materialized (no deeper one can be).
    #[verifier::rlimit(100)]
    fn set_cell_bits(&self, x: usize, y: usize, z: usize, bits: &mut Bitset)
        requires
            self.wf(),
            old(bits).wf(),
        ensures
            final(bits).wf(),
            forall|i: int|
                final(bits).spec_bit(i) == (old(bits).spec_bit(i) || cell_bits(
                    *self,
                    x as int,
                    y as int,
                    z as int,
                    self.spec_size(),
                ).contains(i)),
    {
        let ghost t = *self;
        let ghost b0 = *bits;
        let ghost gpath = path_spec(self.spec_size(), x as int, y as int, z as int);
        let hierarchy = self.get_position_hierarchy(x, y, z);
        proof {
            lemma_path_one_hot(self.spec_size(), x as int, y as int, z as int);
            lemma_p8_val();
            lemma_level_base_pos(0);
        }
        let mut index: usize = 0;
        let mut l: usize = 0;
        let mut base: usize = 0;
        let mut pw: usize = 1;
        let mut pos: usize = 0;
        let mut stuck: bool = false;
        proof {
            assert(gpath.take(0) =~= Seq::<u8>::empty());
            assert(cell_bits(t, x as int, y as int, z as int, 0) =~= Seq::<int>::empty());
        }
        while l < hierarchy.len() && !stuck
            invariant
                self.wf(),
                bits.wf(),
                *self == t,
                hierarchy@ == gpath,
                gpath == path_spec(t.spec_size(), x as int, y as int, z as int),
                gpath.len() == self.spec_size() <= MAX_SIZE,
                forall|j: int| 0 <= j < gpath.len() ==> one_hot(#[trigger] gpath[j]),
                l <= gpath.len(),
                base == level_base(l as int),
                pw == p8(l as int),
                0 <= pos < pw,
                pos == posnum(gpath.take(l as int)),
                0 <= index < self.node_count(),
                resolve(self.spec_nodes(), 0, gpath.take(l as int)) == index,
                rdepth(self.spec_nodes(), 0, gpath.take(l as int)) == l,
                forall|i: int|
                    #![trigger b0.spec_bit(i)]
                    bits.spec_bit(i) == (b0.spec_bit(i) || cell_bits(
                        t,
                        x as int,
                        y as int,
                        z as int,
                        l as int,
                    ).contains(i)),
                stuck ==> l < gpath.len() && step(
                    self.spec_nodes(),
                    index as int,
                    gpath[l as int],
                ) is None,
            decreases gpath.len() - l + (if stuck {
                0int
            } else {
                1int
            }),
        {
            let ghost prefix = gpath.take(l as int);
            let ghost prefix1 = gpath.take(l as int + 1);
            let m = hierarchy[l];
            let k = octant_index(m);
            let n = self.nodes[index];
            proof {
                assert(one_hot(gpath[l as int]));
                lemma_p8_val();
                lemma_p8_mono(l as int + 1, 10);
                lemma_level_base_mono(l as int + 1, 11);
                assert(prefix1.drop_last() =~= prefix);
                assert(prefix1.last() == gpath[l as int]);
                lemma_posnum_bound(prefix1);
            }
            if (n.valid >> (k as u32)) & 1 == 1 {
                let off = offset_below(n.valid, k);
                proof {
                    assert(bit_set(n.valid, k as u32));
                    assert(has_block(n)) by {
                        if n.valid == 0 {
                            lemma_zero_valid_bits(k as u32);
                        }
                    }
                    assert(step(self.spec_nodes(), index as int, m) == Some(
                        n.child as int + pc_below(n.valid, k as int),
                    ));
                    lemma_step_in_block(
                        self.spec_nodes(),
                        index as int,
                        m,
                        n.child as int + pc_below(n.valid, k as int),
                    );
                    lemma_resolve_append(self.spec_nodes(), 0, prefix, seq![m]);
                    assert(seq![m].drop_first() =~= Seq::<u8>::empty());
                    let t2 = n.child as int + pc_below(n.valid, k as int);
                    assert(resolve(self.spec_nodes(), t2, Seq::<u8>::empty()) == t2);
                    assert(rdepth(self.spec_nodes(), t2, Seq::<u8>::empty()) == 0);
                    assert(resolve(self.spec_nodes(), index as int, seq![m]) == t2);
                    assert(rdepth(self.spec_nodes(), index as int, seq![m]) == 1);
                    assert(prefix + seq![m] == prefix1);
                    assert(resolve(self.spec_nodes(), 0, prefix1) == t2);
                    assert(rdepth(self.spec_nodes(), 0, prefix1) == l + 1);
                }
                index = n.child as usize + off as usize;
                base = base + pw;
                pos = pos * 8 + (k as usize);
                pw = pw * 8;
                let ghost bpre = *bits;
                let ghost cb_next = cell_bits(t, x as int, y as int, z as int, l as int + 1);
                let _ = bits.insert(base + pos, true);
                proof {
                    assert(t.spec_size() == self.spec_size());
                    assert(gpath == path_spec(t.spec_size(), x as int, y as int, z as int));
                    assert(prefix1 == path_spec(t.spec_size(), x as int, y as int, z as int).take(
                        l as int + 1,
                    ));
                    assert(flat_index(prefix1) == base + pos);
                    assert(t.lookup_depth(prefix1) == l + 1);
                    assert(cb_next =~= cell_bits(
                        t,
                        x as int,
                        y as int,
                        z as int,
                        l as int,
                    ) + seq![flat_index(prefix1)]);
                    assert(bits.spec_bit(base + pos as int));
                    lemma_bitset_mark(
                        b0,
                        bpre,
                        *bits,
                        cell_bits(t, x as int, y as int, z as int, l as int),
                        flat_index(prefix1),
                    );
                }
                let ghost lprev = l as int;
                let ghost cb_prev = cell_bits(t, x as int, y as int, z as int, lprev);
                l = l + 1;
                proof {
                    assert(l as int == lprev + 1);
                    assert(cell_bits(t, x as int, y as int, z as int, l as int) == cb_next);
                    assert(cb_next == cb_prev + seq![flat_index(prefix1)]);
                    assert forall|i: int|
                        #![trigger b0.spec_bit(i)]
                        bits.spec_bit(i) == (b0.spec_bit(i) || cell_bits(
                            t,
                            x as int,
                            y as int,
                            z as int,
                            l as int,
                        ).contains(i)) by {
                        assert(bits.spec_bit(i) == (b0.spec_bit(i) || (cb_prev + seq![
                            flat_index(prefix1),
                        ]).contains(i)));
                        assert(cell_bits(t, x as int, y as int, z as int, l as int).contains(i)
                            == (cb_prev + seq![flat_index(prefix1)]).contains(i));
                    }
                }
            } else {
                proof {
                    if has_block(n) && bit_set(n.valid, k as u32) {
                        assert(false);
                    }
                    assert(step(self.spec_nodes(), index as int, m) is None);
                    assert(forall|i: int|
                        #![trigger b0.spec_bit(i)]
                        bits.spec_bit(i) == (b0.spec_bit(i) || cell_bits(
                            t,
                            x as int,
                            y as int,
                            z as int,
                            l as int,
                        ).contains(i)));
                }
                stuck = true;
            }
        }
        proof {
            if stuck {
                assert forall|w: int|
                    (l as int) < w <= t.spec_size() implies t.lookup_depth(gpath.take(w))
                    != w by {
                    lemma_resolve_append(self.spec_nodes(), 0, gpath.take(l as int), gpath.subrange(l as int, w));
                    assert(gpath.take(l as int) + gpath.subrange(l as int, w) =~= gpath.take(w));
                    assert(gpath.subrange(l as int, w)[0] == gpath[l as int]);
                }
                lemma_cell_bits_frozen(t, x as int, y as int, z as int, l as int, t.spec_size());
            } else {
                assert(gpath.take(gpath.len() as int) =~= gpath);
            }
            assert(b0 == *old(bits));
            assert(cell_bits(t, x as int, y as int, z as int, t.spec_size()) == cell_bits(
                t,
                x as int,
                y as int,
                z as int,
                l as int,
            ));
            assert forall|i: int|
                bits.spec_bit(i) == (old(bits).spec_bit(i) || cell_bits(
                    t,
                    x as int,
                    y as int,
                    z as int,
                    t.spec_size(),
                ).contains(i)) by {
                assert(b0.spec_bit(i) || !b0.spec_bit(i));
                assert(bits.spec_bit(i) == (b0.spec_bit(i) || cell_bits(
                    t,
                    x as int,
                    y as int,
                    z as int,
                    l as int,
                ).contains(i)));
            }
        }
    }
}

impl Transform<Bitset> for SparseOctree<Voxel> {
    open spec fn transform_pre(&self, transformation: Transformation) -> bool {
        &&& self.wf()
        &&& transformation.regions@.len() >= 1
    }

    /// The existence map of the first region: bit 0 (the root) is always
    /// set, and exactly the flat indices of the materialized ancestor paths
    /// of the region's cells are set besides it.
    open spec fn transform_ok(&self, transformation: Transformation, output: Bitset) -> bool {
        &&& output.wf()
        &&& forall|i: int|
            output.spec_bit(i) == region_bits(*self, transformation.regions@[0]).contains(i)
    }

    fn transform(&self, transformation: &Transformation) -> (r: Bitset) {
        let region = transformation.regions[0];
        let sx = region.start[0];
        let ex = region.end[0];
        let sy = region.start[1];
        let ey = region.end[1];
        let sz = region.start[2];
        let ez = region.end[2];
        let mut bits = Bitset::new();
        let _ = bits.insert(0, true);
        let ghost t = *self;
        let ghost rootbits = seq![0int];
        proof {
            assert(rootbits[0] == 0int);
            assert(rootbits.contains(0int));
            assert forall|i: int| bits.spec_bit(i) == rootbits.contains(i) by {
                if rootbits.contains(i) {
                    assert(rootbits[0] == 0int);
                    let w = choose|w: int| 0 <= w < rootbits.len() && rootbits[w] == i;
                }
            }
            assert(bits_x(t, sx as int, sx as int, sy as int, ey as int, sz as int, ez as int)
                =~= Seq::<int>::empty());
        }
        let mut x = sx;
        while x < ex
            invariant
                self.wf(),
                *self == t,
                bits.wf(),
                sx <= x,
                x <= ex || x == sx,
                forall|i: int|
                    bits.spec_bit(i) == (rootbits + bits_x(
                        t,
                        sx as int,
                        x as int,
                        sy as int,
                        ey as int,
                        sz as int,
                        ez as int,
                    )).contains(i),
            decreases ex - x,
        {
            let ghost xbits = rootbits + bits_x(
                t,
                sx as int,
                x as int,
                sy as int,
                ey as int,
                sz as int,
                ez as int,
            );
            let mut y = sy;
            proof {
                assert(bits_y(t, x as int, sy as int, sy as int, sz as int, ez as int)
                    =~= Seq::<int>::empty());
                assert forall|i: int|
                    bits.spec_bit(i) == (xbits + bits_y(
                        t,
                        x as int,
                        sy as int,
                        sy as int,
                        sz as int,
                        ez as int,
                    )).contains(i) by {
                    lemma_contains_concat(
                        xbits,
                        bits_y(t, x as int, sy as int, sy as int, sz as int, ez as int),
                        i,
                    );
                }
            }
            while y < ey
                invariant
                    self.wf(),
                    *self == t,
                    bits.wf(),
                    sy <= y,
                    y <= ey || y == sy,
                    forall|i: int|
                        bits.spec_bit(i) == (xbits + bits_y(
                            t,
                            x as int,
                            sy as int,
                            y as int,
                            sz as int,
                            ez as int,
                        )).contains(i),
                decreases ey - y,
            {
                let ghost ybits = xbits + bits_y(t, x as int, sy as int, y as int, sz as int, ez as int);
                let mut z = sz;
                proof {
                    assert(bits_z(t, x as int, y as int, sz as int, sz as int)
                        =~= Seq::<int>::empty());
                    assert forall|i: int|
                        bits.spec_bit(i) == (ybits + bits_z(
                            t,
                            x as int,
                            y as int,
                            sz as int,
                            sz as int,
                        )).contains(i) by {
                        lemma_contains_concat(
                            ybits,
                            bits_z(t, x as int, y as int, sz as int, sz as int),
                            i,
                        );
                        lemma_contains_concat(
                            xbits,
                            bits_y(t, x as int, sy as int, y as int, sz as int, ez as int),
                            i,
                        );
                    }
                }
                while z < ez
                    invariant
                        self.wf(),
                        *self == t,
                        bits.wf(),
                        sz <= z,
                        z <= ez || z == sz,
                        forall|i: int|
                            bits.spec_bit(i) == (ybits + bits_z(
                                t,
                                x as int,
                                y as int,
                                sz as int,
                                z as int,
                            )).contains(i),
                    decreases ez - z,
                {
                    self.set_cell_bits(x, y, z, &mut bits);
                    proof {
                        assert(bits_z(t, x as int, y as int, sz as int, z as int + 1) == bits_z(
                            t,
                            x as int,
                            y as int,
                            sz as int,
                            z as int,
                        ) + cell_bits(t, x as int, y as int, z as int, t.spec_size()));
                        assert forall|i: int|
                            bits.spec_bit(i) == (ybits + bits_z(
                                t,
                                x as int,
                                y as int,
                                sz as int,
                                z as int + 1,
                            )).contains(i) by {
                            lemma_contains_concat(
                                ybits,
                                bits_z(t, x as int, y as int, sz as int, z as int),
                                i,
                            );
                            lemma_contains_concat(
                                ybits,
                                bits_z(t, x as int, y as int, sz as int, z as int + 1),
                                i,
                            );
                            lemma_contains_concat(
                                bits_z(t, x as int, y as int, sz as int, z as int),
                                cell_bits(t, x as int, y as int, z as int, t.spec_size()),
                                i,
                            );
                            assert(bits_z(t, x as int, y as int, sz as int, z as int + 1).contains(
                                i,
                            ) == (bits_z(t, x as int, y as int, sz as int, z as int).contains(i)
                                || cell_bits(t, x as int, y as int, z as int, t.spec_size()).contains(
                                i,
                            )));
                        }
                    }
                    z = z + 1;
                }
                proof {
                    if z != ez {
                        assert(bits_z(t, x as int, y as int, sz as int, ez as int)
                            =~= Seq::<int>::empty());
                        assert(bits_z(t, x as int, y as int, sz as int, z as int)
                            =~= Seq::<int>::empty());
                    }
                    assert forall|i: int|
                        bits.spec_bit(i) == (xbits + bits_y(
                            t,
                            x as int,
                            sy as int,
                            y as int + 1,
                            sz as int,
                            ez as int,
                        )).contains(i) by {
                        lemma_contains_concat(
                            ybits,
                            bits_z(t, x as int, y as int, sz as int, ez as int),
                            i,
                        );
                        lemma_contains_concat(
                            xbits,
                            bits_y(t, x as int, sy as int, y as int, sz as int, ez as int),
                            i,
                        );
                        lemma_contains_concat(
                            xbits,
                            bits_y(t, x as int, sy as int, y as int + 1, sz as int, ez as int),
                            i,
                        );
                        lemma_contains_concat(
                            bits_y(t, x as int, sy as int, y as int, sz as int, ez as int),
                            bits_z(t, x as int, y as int, sz as int, ez as int),
                            i,
                        );
                        assert(bits_y(t, x as int, sy as int, y as int + 1, sz as int, ez as int)
                            == bits_y(t, x as int, sy as int, y as int, sz as int, ez as int)
                            + bits_z(t, x as int, y as int, sz as int, ez as int));
                    }
                }
                y = y + 1;
            }
            proof {
                if y != ey {
                    assert(bits_y(t, x as int, sy as int, ey as int, sz as int, ez as int)
                        =~= Seq::<int>::empty());
                    assert(bits_y(t, x as int, sy as int, y as int, sz as int, ez as int)
                        =~= Seq::<int>::empty());
                }
                assert forall|i: int|
                    bits.spec_bit(i) == (rootbits + bits_x(
                        t,
                        sx as int,
                        x as int + 1,
                        sy as int,
                        ey as int,
                        sz as int,
                        ez as int,
                    )).contains(i) by {
                    lemma_contains_concat(
                        xbits,
                        bits_y(t, x as int, sy as int, ey as int, sz as int, ez as int),
                        i,
                    );
                    lemma_contains_concat(
                        rootbits,
                        bits_x(t, sx as int, x as int, sy as int, ey as int, sz as int, ez as int),
                        i,
                    );
                    lemma_contains_concat(
                        rootbits,
                        bits_x(
                            t,
                            sx as int,
                            x as int + 1,
                            sy as int,
                            ey as int,
                            sz as int,
                            ez as int,
                        ),
                        i,
                    );
                    lemma_contains_concat(
                        bits_x(t, sx as int, x as int, sy as int, ey as int, sz as int, ez as int),
                        bits_y(t, x as int, sy as int, ey as int, sz as int, ez as int),
                        i,
                    );
                    assert(bits_x(t, sx as int, x as int + 1, sy as int, ey as int, sz as int, ez as int)
                        == bits_x(t, sx as int, x as int, sy as int, ey as int, sz as int, ez as int)
                        + bits_y(t, x as int, sy as int, ey as int, sz as int, ez as int));
                }
            }
            x = x + 1;
        }
        proof {
            if x != ex {
                assert(bits_x(t, sx as int, ex as int, sy as int, ey as int, sz as int, ez as int)
                    =~= Seq::<int>::empty());
                assert(bits_x(t, sx as int, x as int, sy as int, ey as int, sz as int, ez as int)
                    =~= Seq::<int>::empty());
            }
            assert(region_bits(t, transformation.regions@[0]) == rootbits + bits_x(
                t,
                sx as int,
                ex as int,
                sy as int,
                ey as int,
                sz as int,
                ez as int,
            ));
        }
        bits
    }
}

} // verus!
