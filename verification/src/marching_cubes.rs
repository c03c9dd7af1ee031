//! Bookkeeping of marching-cubes meshing: cube corner and edge numbering,
//! the keys that weld vertices shared by neighbouring cells, the case index
//! of a cube, where a voxel is read from, and vertex deduplication.
//!
//! Corners of a cube are numbered `x + 2 * y + 4 * z` for `x, y, z` in
//! `{0, 1}`.
use vstd::prelude::*;
use crate::point_map::PointMap;
use crate::pos_map::PosMap;
use vstd::arithmetic::div_mod::lemma_fundamental_div_mod_converse;

verus! {

/// Number of voxels along each side of a chunk that is meshed.
pub const CHUNK_WIDTH: usize = 16;

/// Offset of corner `c` along x.
pub open spec fn corner_x(c: int) -> int {
    c % 2
}

/// Offset of corner `c` along y.
pub open spec fn corner_y(c: int) -> int {
    (c / 2) % 2
}

/// Offset of corner `c` along z.
pub open spec fn corner_z(c: int) -> int {
    c / 4
}

/// The two corners joined by edge `e` (of 12).
pub open spec fn spec_edge_corners(e: int) -> (int, int) {
    if e == 0 {
        (0, 1)
    } else if e == 1 {
        (1, 3)
    } else if e == 2 {
        (3, 2)
    } else if e == 3 {
        (2, 0)
    } else if e == 4 {
        (4, 5)
    } else if e == 5 {
        (5, 7)
    } else if e == 6 {
        (7, 6)
    } else if e == 7 {
        (6, 4)
    } else if e == 8 {
        (0, 4)
    } else if e == 9 {
        (1, 5)
    } else if e == 10 {
        (3, 7)
    } else {
        (2, 6)
    }
}

/// The corner of edge `e` nearest the origin, and the axis (0, 1, 2 for x, y,
/// z) the edge runs along: `(x, y, z, axis)`.
pub open spec fn spec_edge_key_offset(e: int) -> (int, int, int, int) {
    if e == 0 {
        (0, 0, 0, 0)
    } else if e == 1 {
        (1, 0, 0, 1)
    } else if e == 2 {
        (0, 1, 0, 0)
    } else if e == 3 {
        (0, 0, 0, 1)
    } else if e == 4 {
        (0, 0, 1, 0)
    } else if e == 5 {
        (1, 0, 1, 1)
    } else if e == 6 {
        (0, 1, 1, 0)
    } else if e == 7 {
        (0, 0, 1, 1)
    } else if e == 8 {
        (0, 0, 0, 2)
    } else if e == 9 {
        (1, 0, 0, 2)
    } else if e == 10 {
        (1, 1, 0, 2)
    } else {
        (0, 1, 0, 2)
    }
}

/// The corners joined by each of the 12 cube edges.
pub fn edge_vertex_indices(e: usize) -> (r: [u8; 2])
    requires
        e < 12,
    ensures
        r[0] == spec_edge_corners(e as int).0,
        r[1] == spec_edge_corners(e as int).1,
{
    match e {
        0 => [0, 1],
        1 => [1, 3],
        2 => [3, 2],
        3 => [2, 0],
        4 => [4, 5],
        5 => [5, 7],
        6 => [7, 6],
        7 => [6, 4],
        8 => [0, 4],
        9 => [1, 5],
        10 => [3, 7],
        _ => [2, 6],
    }
}

/// The key offset of each edge: its corner nearest the origin and its axis.
pub fn edge_hashmap_data(e: usize) -> (r: [isize; 4])
    requires
        e < 12,
    ensures
        r[0] == spec_edge_key_offset(e as int).0,
        r[1] == spec_edge_key_offset(e as int).1,
        r[2] == spec_edge_key_offset(e as int).2,
        r[3] == spec_edge_key_offset(e as int).3,
{
    match e {
        0 => [0, 0, 0, 0],
        1 => [1, 0, 0, 1],
        2 => [0, 1, 0, 0],
        3 => [0, 0, 0, 1],
        4 => [0, 0, 1, 0],
        5 => [1, 0, 1, 1],
        6 => [0, 1, 1, 0],
        7 => [0, 0, 1, 1],
        8 => [0, 0, 0, 2],
        9 => [1, 0, 0, 2],
        10 => [1, 1, 0, 2],
        _ => [0, 1, 0, 2],
    }
}

/// World coordinate of a cell along one axis: chunk coordinate times the
/// chunk width plus the offset inside the chunk (offset taken as `isize`).
pub open spec fn world_cell(pos: i32, offset: usize) -> int {
    pos * CHUNK_WIDTH + (offset as isize)
}

/// The key of the point on edge `e` of the cell at `offset` in chunk `pos`:
/// the world position of the edge's corner nearest the origin, and the
/// edge's axis.
pub open spec fn spec_point_hash(e: int, pos: [i32; 3], offset: [usize; 3]) -> (int, int, int, int) {
    let k = spec_edge_key_offset(e);
    (
        k.0 + world_cell(pos[0], offset[0]),
        k.1 + world_cell(pos[1], offset[1]),
        k.2 + world_cell(pos[2], offset[2]),
        k.3,
    )
}

/// The key components stay within `isize`.
pub open spec fn point_hash_fits(e: int, pos: [i32; 3], offset: [usize; 3]) -> bool {
    let h = spec_point_hash(e, pos, offset);
    &&& isize::MIN <= pos[0] * CHUNK_WIDTH <= isize::MAX
    &&& isize::MIN <= pos[1] * CHUNK_WIDTH <= isize::MAX
    &&& isize::MIN <= pos[2] * CHUNK_WIDTH <= isize::MAX
    &&& isize::MIN <= world_cell(pos[0], offset[0]) <= isize::MAX
    &&& isize::MIN <= world_cell(pos[1], offset[1]) <= isize::MAX
    &&& isize::MIN <= world_cell(pos[2], offset[2]) <= isize::MAX
    &&& isize::MIN <= h.0 <= isize::MAX
    &&& isize::MIN <= h.1 <= isize::MAX
    &&& isize::MIN <= h.2 <= isize::MAX
}

/// The key under which the mesh stores the point on edge `idx` of the cell
/// at `offset` inside the chunk at `pos`; points of neighbouring cells that
/// lie on the same lattice edge get the same key.
pub fn edge_idx_to_point_hash(idx: i8, pos: [i32; 3], offset: [usize; 3]) -> (r: [isize; 4])
    requires
        0 <= idx < 12,
        point_hash_fits(idx as int, pos, offset),
    ensures
        r[0] == spec_point_hash(idx as int, pos, offset).0,
        r[1] == spec_point_hash(idx as int, pos, offset).1,
        r[2] == spec_point_hash(idx as int, pos, offset).2,
        r[3] == spec_point_hash(idx as int, pos, offset).3,
{
    let mut hash = edge_hashmap_data(idx as usize);
    let w = CHUNK_WIDTH as isize;
    hash[0] += (pos[0] as isize) * w + (offset[0] as isize);
    hash[1] += (pos[1] as isize) * w + (offset[1] as isize);
    hash[2] += (pos[2] as isize) * w + (offset[2] as isize);
    hash
}

/// Weight of corner `c` in the case index when it lies inside the surface.
pub open spec fn corner_weight(inside: bool, c: int) -> int {
    if inside {
        if c == 0 {
            1
        } else if c == 1 {
            2
        } else if c == 2 {
            4
        } else if c == 3 {
            8
        } else if c == 4 {
            16
        } else if c == 5 {
            32
        } else if c == 6 {
            64
        } else {
            128
        }
    } else {
        0
    }
}

/// The case index of a cube given which of its corners `0..n` lie inside:
/// bit `c` is set exactly for the inside corners.
pub open spec fn partial_case_index(inside: [bool; 8], n: int) -> int
    decreases n,
{
    if n <= 0 {
        0
    } else {
        partial_case_index(inside, n - 1) + corner_weight(inside[n - 1], n - 1)
    }
}

/// The case index of a cube from the eight corners.
pub open spec fn spec_case_index(inside: [bool; 8]) -> int {
    partial_case_index(inside, 8)
}

proof fn lemma_set_bit(idx: u8, c: u8)
    by (bit_vector)
    requires
        c < 8,
        idx < (1u8 << c),
    ensures
        (idx | (1u8 << c)) == idx + (1u8 << c),
        idx + (1u8 << c) < 256,
        c < 7 ==> idx + (1u8 << c) < (1u8 << ((c + 1) as u8)),
        (idx | (0u8 << c)) == idx,
        c < 7 ==> idx < (1u8 << ((c + 1) as u8)),
{
}

/// The marching-cubes case of a cube: bit `x + 2 * y + 4 * z` of the index is
/// set when that corner lies inside the surface.
pub fn case_index(inside: [bool; 8]) -> (r: u8)
    ensures
        r == spec_case_index(inside),
{
    let mut idx: u8 = 0;
    let mut c: u8 = 0;
    assert(0u8 < (1u8 << 0u8)) by (bit_vector);
    while c < 8
        invariant
            c <= 8,
            idx == partial_case_index(inside, c as int),
            c < 8 ==> idx < (1u8 << c),
        decreases 8 - c,
    {
        let bit: u8 = if inside[c as usize] { 1 } else { 0 };
        proof {
            lemma_set_bit(idx, c);
            assert(c == 0 ==> (1u8 << c) == 1) by (bit_vector);
            assert(c == 1 ==> (1u8 << c) == 2) by (bit_vector);
            assert(c == 2 ==> (1u8 << c) == 4) by (bit_vector);
            assert(c == 3 ==> (1u8 << c) == 8) by (bit_vector);
            assert(c == 4 ==> (1u8 << c) == 16) by (bit_vector);
            assert(c == 5 ==> (1u8 << c) == 32) by (bit_vector);
            assert(c == 6 ==> (1u8 << c) == 64) by (bit_vector);
            assert(c == 7 ==> (1u8 << c) == 128) by (bit_vector);
        }
        idx = idx | (bit << c);
        c += 1;
    }
    idx
}

/// Bit `c` of the case index is set exactly when corner `c` lies inside.
#[verifier::spinoff_prover]
pub proof fn lemma_case_index_bits(inside: [bool; 8], c: int)
    requires
        0 <= c < 8,
    ensures
        0 <= spec_case_index(inside) < 256,
        (spec_case_index(inside) / corner_weight(true, c)) % 2 == (if inside[c] { 1int } else { 0int }),
{
    reveal_with_fuel(partial_case_index, 9);
    let b0 = corner_weight(inside[0], 0);
    let b1 = corner_weight(inside[1], 1);
    let b2 = corner_weight(inside[2], 2);
    let b3 = corner_weight(inside[3], 3);
    let b4 = corner_weight(inside[4], 4);
    let b5 = corner_weight(inside[5], 5);
    let b6 = corner_weight(inside[6], 6);
    let b7 = corner_weight(inside[7], 7);
    assert(spec_case_index(inside) == b0 + b1 + b2 + b3 + b4 + b5 + b6 + b7);
}

/// Position of corner `c` of the cell at world position `w`.
pub open spec fn corner_at(w: (int, int, int), c: int) -> (int, int, int) {
    (w.0 + corner_x(c), w.1 + corner_y(c), w.2 + corner_z(c))
}

/// The unit step along an axis.
pub open spec fn unit(axis: int) -> (int, int, int) {
    if axis == 0 {
        (1, 0, 0)
    } else if axis == 1 {
        (0, 1, 0)
    } else {
        (0, 0, 1)
    }
}

/// The key of edge `e` of the cell at world position `w`.
pub open spec fn edge_key(e: int, w: (int, int, int)) -> (int, int, int, int) {
    let k = spec_edge_key_offset(e);
    (w.0 + k.0, w.1 + k.1, w.2 + k.2, k.3)
}

/// Whether the segments `a1-b1` and `a2-b2` have the same end points.
pub open spec fn same_segment(
    a1: (int, int, int),
    b1: (int, int, int),
    a2: (int, int, int),
    b2: (int, int, int),
) -> bool {
    (a1 == a2 && b1 == b2) || (a1 == b2 && b1 == a2)
}

/// Each edge joins two corners one unit apart along the edge's axis, the
/// lower of which is the key offset.
pub proof fn lemma_edge_table_consistent(e: int)
    requires
        0 <= e < 12,
    ensures
        ({
            let (c1, c2) = spec_edge_corners(e);
            let k = spec_edge_key_offset(e);
            let lo = (k.0, k.1, k.2);
            let u = unit(k.3);
            &&& 0 <= c1 < 8 && 0 <= c2 < 8
            &&& 0 <= k.3 < 3
            &&& same_segment(
                corner_at((0, 0, 0), c1),
                corner_at((0, 0, 0), c2),
                lo,
                (lo.0 + u.0, lo.1 + u.1, lo.2 + u.2),
            )
        }),
{
}

/// The standard numbering of the twelve cube edges, with corner `c` at
/// `(x, y, z)` for `c = x + 2y + 4z`: edges 0 to 3 go once round the face
/// z = 0, starting from corner 0 towards corner 1 and turning to corner 3
/// (each edge starts where the one before ends, and they start at four
/// different corners); edge `e + 4` is edge `e` lifted to the face z = 1;
/// edge `8 + k` rises from the corner where edge `k` starts. Each edge of a
/// case-table entry thus names the same segment of the cube in every table
/// that follows this numbering.
pub proof fn lemma_standard_edge_numbering()
    ensures
        forall|c: int|
            0 <= c < 8 ==> {
                &&& 0 <= #[trigger] corner_x(c) <= 1 && 0 <= corner_y(c) <= 1 && 0 <= corner_z(c) <= 1
                &&& c == corner_x(c) + 2 * corner_y(c) + 4 * corner_z(c)
            },
        spec_edge_corners(0) == (0int, 1int),
        spec_edge_corners(1).0 == 1,
        forall|e: int|
            0 <= e < 4 ==> {
                let (a, b) = #[trigger] spec_edge_corners(e);
                &&& 0 <= a < 4 && 0 <= b < 4
                &&& corner_z(a) == 0 && corner_z(b) == 0
                &&& (corner_x(a) == corner_x(b)) != (corner_y(a) == corner_y(b))
                &&& b == spec_edge_corners((e + 1) % 4).0
                &&& spec_edge_corners(e + 4) == (a + 4, b + 4)
                &&& spec_edge_corners(e + 8) == (a, a + 4)
            },
        forall|e1: int, e2: int|
            0 <= e1 < 4 && 0 <= e2 < 4 && e1 != e2 ==> #[trigger] spec_edge_corners(e1).0
                != #[trigger] spec_edge_corners(e2).0,
{
    assert forall|e: int| 0 <= e < 4 implies {
        let (a, b) = #[trigger] spec_edge_corners(e);
        &&& 0 <= a < 4 && 0 <= b < 4
        &&& corner_z(a) == 0 && corner_z(b) == 0
        &&& (corner_x(a) == corner_x(b)) != (corner_y(a) == corner_y(b))
        &&& b == spec_edge_corners((e + 1) % 4).0
        &&& spec_edge_corners(e + 4) == (a + 4, b + 4)
        &&& spec_edge_corners(e + 8) == (a, a + 4)
    } by {
        if e == 0 {
        } else if e == 1 {
        } else if e == 2 {
        } else {
            assert(e == 3);
        }
    }
}

/// Two cell edges get the same key exactly when they are the same segment of
/// the voxel lattice, so the mesh welds the points that neighbouring cells
/// place on a shared edge and keeps all others apart.
pub proof fn lemma_edge_key_welds(e1: int, w1: (int, int, int), e2: int, w2: (int, int, int))
    requires
        0 <= e1 < 12,
        0 <= e2 < 12,
    ensures
        edge_key(e1, w1) == edge_key(e2, w2) <==> same_segment(
            corner_at(w1, spec_edge_corners(e1).0),
            corner_at(w1, spec_edge_corners(e1).1),
            corner_at(w2, spec_edge_corners(e2).0),
            corner_at(w2, spec_edge_corners(e2).1),
        ),
{
    lemma_edge_table_consistent(e1);
    lemma_edge_table_consistent(e2);
}

/// The point key computed for an edge of a chunk cell is that edge's key in
/// world coordinates.
pub proof fn lemma_point_hash_is_edge_key(e: int, pos: [i32; 3], offset: [usize; 3])
    ensures
        spec_point_hash(e, pos, offset) == edge_key(
            e,
            (
                world_cell(pos[0], offset[0]),
                world_cell(pos[1], offset[1]),
                world_cell(pos[2], offset[2]),
            ),
        ),
{
}

/// A chunk position.
pub use crate::pos_map::ChunkPos;

/// The chunk position held in an array.
pub open spec fn pos_of(p: [i32; 3]) -> ChunkPos {
    (p[0], p[1], p[2])
}

/// Where a voxel value is read from.
#[derive(PartialEq, Eq, Debug, Clone, Copy)]
pub enum VoxelRef {
    /// The chunk's own voxel at these local coordinates.
    Own { x: usize, y: usize, z: usize },
    /// The voxel at these local coordinates of the chunk at `pos`.
    Neighbor { pos: [i32; 3], x: usize, y: usize, z: usize },
}

/// The chunk, relative to `base`, that holds coordinate `c` (which may run
/// past the chunk's width).
pub open spec fn neighbor_coord(base: i32, c: usize) -> int {
    ((c / CHUNK_WIDTH) as i32) + base
}

/// A coordinate clamped to the chunk.
pub open spec fn clamp_coord(c: usize) -> usize {
    if c < CHUNK_WIDTH {
        c
    } else {
        (CHUNK_WIDTH - 1) as usize
    }
}

/// Where the voxel at local coordinates `(x, y, z)` of the chunk at `pos` is
/// read from, given the positions of the chunks present: inside the chunk
/// it is the chunk's own voxel; past its border it is the matching voxel of
/// the neighbouring chunk when that chunk is present, and otherwise the
/// chunk's own voxel nearest to the point.
pub open spec fn spec_voxel_ref(present: Set<ChunkPos>, pos: [i32; 3], x: usize, y: usize, z: usize) -> VoxelRef {
    if x < CHUNK_WIDTH && y < CHUNK_WIDTH && z < CHUNK_WIDTH {
        VoxelRef::Own { x, y, z }
    } else {
        let n = (
            neighbor_coord(pos[0], x) as i32,
            neighbor_coord(pos[1], y) as i32,
            neighbor_coord(pos[2], z) as i32,
        );
        if present.contains(n) {
            VoxelRef::Neighbor {
                pos: [n.0, n.1, n.2],
                x: (x % CHUNK_WIDTH) as usize,
                y: (y % CHUNK_WIDTH) as usize,
                z: (z % CHUNK_WIDTH) as usize,
            }
        } else {
            VoxelRef::Own { x: clamp_coord(x), y: clamp_coord(y), z: clamp_coord(z) }
        }
    }
}

/// The chunks taking part in meshing, by position.
#[verifier::reject_recursive_types(C)]
pub struct Voxels<C> {
    chunks: PosMap<C>,
}

impl<C> View for Voxels<C> {
    type V = Map<ChunkPos, C>;

    closed spec fn view(&self) -> Map<ChunkPos, C> {
        self.chunks@
    }
}

impl<C> Voxels<C> {
    /// The internal map is well formed.
    pub closed spec fn wf(&self) -> bool {
        self.chunks.wf()
    }

    /// No chunks.
    pub fn new() -> (r: Self)
        ensures
            r.wf(),
            r@ == Map::<ChunkPos, C>::empty(),
    {
        Voxels { chunks: PosMap::new() }
    }

    /// Whether a chunk is present at `pos`.
    pub fn contains(&self, pos: [i32; 3]) -> (r: bool)
        requires
            self.wf(),
        ensures
            r == self@.contains_key(pos_of(pos)),
    {
        self.chunks.contains_key(&(pos[0], pos[1], pos[2]))
    }

    /// Adds a chunk at a position that holds none yet, and returns it.
    pub fn insert_chunk(&mut self, pos: [i32; 3], chunk: C) -> (r: &C)
        requires
            old(self).wf(),
            !old(self)@.contains_key(pos_of(pos)),
        ensures
            final(self).wf(),
            final(self)@ == old(self)@.insert(pos_of(pos), chunk),
            *r == chunk,
    {
        let key = (pos[0], pos[1], pos[2]);
        self.chunks.insert(key, chunk);
        self.get_chunk(pos)
    }

    /// The chunk at a position that holds one.
    pub fn get_chunk(&self, pos: [i32; 3]) -> (r: &C)
        requires
            self.wf(),
            self@.contains_key(pos_of(pos)),
        ensures
            *r == self@[pos_of(pos)],
    {
        self.chunks.get(&(pos[0], pos[1], pos[2])).unwrap()
    }

    /// Removes the chunk at a position that holds one.
    pub fn del_chunk(&mut self, pos: [i32; 3]) -> (r: Option<C>)
        requires
            old(self).wf(),
            old(self)@.contains_key(pos_of(pos)),
        ensures
            final(self).wf(),
            final(self)@ == old(self)@.remove(pos_of(pos)),
            r == Some(old(self)@[pos_of(pos)]),
    {
        self.chunks.remove(&(pos[0], pos[1], pos[2]))
    }

    /// Where the voxel at `(x, y, z)` of the chunk at `pos` is read from (see
    /// [`spec_voxel_ref`]).
    pub fn locate_voxel(&self, pos: [i32; 3], x: usize, y: usize, z: usize) -> (r: VoxelRef)
        requires
            self.wf(),
            !(x < CHUNK_WIDTH && y < CHUNK_WIDTH && z < CHUNK_WIDTH) ==> {
                &&& i32::MIN <= neighbor_coord(pos[0], x) <= i32::MAX
                &&& i32::MIN <= neighbor_coord(pos[1], y) <= i32::MAX
                &&& i32::MIN <= neighbor_coord(pos[2], z) <= i32::MAX
            },
        ensures
            r == spec_voxel_ref(self@.dom(), pos, x, y, z),
    {
        if x < CHUNK_WIDTH && y < CHUNK_WIDTH && z < CHUNK_WIDTH {
            return VoxelRef::Own { x, y, z };
        }
        let chunk_x = ((x / CHUNK_WIDTH) as i32) + pos[0];
        let chunk_y = ((y / CHUNK_WIDTH) as i32) + pos[1];
        let chunk_z = ((z / CHUNK_WIDTH) as i32) + pos[2];
        let idx = [chunk_x, chunk_y, chunk_z];
        if self.contains(idx) {
            return VoxelRef::Neighbor {
                pos: idx,
                x: x % CHUNK_WIDTH,
                y: y % CHUNK_WIDTH,
                z: z % CHUNK_WIDTH,
            };
        }
        let new_x = if x < CHUNK_WIDTH - 1 { x } else { CHUNK_WIDTH - 1 };
        let new_y = if y < CHUNK_WIDTH - 1 { y } else { CHUNK_WIDTH - 1 };
        let new_z = if z < CHUNK_WIDTH - 1 { z } else { CHUNK_WIDTH - 1 };
        VoxelRef::Own { x: new_x, y: new_y, z: new_z }
    }
}

/// A triangle of a mesh, by the indices of its three vertices.
#[derive(PartialEq, Eq, Debug, Clone, Copy)]
pub struct Face {
    pub points: [usize; 3],
}

impl Face {
    /// The face with these vertex indices.
    pub fn from_idxs(idxs: [usize; 3]) -> (r: Self)
        ensures
            r.points == idxs,
    {
        Face { points: idxs }
    }
}

/// A triangle of a mesh, by the indices of its three vertices.
#[derive(PartialEq, Eq, Debug, Clone, Copy)]
pub struct Triangle {
    pub points: [usize; 3],
}

impl Triangle {
    /// The triangle with these vertex indices.
    pub fn from_idxs(idxs: [usize; 3]) -> (r: Self)
        ensures
            r.points == idxs,
    {
        Triangle { points: idxs }
    }
}

/// Three components of one type.
#[derive(Debug)]
pub struct Vec3<T> {
    pub x: T,
    pub y: T,
    pub z: T,
}

/// The key under which a mesh point is stored.
pub use crate::point_map::PointKey;

/// The key held in an array.
pub open spec fn key_of(h: [isize; 4]) -> PointKey {
    (h[0], h[1], h[2], h[3])
}

/// Adding one point under `key` to a mesh with the given key table and
/// vertex list: a known key gives its vertex back and changes nothing; a new
/// key appends the vertex and records its index.
pub open spec fn point_step<V>(points: Map<PointKey, usize>, vertices: Seq<V>, vertex: V, key: PointKey) -> (
    Map<PointKey, usize>,
    Seq<V>,
    usize,
) {
    if points.contains_key(key) {
        (points, vertices, points[key])
    } else {
        (points.insert(key, vertices.len() as usize), vertices.push(vertex), vertices.len() as usize)
    }
}

/// A triangle mesh whose vertices are shared between faces by key.
pub struct Mesh<V> {
    vertices: Vec<V>,
    faces: Vec<Face>,
    hashed_points: PointMap,
}

impl<V> Mesh<V> {
    /// The vertices.
    pub closed spec fn vertex_list(&self) -> Seq<V> {
        self.vertices@
    }

    /// The faces.
    pub closed spec fn face_list(&self) -> Seq<Face> {
        self.faces@
    }

    /// The vertex index stored under each key.
    pub closed spec fn point_table(&self) -> Map<PointKey, usize> {
        self.hashed_points@
    }

    /// Every recorded index and every face corner names an existing vertex.
    pub closed spec fn wf(&self) -> bool {
        &&& forall|k: PointKey| #[trigger] self.hashed_points@.contains_key(k) ==> self.hashed_points@[k] < self.vertices@.len()
        &&& forall|i: int, j: int|
            0 <= i < self.faces@.len() && 0 <= j < 3 ==> #[trigger] self.faces@[i].points[j] < self.vertices@.len()
    }

    /// An empty mesh.
    pub fn new() -> (r: Self)
        ensures
            r.wf(),
            r.vertex_list() == Seq::<V>::empty(),
            r.face_list() == Seq::<Face>::empty(),
            r.point_table() == Map::<PointKey, usize>::empty(),
    {
        Mesh { vertices: Vec::new(), faces: Vec::new(), hashed_points: PointMap::new() }
    }

    /// Removes all vertices, faces and keys.
    pub fn clear(&mut self)
        ensures
            final(self).wf(),
            final(self).vertex_list() == Seq::<V>::empty(),
            final(self).face_list() == Seq::<Face>::empty(),
            final(self).point_table() == Map::<PointKey, usize>::empty(),
    {
        self.vertices.clear();
        self.faces.clear();
        self.hashed_points = PointMap::new();
    }

    /// Number of vertices.
    pub fn vertex_count(&self) -> (r: usize)
        ensures
            r == self.vertex_list().len(),
    {
        self.vertices.len()
    }

    /// Number of faces.
    pub fn face_count(&self) -> (r: usize)
        ensures
            r == self.face_list().len(),
    {
        self.faces.len()
    }

    /// The vertex at an index.
    pub fn vertex(&self, i: usize) -> (r: &V)
        requires
            i < self.vertex_list().len(),
        ensures
            *r == self.vertex_list()[i as int],
    {
        &self.vertices[i]
    }

    /// The face at an index.
    pub fn face(&self, i: usize) -> (r: Face)
        requires
            i < self.face_list().len(),
        ensures
            r == self.face_list()[i as int],
    {
        self.faces[i]
    }

    /// The index of the point stored under `hash`, adding `vertex` under it
    /// first when the key is new.
    pub fn add_point(&mut self, vertex: V, hash: [isize; 4]) -> (r: usize)
        requires
            old(self).wf(),
            old(self).vertex_list().len() < usize::MAX,
        ensures
            final(self).wf(),
            (final(self).point_table(), final(self).vertex_list(), r) == point_step(
                old(self).point_table(),
                old(self).vertex_list(),
                vertex,
                key_of(hash),
            ),
            final(self).face_list() == old(self).face_list(),
    {
        let key = (hash[0], hash[1], hash[2], hash[3]);
        match self.hashed_points.get(&key) {
            Some(i) => {
                return i;
            },
            None => {},
        }
        let idx = self.vertices.len();
        self.hashed_points.insert(key, idx);
        self.vertices.push(vertex);
        idx
    }

    /// Adds a face through three points, each added as by [`Mesh::add_point`].
    pub fn add_face(&mut self, v1: V, v2: V, v3: V, hashes: [[isize; 4]; 3])
        requires
            old(self).wf(),
            old(self).vertex_list().len() + 3 <= usize::MAX,
        ensures
            final(self).wf(),
            ({
                let s1 = point_step(old(self).point_table(), old(self).vertex_list(), v1, key_of(hashes[0]));
                let s2 = point_step(s1.0, s1.1, v2, key_of(hashes[1]));
                let s3 = point_step(s2.0, s2.1, v3, key_of(hashes[2]));
                &&& final(self).point_table() == s3.0
                &&& final(self).vertex_list() == s3.1
                &&& final(self).face_list() == old(self).face_list().push(Face { points: [s1.2, s2.2, s3.2] })
            }),
    {
        let p1 = self.add_point(v1, hashes[0]);
        let p2 = self.add_point(v2, hashes[1]);
        let p3 = self.add_point(v3, hashes[2]);
        let face = Face::from_idxs([p1, p2, p3]);
        self.faces.push(face);
    }
}

/// Adding a point under a key that is already known gives the same index
/// again and leaves the mesh unchanged.
pub proof fn lemma_point_step_idempotent<V>(points: Map<PointKey, usize>, vertices: Seq<V>, v: V, w: V, key: PointKey)
    ensures
        ({
            let s1 = point_step(points, vertices, v, key);
            let s2 = point_step(s1.0, s1.1, w, key);
            s2 == (s1.0, s1.1, s1.2)
        }),
{
}

/// A cell addressed from another chunk, at the same place in the world,
/// gets the same point keys: the key depends only on the world cell.
pub proof fn lemma_point_hash_world_cell(e: int, pos: [i32; 3], offset: [usize; 3], pos2: [i32; 3], offset2: [usize; 3])
    requires
        forall|i: int| 0 <= i < 3 ==> offset[i] <= isize::MAX && offset2[i] <= isize::MAX,
        forall|i: int| 0 <= i < 3 ==> pos[i] * CHUNK_WIDTH + offset[i] == pos2[i] * CHUNK_WIDTH + offset2[i],
    ensures
        spec_point_hash(e, pos, offset) == spec_point_hash(e, pos2, offset2),
{
    assert(pos[0] * CHUNK_WIDTH + offset[0] == pos2[0] * CHUNK_WIDTH + offset2[0]);
    assert(pos[1] * CHUNK_WIDTH + offset[1] == pos2[1] * CHUNK_WIDTH + offset2[1]);
    assert(pos[2] * CHUNK_WIDTH + offset[2] == pos2[2] * CHUNK_WIDTH + offset2[2]);
}

/// A face to add: its three vertices and the keys of their points.
pub type FaceRequest<V> = (V, V, V, PointKey, PointKey, PointKey);

/// A mesh as values: the point table, the vertices and the faces.
pub type MeshState<V> = (Map<PointKey, usize>, Seq<V>, Seq<Face>);

/// The mesh after adding one face, as [`Mesh::add_face`] does.
pub open spec fn apply_face<V>(st: MeshState<V>, f: FaceRequest<V>) -> MeshState<V> {
    let s1 = point_step(st.0, st.1, f.0, f.3);
    let s2 = point_step(s1.0, s1.1, f.1, f.4);
    let s3 = point_step(s2.0, s2.1, f.2, f.5);
    (s3.0, s3.1, st.2.push(Face { points: [s1.2, s2.2, s3.2] }))
}

/// The mesh after adding the faces `fs` in order.
pub open spec fn apply_faces<V>(st: MeshState<V>, fs: Seq<FaceRequest<V>>) -> MeshState<V>
    decreases fs.len(),
{
    if fs.len() == 0 {
        st
    } else {
        apply_faces(apply_face(st, fs[0]), fs.drop_first())
    }
}

/// The key of the point on edge `e` of the cell at `offset` in chunk `pos`.
pub open spec fn point_key(e: int, pos: [i32; 3], offset: [usize; 3]) -> PointKey {
    let h = spec_point_hash(e, pos, offset);
    (h.0 as isize, h.1 as isize, h.2 as isize, h.3 as isize)
}

/// Which corners of cell `(x, y, z)` lie inside, as `c` reports.
pub open spec fn corner_flags<C: Fn(usize, usize, usize) -> [bool; 8]>(c: C, x: usize, y: usize, z: usize) -> [bool; 8] {
    choose|f: [bool; 8]| call_ensures(c, (x, y, z), f)
}

/// The vertex that `p` places on edge `e` of cell `(x, y, z)`.
pub open spec fn edge_point<V, P: Fn(usize, usize, usize, i8) -> V>(p: P, x: usize, y: usize, z: usize, e: i8) -> V {
    choose|v: V| call_ensures(p, (x, y, z, e), v)
}

/// `c` can be called on every cell and gives one answer for each.
pub open spec fn corners_is_function<C: Fn(usize, usize, usize) -> [bool; 8]>(c: C) -> bool {
    &&& forall|x: usize, y: usize, z: usize| call_requires(c, (x, y, z))
    &&& forall|x: usize, y: usize, z: usize, f1: [bool; 8], f2: [bool; 8]|
        call_ensures(c, (x, y, z), f1) && call_ensures(c, (x, y, z), f2) ==> f1 == f2
}

/// `p` can be called on every cell edge and gives one vertex for each.
pub open spec fn point_is_function<V, P: Fn(usize, usize, usize, i8) -> V>(p: P) -> bool {
    &&& forall|x: usize, y: usize, z: usize, e: i8| call_requires(p, (x, y, z, e))
    &&& forall|x: usize, y: usize, z: usize, e: i8, v1: V, v2: V|
        call_ensures(p, (x, y, z, e), v1) && call_ensures(p, (x, y, z, e), v2) ==> v1 == v2
}

/// The faces of the triangles from number `t` on of a cell whose case
/// lists the edges `edges`, three per triangle.
pub open spec fn triangle_faces<V, P: Fn(usize, usize, usize, i8) -> V>(
    edges: Seq<i8>,
    t: int,
    pos: [i32; 3],
    x: usize,
    y: usize,
    z: usize,
    p: P,
) -> Seq<FaceRequest<V>>
    decreases edges.len() - 3 * t,
{
    if t < 0 || 3 * t + 2 >= edges.len() {
        Seq::empty()
    } else {
        let (e0, e1, e2) = (edges[3 * t], edges[3 * t + 1], edges[3 * t + 2]);
        seq![
            (
                edge_point(p, x, y, z, e0),
                edge_point(p, x, y, z, e1),
                edge_point(p, x, y, z, e2),
                point_key(e0 as int, pos, [x, y, z]),
                point_key(e1 as int, pos, [x, y, z]),
                point_key(e2 as int, pos, [x, y, z]),
            ),
        ] + triangle_faces(edges, t + 1, pos, x, y, z, p)
    }
}

/// Number of cells of a chunk.
pub open spec fn cell_count() -> int {
    (CHUNK_WIDTH * CHUNK_WIDTH * CHUNK_WIDTH) as int
}

/// The cell visited `k`-th: z slowest, then y, then x.
pub open spec fn cell_of(k: int) -> (usize, usize, usize) {
    (
        (k % CHUNK_WIDTH as int) as usize,
        ((k / CHUNK_WIDTH as int) % CHUNK_WIDTH as int) as usize,
        (k / (CHUNK_WIDTH * CHUNK_WIDTH) as int) as usize,
    )
}

/// The faces of the cells from the `k`-th on: each cell's corner case picks
/// its triangles from `table`.
pub open spec fn mesh_faces<V, C: Fn(usize, usize, usize) -> [bool; 8], P: Fn(usize, usize, usize, i8) -> V>(
    table: Seq<Seq<i8>>,
    pos: [i32; 3],
    c: C,
    p: P,
    k: int,
) -> Seq<FaceRequest<V>>
    decreases cell_count() - k,
{
    if k < 0 || k >= cell_count() {
        Seq::empty()
    } else {
        let (x, y, z) = cell_of(k);
        triangle_faces(table[spec_case_index(corner_flags(c, x, y, z))], 0, pos, x, y, z, p) + mesh_faces(
            table,
            pos,
            c,
            p,
            k + 1,
        )
    }
}

/// The keys of all points of chunk `pos` fit in an `isize`.
pub open spec fn chunk_keys_fit(pos: [i32; 3]) -> bool {
    forall|i: int|
        0 <= i < 3 ==> isize::MIN <= pos[i] * CHUNK_WIDTH && pos[i] * CHUNK_WIDTH + CHUNK_WIDTH + 1 <= isize::MAX
}

/// A case table: a list of edges for each of the 256 cases, at most five
/// triangles' worth, each edge a cube edge.
pub open spec fn case_table_ok(table: Seq<Seq<i8>>) -> bool {
    &&& table.len() == 256
    &&& forall|i: int| 0 <= i < 256 ==> (#[trigger] table[i]).len() <= 15
    &&& forall|i: int, j: int| 0 <= i < 256 && 0 <= j < table[i].len() ==> 0 <= #[trigger] table[i][j] < 12
}

/// The triangle count stored for case `i` of a case table in bytes.
pub open spec fn stored_count(b: Seq<u8>, i: int) -> int {
    b[16 * i] as int
}

/// Edge slot `j` stored for case `i` of a case table in bytes.
pub open spec fn stored_edge(b: Seq<u8>, i: int, j: int) -> int {
    b[16 * i + 1 + j] as int
}

/// A case table in bytes: for each of the 256 cases, a triangle count of at
/// most five followed by fifteen edge slots, of which the first three per
/// triangle are used and name cube edges.
pub open spec fn case_bytes_ok(b: Seq<u8>) -> bool {
    &&& b.len() == 256 * 16
    &&& forall|i: int| 0 <= i < 256 ==> #[trigger] stored_count(b, i) <= 5
    &&& forall|i: int, j: int|
        0 <= i < 256 && 0 <= j < 3 * stored_count(b, i) ==> #[trigger] stored_edge(b, i, j) < 12
}

/// The edges of case `i` stored in the bytes.
pub open spec fn stored_case(b: Seq<u8>, i: int) -> Seq<i8> {
    Seq::new((3 * stored_count(b, i)) as nat, |j: int| stored_edge(b, i, j) as i8)
}

/// Reads a case table from bytes (see [`case_bytes_ok`]); `None` when the
/// bytes are not a case table.
pub fn case_table_from_bytes(bytes: &Vec<u8>) -> (r: Option<Vec<Vec<i8>>>)
    ensures
        r is Some <==> case_bytes_ok(bytes@),
        r matches Some(t) ==> t@.len() == 256 && forall|i: int| 0 <= i < 256 ==> (#[trigger] t@[i])@ == stored_case(bytes@, i),
        r matches Some(t) ==> case_table_ok(t@.map_values(|v: Vec<i8>| v@)),
{
    let ghost b = bytes@;
    if bytes.len() != 4096 {
        return None;
    }
    let mut table: Vec<Vec<i8>> = Vec::new();
    let mut i: usize = 0;
    while i < 256
        invariant
            b == bytes@,
            b.len() == 4096,
            i <= 256,
            table@.len() == i,
            forall|k: int| 0 <= k < i ==> #[trigger] stored_count(b, k) <= 5,
            forall|k: int, j: int|
                0 <= k < i && 0 <= j < 3 * stored_count(b, k) ==> #[trigger] stored_edge(b, k, j) < 12,
            forall|k: int| 0 <= k < i ==> (#[trigger] table@[k])@ == stored_case(b, k),
        decreases 256 - i,
    {
        let count = bytes[16 * i];
        assert(count == stored_count(b, i as int));
        if count > 5 {
            return None;
        }
        let n: usize = 3 * (count as usize);
        let mut edges: Vec<i8> = Vec::new();
        let mut j: usize = 0;
        while j < n
            invariant
                b == bytes@,
                b.len() == 4096,
                i < 256,
                n == 3 * stored_count(b, i as int),
                n <= 15,
                j <= n,
                edges@.len() == j,
                forall|m: int| 0 <= m < j ==> #[trigger] stored_edge(b, i as int, m) < 12,
                forall|m: int| 0 <= m < j ==> edges@[m] == stored_edge(b, i as int, m) as i8,
            decreases n - j,
        {
            let e = bytes[16 * i + 1 + j];
            assert(e == stored_edge(b, i as int, j as int));
            if e >= 12 {
                return None;
            }
            edges.push(e as i8);
            j += 1;
        }
        assert(edges@ =~= stored_case(b, i as int));
        table.push(edges);
        i += 1;
    }
    proof {
        let tv = table@.map_values(|v: Vec<i8>| v@);
        assert forall|k: int| 0 <= k < 256 implies (#[trigger] tv[k]).len() <= 15 by {
            assert(tv[k] == stored_case(b, k));
            assert(stored_count(b, k) <= 5);
        }
        assert forall|k: int, j: int| 0 <= k < 256 && 0 <= j < tv[k].len() implies 0 <= #[trigger] tv[k][j] < 12 by {
            assert(tv[k] == stored_case(b, k));
            assert(stored_edge(b, k, j) < 12);
        }
    }
    Some(table)
}

proof fn lemma_apply_faces_concat<V>(st: MeshState<V>, a: Seq<FaceRequest<V>>, b: Seq<FaceRequest<V>>)
    ensures
        apply_faces(st, a + b) == apply_faces(apply_faces(st, a), b),
    decreases a.len(),
{
    if a.len() > 0 {
        assert((a + b).drop_first() =~= a.drop_first() + b);
        assert((a + b)[0] == a[0]);
        lemma_apply_faces_concat(apply_face(st, a[0]), a.drop_first(), b);
    } else {
        assert(a + b =~= b);
    }
}

proof fn lemma_cell_of(x: usize, y: usize, z: usize)
    requires
        x < CHUNK_WIDTH,
        y < CHUNK_WIDTH,
        z < CHUNK_WIDTH,
    ensures
        cell_of(z * 256 + y * 16 + x) == (x, y, z),
        0 <= z * 256 + y * 16 + x < cell_count(),
{
    let k = z * 256 + y * 16 + x;
    lemma_fundamental_div_mod_converse(k, 16, z * 16 + y, x as int);
    lemma_fundamental_div_mod_converse(z * 16 + y, 16, z as int, y as int);
    lemma_fundamental_div_mod_converse(k, 256, z as int, y * 16 + x);
}

/// The mesh of the cells of chunk `pos`: for each cell, z slowest, then y,
/// then x, the corners that `corners` reports inside give the case, the
/// case's edges in `table` give triangles, `point` places each triangle's
/// vertices on their edges, and vertices on the same lattice edge are
/// welded by their keys.
pub fn get_mesh<V, C: Fn(usize, usize, usize) -> [bool; 8], P: Fn(usize, usize, usize, i8) -> V>(
    table: &Vec<Vec<i8>>,
    pos: [i32; 3],
    corners: &C,
    point: &P,
) -> (r: Mesh<V>)
    requires
        case_table_ok(table@.map_values(|v: Vec<i8>| v@)),
        chunk_keys_fit(pos),
        corners_is_function::<C>(*corners),
        point_is_function::<V, P>(*point),
    ensures
        r.wf(),
        (r.point_table(), r.vertex_list(), r.face_list()) == apply_faces(
            (Map::<PointKey, usize>::empty(), Seq::<V>::empty(), Seq::<Face>::empty()),
            mesh_faces(table@.map_values(|v: Vec<i8>| v@), pos, *corners, *point, 0),
        ),
{
    let ghost tv = table@.map_values(|v: Vec<i8>| v@);
    let ghost c = *corners;
    let ghost p = *point;
    let ghost target = apply_faces(
        (Map::<PointKey, usize>::empty(), Seq::<V>::empty(), Seq::<Face>::empty()),
        mesh_faces(tv, pos, c, p, 0),
    );
    let mut mesh: Mesh<V> = Mesh::new();
    let mut z: usize = 0;
    while z < CHUNK_WIDTH
        invariant
            tv == table@.map_values(|v: Vec<i8>| v@),
            c == *corners,
            p == *point,
            case_table_ok(tv),
            chunk_keys_fit(pos),
            corners_is_function::<C>(c),
            point_is_function::<V, P>(p),
            z <= CHUNK_WIDTH,
            mesh.wf(),
            mesh.vertex_list().len() <= 15 * (z * 256),
            apply_faces((mesh.point_table(), mesh.vertex_list(), mesh.face_list()), mesh_faces(tv, pos, c, p, z * 256))
                == target,
        decreases CHUNK_WIDTH - z,
    {
        let mut y: usize = 0;
        while y < CHUNK_WIDTH
            invariant
                tv == table@.map_values(|v: Vec<i8>| v@),
                c == *corners,
                p == *point,
                case_table_ok(tv),
                chunk_keys_fit(pos),
                corners_is_function::<C>(c),
                point_is_function::<V, P>(p),
                z < CHUNK_WIDTH,
                y <= CHUNK_WIDTH,
                mesh.wf(),
                mesh.vertex_list().len() <= 15 * (z * 256 + y * 16),
                apply_faces(
                    (mesh.point_table(), mesh.vertex_list(), mesh.face_list()),
                    mesh_faces(tv, pos, c, p, z * 256 + y * 16),
                ) == target,
            decreases CHUNK_WIDTH - y,
        {
            let mut x: usize = 0;
            while x < CHUNK_WIDTH
                invariant
                    tv == table@.map_values(|v: Vec<i8>| v@),
                    c == *corners,
                    p == *point,
                    case_table_ok(tv),
                    chunk_keys_fit(pos),
                    corners_is_function::<C>(c),
                    point_is_function::<V, P>(p),
                    z < CHUNK_WIDTH,
                    y < CHUNK_WIDTH,
                    x <= CHUNK_WIDTH,
                    mesh.wf(),
                    mesh.vertex_list().len() <= 15 * (z * 256 + y * 16 + x),
                    apply_faces(
                        (mesh.point_table(), mesh.vertex_list(), mesh.face_list()),
                        mesh_faces(tv, pos, c, p, z * 256 + y * 16 + x),
                    ) == target,
                decreases CHUNK_WIDTH - x,
            {
                let ghost k = z * 256 + y * 16 + x;
                proof {
                    lemma_cell_of(x, y, z);
                }
                let flags = corners(x, y, z);
                proof {
                    let f = corner_flags(c, x, y, z);
                    assert(call_ensures(c, (x, y, z), f));
                }
                let idx = case_index(flags);
                let edges = &table[idx as usize];
                let ghost ev = edges@;
                assert(ev == tv[idx as int]);
                let ghost rest = mesh_faces(tv, pos, c, p, k + 1);
                assert(mesh_faces(tv, pos, c, p, k) == triangle_faces(ev, 0, pos, x, y, z, p) + rest);
                let ghost start_len = mesh.vertex_list().len();
                let mut t: usize = 0;
                while t * 3 + 2 < edges.len()
                    invariant
                        ev == edges@,
                        ev.len() <= 15,
                        forall|j: int| 0 <= j < ev.len() ==> 0 <= #[trigger] ev[j] < 12,
                        p == *point,
                        point_is_function::<V, P>(p),
                        chunk_keys_fit(pos),
                        x < CHUNK_WIDTH,
                        y < CHUNK_WIDTH,
                        z < CHUNK_WIDTH,
                        t <= 5,
                        k == z * 256 + y * 16 + x,
                        mesh.wf(),
                        mesh.vertex_list().len() <= start_len + 3 * t,
                        start_len <= 15 * k,
                        apply_faces(
                            (mesh.point_table(), mesh.vertex_list(), mesh.face_list()),
                            triangle_faces(ev, t as int, pos, x, y, z, p) + rest,
                        ) == target,
                    decreases edges.len() - t * 3,
                {
                    let e0 = edges[t * 3];
                    let e1 = edges[t * 3 + 1];
                    let e2 = edges[t * 3 + 2];
                    let v0 = point(x, y, z, e0);
                    let v1 = point(x, y, z, e1);
                    let v2 = point(x, y, z, e2);
                    proof {
                        assert(call_ensures(p, (x, y, z, e0), edge_point(p, x, y, z, e0)));
                        assert(call_ensures(p, (x, y, z, e1), edge_point(p, x, y, z, e1)));
                        assert(call_ensures(p, (x, y, z, e2), edge_point(p, x, y, z, e2)));
                        lemma_keys_fit(e0 as int, pos, [x, y, z]);
                        lemma_keys_fit(e1 as int, pos, [x, y, z]);
                        lemma_keys_fit(e2 as int, pos, [x, y, z]);
                    }
                    let h0 = edge_idx_to_point_hash(e0, pos, [x, y, z]);
                    let h1 = edge_idx_to_point_hash(e1, pos, [x, y, z]);
                    let h2 = edge_idx_to_point_hash(e2, pos, [x, y, z]);
                    let ghost before = (mesh.point_table(), mesh.vertex_list(), mesh.face_list());
                    let ghost fr = (v0, v1, v2, key_of(h0), key_of(h1), key_of(h2));
                    let ghost later = triangle_faces(ev, t + 1, pos, x, y, z, p);
                    assert(key_of(h0) == point_key(e0 as int, pos, [x, y, z]));
                    assert(key_of(h1) == point_key(e1 as int, pos, [x, y, z]));
                    assert(key_of(h2) == point_key(e2 as int, pos, [x, y, z]));
                    assert(triangle_faces(ev, t as int, pos, x, y, z, p) == seq![fr] + later);
                    mesh.add_face(v0, v1, v2, [h0, h1, h2]);
                    proof {
                        assert(apply_faces(before, seq![fr] + later + rest) == apply_faces(
                            apply_face(before, fr),
                            later + rest,
                        )) by {
                            assert((seq![fr] + later + rest).drop_first() =~= later + rest);
                            assert((seq![fr] + later + rest)[0] == fr);
                        }
                    }
                    t += 1;
                }
                proof {
                    assert(triangle_faces(ev, t as int, pos, x, y, z, p) + rest =~= rest);
                }
                x += 1;
            }
            y += 1;
        }
        z += 1;
    }
    assert(mesh_faces(tv, pos, c, p, 4096) =~= Seq::<FaceRequest<V>>::empty());
    mesh
}

/// A key of a point of a chunk whose keys fit lies within `isize`.
proof fn lemma_keys_fit(e: int, pos: [i32; 3], offset: [usize; 3])
    requires
        0 <= e < 12,
        chunk_keys_fit(pos),
        offset[0] < CHUNK_WIDTH,
        offset[1] < CHUNK_WIDTH,
        offset[2] < CHUNK_WIDTH,
    ensures
        point_hash_fits(e, pos, offset),
{
    assert(isize::MIN <= pos[0] * CHUNK_WIDTH && pos[0] * CHUNK_WIDTH + CHUNK_WIDTH + 1 <= isize::MAX);
    assert(isize::MIN <= pos[1] * CHUNK_WIDTH && pos[1] * CHUNK_WIDTH + CHUNK_WIDTH + 1 <= isize::MAX);
    assert(isize::MIN <= pos[2] * CHUNK_WIDTH && pos[2] * CHUNK_WIDTH + CHUNK_WIDTH + 1 <= isize::MAX);
}

} // verus!
