//! Decisions of chunk streaming around the camera.
//!
//! The loader keeps track of which chunks have been generated, are being
//! generated, are loaded, or are being read back from the database, and which
//! mesh instance shows each chunk. It does no work itself: each step returns
//! what the caller has to do (generate a chunk, read or store it, build or
//! drop a mesh), and the caller reports back the results.
use vstd::prelude::*;
use crate::pos_map::PosMap;
use crate::marching_cubes::ChunkPos;
use crate::game_object::GameObjectID;
use crate::noise::{abs, trunc_div};

verus! {

/// Number of voxels along each side of a stored chunk.
pub const CHUNK_SIZE: i32 = 128;

/// Settings of chunk streaming.
pub struct ChunkLoaderSettings {
    /// Chunks are kept within this many chunks of the camera along x and z.
    pub view_distance: i32,
    /// Number of worker threads for generation and meshing (at least 1).
    pub thread_count: usize,
    /// Path of the chunk database.
    pub db_path: String,
    /// Number of chunk layers along y.
    pub world_height: i32,
    /// Start from an empty database.
    pub gen_new_world: bool,
}

/// The chunk coordinate of a camera coordinate: the quotient by the chunk
/// size rounded toward zero, lowered by one when it is negative.
pub open spec fn spec_camera_chunk(a: i32) -> int {
    let d = trunc_div(a as int, CHUNK_SIZE as int);
    if d < 0 {
        d - 1
    } else {
        d
    }
}

/// The chunk coordinate of a camera coordinate along x or z.
pub fn camera_chunk(a: i32) -> (r: i32)
    ensures
        r == spec_camera_chunk(a),
{
    let d = a / CHUNK_SIZE;
    if a >= 0 {
        assert(d == (a as int) / 128);
    } else {
        assert(d == -((-(a as int)) / 128));
    }
    if d < 0 {
        d - 1
    } else {
        d
    }
}

/// The neighbour of `p` at offset number `k` (0..8): `k / 4` along x,
/// `(k / 2) % 2` along y and `k % 2` along z.
pub open spec fn offset_pos(p: ChunkPos, k: int) -> ChunkPos {
    ((p.0 + k / 4) as i32, (p.1 + (k / 2) % 2) as i32, (p.2 + k % 2) as i32)
}

/// The chunks among `p` and its neighbours at offsets `k..8` that are present
/// in `loaded`, in offset order.
pub open spec fn neighbors_from(loaded: Set<ChunkPos>, p: ChunkPos, k: int) -> Seq<ChunkPos>
    decreases 8 - k,
{
    if k >= 8 {
        Seq::empty()
    } else if loaded.contains(offset_pos(p, k)) {
        seq![offset_pos(p, k)] + neighbors_from(loaded, p, k + 1)
    } else {
        neighbors_from(loaded, p, k + 1)
    }
}

/// The loaded chunks that the mesh of chunk `p` is built from: `p` and its
/// neighbours above it along x, y and z.
pub open spec fn mesh_neighbors(loaded: Set<ChunkPos>, p: ChunkPos) -> Seq<ChunkPos> {
    neighbors_from(loaded, p, 0)
}

/// A request to build the mesh of one chunk.
pub struct MeshTask {
    /// The chunk whose mesh is built.
    pub pos: ChunkPos,
    /// The loaded chunks the mesh is built from.
    pub neighbors: Vec<ChunkPos>,
    /// The number of the request; later requests have larger numbers.
    pub mesh_id: i32,
}

/// A mesh request as values.
pub open spec fn task_view(t: MeshTask) -> (ChunkPos, Seq<ChunkPos>, int) {
    (t.pos, t.neighbors@, t.mesh_id as int)
}

/// The mesh requests made when the chunks at offsets `k..8` of `base` are
/// given a new mesh, numbered from `id`: one for each of them that is loaded.
pub open spec fn tasks_from(loaded: Set<ChunkPos>, base: ChunkPos, k: int, id: int) -> Seq<
    (ChunkPos, Seq<ChunkPos>, int),
>
    decreases 8 - k,
{
    if k >= 8 {
        Seq::empty()
    } else if loaded.contains(offset_pos(base, k)) {
        seq![(offset_pos(base, k), mesh_neighbors(loaded, offset_pos(base, k)), id)] + tasks_from(
            loaded,
            base,
            k + 1,
            id + 1,
        )
    } else {
        tasks_from(loaded, base, k + 1, id)
    }
}

/// The mesh requests as values.
pub open spec fn task_views(s: Seq<MeshTask>) -> Seq<(ChunkPos, Seq<ChunkPos>, int)> {
    s.map_values(|t: MeshTask| task_view(t))
}

/// What to do with a built mesh.
#[derive(PartialEq, Eq, Structural, Debug, Clone, Copy)]
pub struct MeshOutcome {
    /// Instantiate the mesh under this new object id.
    pub instantiate: Option<GameObjectID>,
    /// Remove this object from the renderer.
    pub remove: Option<GameObjectID>,
}

/// How a non-empty mesh of chunk `pos` from request `mesh_id`, instantiated
/// as object `new_id`, changes the mesh table, and which object is removed:
/// a chunk already showing an object from an older request has that object
/// removed and keeps its id with the new request number; a chunk showing one
/// from a newer request is left as it is; a chunk showing none records the
/// new object.
pub open spec fn mesh_decision(
    table: Map<ChunkPos, (GameObjectID, i32)>,
    pos: ChunkPos,
    mesh_id: i32,
    new_id: GameObjectID,
) -> (Map<ChunkPos, (GameObjectID, i32)>, Option<GameObjectID>) {
    if table.contains_key(pos) {
        let (old_id, count) = table[pos];
        if mesh_id > count {
            (table.insert(pos, (old_id, mesh_id)), Some(old_id))
        } else {
            (table, None)
        }
    } else {
        (table.insert(pos, (new_id, mesh_id)), None)
    }
}

/// The request number a mesh table records for a chunk after a mesh from
/// request `mesh_id` arrives: the newer of the recorded one and `mesh_id`,
/// or `mesh_id` when none was recorded.
pub open spec fn newest_request(table: Map<ChunkPos, (GameObjectID, i32)>, pos: ChunkPos, mesh_id: i32) -> i32 {
    if table.contains_key(pos) && table[pos].1 >= mesh_id {
        table[pos].1
    } else {
        mesh_id
    }
}

/// A built mesh leaves every other chunk's entry alone; its own chunk then
/// has an entry recording the newest request seen for it, under the object
/// already shown or, if none was, the new object. The object shown is
/// removed exactly when the mesh comes from a newer request than recorded.
pub proof fn lemma_mesh_decision_records_newest(
    table: Map<ChunkPos, (GameObjectID, i32)>,
    pos: ChunkPos,
    mesh_id: i32,
    new_id: GameObjectID,
)
    ensures
        ({
            let (t, removed) = mesh_decision(table, pos, mesh_id, new_id);
            &&& t.dom() == table.dom().insert(pos)
            &&& forall|q: ChunkPos| #[trigger] table.contains_key(q) && q != pos ==> t[q] == table[q]
            &&& t[pos].1 == newest_request(table, pos, mesh_id)
            &&& t[pos].1 >= mesh_id
            &&& table.contains_key(pos) ==> t[pos].1 >= table[pos].1
            &&& t[pos].0 == (if table.contains_key(pos) { table[pos].0 } else { new_id })
            &&& removed == (if table.contains_key(pos) && mesh_id > table[pos].1 {
                Some(table[pos].0)
            } else {
                None
            })
        }),
{
    let (t, removed) = mesh_decision(table, pos, mesh_id, new_id);
    assert(t.dom() =~= table.dom().insert(pos));
}

/// A mesh from a request no newer than one already received for the same
/// chunk changes nothing and removes nothing, whichever order the two
/// arrive in after the first.
pub proof fn lemma_older_mesh_never_evicts(
    table: Map<ChunkPos, (GameObjectID, i32)>,
    pos: ChunkPos,
    newer: i32,
    older: i32,
    id1: GameObjectID,
    id2: GameObjectID,
)
    requires
        older <= newer,
    ensures
        ({
            let (t1, _) = mesh_decision(table, pos, newer, id1);
            let (t2, removed) = mesh_decision(t1, pos, older, id2);
            &&& removed is None
            &&& t2 == t1
            &&& t1[pos].1 >= newer
        }),
{
}

/// Whether chunk `p` lies in the box kept around the camera chunk
/// `(cx, cz)`: within `vd` chunks below and `vd - 1` above along x and z,
/// and among the `h` layers along y.
pub open spec fn in_view(p: ChunkPos, cx: int, cz: int, vd: int, h: int) -> bool {
    &&& cx - vd <= p.0 < cx + vd
    &&& cz - vd <= p.2 < cz + vd
    &&& 0 <= p.1 < h
}

/// Whether `p` comes before the scan cursor `(xc, zc, yc)`; the scan runs
/// over x, then z, then y.
pub open spec fn scanned_before(p: ChunkPos, xc: int, zc: int, yc: int) -> bool {
    p.0 < xc || (p.0 == xc && (p.2 < zc || (p.2 == zc && p.1 < yc)))
}

/// Whether the chunks in `s` come in scan order (x, then z, then y), each
/// strictly after the one before.
pub open spec fn scan_sorted(s: Seq<ChunkPos>) -> bool {
    forall|a: int, b: int|
        0 <= a < b < s.len() ==> scanned_before(#[trigger] s[a], (#[trigger] s[b]).0 as int, s[b].2 as int, s[b].1 as int)
}

/// The chunks to be requested from the database.
pub struct ChunkRequests {
    /// Chunks to generate.
    pub generate: Vec<ChunkPos>,
    /// Chunks to read from the database.
    pub load: Vec<ChunkPos>,
}

/// Whether chunk `p` is within `vd` chunks of the camera chunk `(cx, cz)`
/// along both x and z.
pub open spec fn in_range(p: ChunkPos, cx: int, cz: int, vd: int) -> bool {
    abs(p.0 - cx) <= vd && abs(p.2 - cz) <= vd
}

/// The distances of chunk `p` to the camera chunk can be taken in `i32`.
pub open spec fn distance_fits(p: ChunkPos, cx: int, cz: int) -> bool {
    i32::MIN < p.0 - cx <= i32::MAX && i32::MIN < p.2 - cz <= i32::MAX
}

/// A chunk dropped from memory: it is to be stored, and the object showing
/// its mesh, if any, removed.
pub struct UnloadedChunk<C> {
    pub pos: ChunkPos,
    pub chunk: C,
    pub mesh: Option<GameObjectID>,
}

/// The object showing the mesh of chunk `p`, if any.
pub open spec fn mesh_object(table: Map<ChunkPos, (GameObjectID, i32)>, p: ChunkPos) -> Option<
    GameObjectID,
> {
    if table.contains_key(p) {
        Some(table[p].0)
    } else {
        None
    }
}

/// What to do after the database answered a read.
pub struct DbOutcome {
    /// The chunk was missing and has to be generated anew.
    pub regenerate: bool,
    /// Mesh requests for the chunk that was read.
    pub mesh_tasks: Vec<MeshTask>,
}

/// The streaming state of the world around the camera; `C` is the chunk data.
#[verifier::reject_recursive_types(C)]
pub struct ChunkLoader<C> {
    meshes: PosMap<(GameObjectID, i32)>,
    generating_chunks: PosMap<()>,
    generated_chunks: PosMap<()>,
    loaded_chunks: PosMap<C>,
    loading_from_db: PosMap<()>,
    settings: ChunkLoaderSettings,
    mesh_count: i32,
}

impl<C> ChunkLoader<C> {
    /// Chunks whose generation was requested and has not come back.
    pub closed spec fn generating(&self) -> Set<ChunkPos> {
        self.generating_chunks@.dom()
    }

    /// Chunks known to exist (in the database or loaded).
    pub closed spec fn generated(&self) -> Set<ChunkPos> {
        self.generated_chunks@.dom()
    }

    /// Chunks held in memory, with their data.
    pub closed spec fn loaded(&self) -> Map<ChunkPos, C> {
        self.loaded_chunks@
    }

    /// Chunks whose read from the database has not come back.
    pub closed spec fn loading(&self) -> Set<ChunkPos> {
        self.loading_from_db@.dom()
    }

    /// The object showing each chunk's mesh, with the number of the mesh
    /// request it came from.
    pub closed spec fn mesh_table(&self) -> Map<ChunkPos, (GameObjectID, i32)> {
        self.meshes@
    }

    /// Number of the next mesh request.
    pub closed spec fn next_mesh_id(&self) -> i32 {
        self.mesh_count
    }

    /// The view distance in chunks.
    pub closed spec fn view_distance(&self) -> i32 {
        self.settings.view_distance
    }

    /// The number of chunk layers.
    pub closed spec fn world_height(&self) -> i32 {
        self.settings.world_height
    }

    /// The internal maps are well formed.
    pub closed spec fn wf(&self) -> bool {
        &&& self.meshes.wf()
        &&& self.generating_chunks.wf()
        &&& self.generated_chunks.wf()
        &&& self.loaded_chunks.wf()
        &&& self.loading_from_db.wf()
    }

    /// A loader that knows of the chunks in `generated` and holds none.
    pub fn new(settings: ChunkLoaderSettings, generated: Vec<ChunkPos>) -> (r: Self)
        ensures
            r.wf(),
            r.generated() == generated@.to_set(),
            r.generating() == Set::<ChunkPos>::empty(),
            r.loaded() == Map::<ChunkPos, C>::empty(),
            r.loading() == Set::<ChunkPos>::empty(),
            r.mesh_table() == Map::<ChunkPos, (GameObjectID, i32)>::empty(),
            r.next_mesh_id() == 0,
            r.view_distance() == settings.view_distance,
            r.world_height() == settings.world_height,
    {
        let mut generated_chunks: PosMap<()> = PosMap::new();
        let mut i: usize = 0;
        while i < generated.len()
            invariant
                generated_chunks.wf(),
                i <= generated@.len(),
                generated_chunks@.dom() == generated@.subrange(0, i as int).to_set(),
            decreases generated@.len() - i,
        {
            generated_chunks.insert(generated[i], ());
            proof {
                assert(generated@.subrange(0, i + 1) == generated@.subrange(0, i as int).push(
                    generated@[i as int],
                ));
                generated@.subrange(0, i as int).lemma_push_to_set_commute(generated@[i as int]);
                assert(generated@.subrange(0, i + 1).to_set() =~= generated@.subrange(
                    0,
                    i as int,
                ).to_set().insert(generated@[i as int]));
            }
            i += 1;
        }
        assert(generated@.subrange(0, generated@.len() as int) == generated@);
        let r = ChunkLoader {
            meshes: PosMap::new(),
            generating_chunks: PosMap::new(),
            generated_chunks,
            loaded_chunks: PosMap::new(),
            loading_from_db: PosMap::new(),
            settings,
            mesh_count: 0,
        };
        assert(r.generating() =~= Set::<ChunkPos>::empty());
        assert(r.loading() =~= Set::<ChunkPos>::empty());
        r
    }

    /// The loaded chunk at `pos`, if any; the chunks a mesh request names
    /// are read through this.
    pub fn get_chunk(&self, pos: ChunkPos) -> (r: Option<&C>)
        requires
            self.wf(),
        ensures
            match r {
                Some(c) => self.loaded().contains_key(pos) && *c == self.loaded()[pos],
                None => !self.loaded().contains_key(pos),
            },
    {
        self.loaded_chunks.get(&pos)
    }

    /// The number the next mesh request gets.
    pub fn mesh_count(&self) -> (r: i32)
        ensures
            r == self.next_mesh_id(),
    {
        self.mesh_count
    }

    /// Whether the distances of every loaded chunk to the camera chunk
    /// `(cx, cz)` can be taken in `i32`, as unloading needs.
    pub fn distances_fit(&self, cx: i32, cz: i32) -> (r: bool)
        requires
            self.wf(),
        ensures
            r == (forall|p: ChunkPos| #[trigger] self.loaded().contains_key(p) ==> distance_fits(p, cx as int, cz as int)),
    {
        let keys = self.loaded_chunks.keys();
        let mut i: usize = 0;
        while i < keys.len()
            invariant
                i <= keys@.len(),
                keys@.to_set() == self.loaded().dom(),
                forall|j: int| 0 <= j < i ==> distance_fits(#[trigger] keys@[j], cx as int, cz as int),
            decreases keys@.len() - i,
        {
            let p = keys[i];
            let dx = p.0 as i64 - cx as i64;
            let dz = p.2 as i64 - cz as i64;
            if dx <= i32::MIN as i64 || dx > i32::MAX as i64 || dz <= i32::MIN as i64 || dz > i32::MAX as i64 {
                proof {
                    assert(keys@.to_set().contains(p));
                }
                return false;
            }
            i += 1;
        }
        proof {
            assert forall|p: ChunkPos| #[trigger] self.loaded().contains_key(p) implies distance_fits(p, cx as int, cz as int) by {
                assert(keys@.to_set().contains(p));
                let j = choose|j: int| 0 <= j < keys@.len() && keys@[j] == p;
            }
        }
        true
    }

    /// Marks a chunk as being generated; the caller starts its generation.
    fn generate_chunk(&mut self, pos: ChunkPos)
        requires
            old(self).wf(),
        ensures
            final(self).wf(),
            final(self).generating() == old(self).generating().insert(pos),
            final(self).generated() == old(self).generated(),
            final(self).loaded() == old(self).loaded(),
            final(self).loading() == old(self).loading(),
            final(self).mesh_table() == old(self).mesh_table(),
            final(self).next_mesh_id() == old(self).next_mesh_id(),
            final(self).view_distance() == old(self).view_distance(),
            final(self).world_height() == old(self).world_height(),
    {
        self.generating_chunks.insert(pos, ());
        assert(self.generating() =~= old(self).generating().insert(pos));
    }

    /// A mesh request for chunk `pos` if it is loaded, built from the loaded
    /// chunks among it and its upper neighbours.
    fn invoke_mesh_generation(&mut self, pos: ChunkPos) -> (r: Option<MeshTask>)
        requires
            old(self).wf(),
            pos.0 < i32::MAX && pos.1 < i32::MAX && pos.2 < i32::MAX,
            old(self).next_mesh_id() < i32::MAX,
        ensures
            final(self).wf(),
            !old(self).loaded().contains_key(pos) ==> r is None && final(self).next_mesh_id()
                == old(self).next_mesh_id(),
            old(self).loaded().contains_key(pos) ==> r is Some && task_view(r.unwrap()) == (
                pos,
                mesh_neighbors(old(self).loaded().dom(), pos),
                old(self).next_mesh_id() as int,
            ) && final(self).next_mesh_id() == old(self).next_mesh_id() + 1,
            final(self).generating() == old(self).generating(),
            final(self).generated() == old(self).generated(),
            final(self).loaded() == old(self).loaded(),
            final(self).loading() == old(self).loading(),
            final(self).mesh_table() == old(self).mesh_table(),
            final(self).view_distance() == old(self).view_distance(),
            final(self).world_height() == old(self).world_height(),
    {
        if !self.loaded_chunks.contains_key(&pos) {
            return None;
        }
        let ghost dom = self.loaded().dom();
        let mut neighbors: Vec<ChunkPos> = Vec::new();
        let mut k: i32 = 0;
        while k < 8
            invariant
                self.wf(),
                dom == self.loaded().dom(),
                pos.0 < i32::MAX && pos.1 < i32::MAX && pos.2 < i32::MAX,
                0 <= k <= 8,
                neighbors@ + neighbors_from(dom, pos, k as int) == neighbors_from(dom, pos, 0),
            decreases 8 - k,
        {
            let p = (pos.0 + k / 4, pos.1 + (k / 2) % 2, pos.2 + k % 2);
            assert(p == offset_pos(pos, k as int));
            if self.loaded_chunks.contains_key(&p) {
                neighbors.push(p);
                assert(neighbors_from(dom, pos, k as int) == seq![p] + neighbors_from(
                    dom,
                    pos,
                    k + 1,
                ));
                assert(neighbors@ + neighbors_from(dom, pos, k + 1) =~= neighbors@.drop_last() + (
                seq![p] + neighbors_from(dom, pos, k + 1)));
            }
            k += 1;
        }
        assert(neighbors@ == neighbors@ + neighbors_from(dom, pos, 8));
        let mesh_id = self.mesh_count;
        self.mesh_count += 1;
        Some(MeshTask { pos, neighbors, mesh_id })
    }

    /// Stores a chunk and requests new meshes for it and for the loaded
    /// chunks at offsets 0 or 1 above it along x, y and z.
    fn insert_chunk(&mut self, pos: ChunkPos, chunk: C) -> (r: Vec<MeshTask>)
        requires
            old(self).wf(),
            pos.0 <= i32::MAX - 2 && pos.1 <= i32::MAX - 2 && pos.2 <= i32::MAX - 2,
            old(self).next_mesh_id() <= i32::MAX - 8,
        ensures
            final(self).wf(),
            final(self).loaded() == old(self).loaded().insert(pos, chunk),
            task_views(r@) == tasks_from(
                final(self).loaded().dom(),
                pos,
                0,
                old(self).next_mesh_id() as int,
            ),
            final(self).next_mesh_id() == old(self).next_mesh_id() + r@.len(),
            r@.len() <= 8,
            final(self).generating() == old(self).generating(),
            final(self).generated() == old(self).generated(),
            final(self).loading() == old(self).loading(),
            final(self).mesh_table() == old(self).mesh_table(),
            final(self).view_distance() == old(self).view_distance(),
            final(self).world_height() == old(self).world_height(),
    {
        self.loaded_chunks.insert(pos, chunk);
        let ghost dom = self.loaded().dom();
        let ghost start = self.mesh_count as int;
        let mut tasks: Vec<MeshTask> = Vec::new();
        let mut k: i32 = 0;
        while k < 8
            invariant
                self.wf(),
                self.loaded() == old(self).loaded().insert(pos, chunk),
                dom == self.loaded().dom(),
                start == old(self).next_mesh_id(),
                pos.0 <= i32::MAX - 2 && pos.1 <= i32::MAX - 2 && pos.2 <= i32::MAX - 2,
                0 <= k <= 8,
                tasks@.len() <= k,
                self.mesh_count == start + tasks@.len(),
                start <= i32::MAX - 8,
                task_views(tasks@) + tasks_from(dom, pos, k as int, self.mesh_count as int)
                    == tasks_from(dom, pos, 0, start),
                self.generating() == old(self).generating(),
                self.generated() == old(self).generated(),
                self.loading() == old(self).loading(),
                self.mesh_table() == old(self).mesh_table(),
                self.view_distance() == old(self).view_distance(),
                self.world_height() == old(self).world_height(),
            decreases 8 - k,
        {
            let q = (pos.0 + k / 4, pos.1 + (k / 2) % 2, pos.2 + k % 2);
            assert(q == offset_pos(pos, k as int));
            let ghost before = task_views(tasks@);
            let ghost id = self.mesh_count as int;
            match self.invoke_mesh_generation(q) {
                Some(t) => {
                    tasks.push(t);
                    assert(task_views(tasks@) =~= before.push(task_view(t)));
                    assert(tasks_from(dom, pos, k as int, id) == seq![task_view(t)] + tasks_from(
                        dom,
                        pos,
                        k + 1,
                        id + 1,
                    ));
                    assert(task_views(tasks@) + tasks_from(dom, pos, k + 1, id + 1) =~= before + (
                    seq![task_view(t)] + tasks_from(dom, pos, k + 1, id + 1)));
                },
                None => {},
            }
            k += 1;
        }
        assert(task_views(tasks@) =~= task_views(tasks@) + tasks_from(dom, pos, 8, self.mesh_count as int));
        tasks
    }

    /// Whether chunk `p` is to be generated: it is neither generated nor
    /// being generated.
    pub open spec fn needs_generation(&self, p: ChunkPos) -> bool {
        !self.generated().contains(p) && !self.generating().contains(p)
    }

    /// Whether chunk `p` is to be read from the database: it is generated
    /// but neither loaded nor being read.
    pub open spec fn needs_loading(&self, p: ChunkPos) -> bool {
        self.generated().contains(p) && !self.loaded().contains_key(p) && !self.loading().contains(p)
    }

    /// The chunks in view that come before the scan cursor `(xc, zc, yc)` and
    /// are to be generated.
    pub open spec fn gen_prefix(&self, cx: int, cz: int, xc: int, zc: int, yc: int) -> Set<ChunkPos> {
        Set::new(
            |p: ChunkPos|
                in_view(p, cx, cz, self.view_distance() as int, self.world_height() as int)
                    && scanned_before(p, xc, zc, yc) && self.needs_generation(p),
        )
    }

    /// The chunks in view that come before the scan cursor and are to be
    /// read from the database.
    pub open spec fn load_prefix(&self, cx: int, cz: int, xc: int, zc: int, yc: int) -> Set<ChunkPos> {
        Set::new(
            |p: ChunkPos|
                in_view(p, cx, cz, self.view_distance() as int, self.world_height() as int)
                    && scanned_before(p, xc, zc, yc) && self.needs_loading(p),
        )
    }

    /// Requests every chunk in view around the camera chunk `(cx, cz)` that
    /// is not yet available: chunks never generated are marked as being
    /// generated, and generated chunks that are not in memory are marked as
    /// being read from the database. Each chunk is requested once, in scan
    /// order: by x, then z, then y.
    pub fn request_chunks(&mut self, cx: i32, cz: i32) -> (r: ChunkRequests)
        requires
            old(self).wf(),
            old(self).view_distance() > i32::MIN,
            old(self).view_distance() > 0 ==> i32::MIN <= cx - old(self).view_distance() && cx
                + old(self).view_distance() <= i32::MAX + 1,
            old(self).view_distance() > 0 ==> i32::MIN <= cz - old(self).view_distance() && cz
                + old(self).view_distance() <= i32::MAX + 1,
        ensures
            final(self).wf(),
            r.generate@.no_duplicates(),
            r.load@.no_duplicates(),
            scan_sorted(r.generate@),
            scan_sorted(r.load@),
            r.generate@.to_set() == Set::new(
                |p: ChunkPos|
                    in_view(
                        p,
                        cx as int,
                        cz as int,
                        old(self).view_distance() as int,
                        old(self).world_height() as int,
                    ) && old(self).needs_generation(p),
            ),
            r.load@.to_set() == Set::new(
                |p: ChunkPos|
                    in_view(
                        p,
                        cx as int,
                        cz as int,
                        old(self).view_distance() as int,
                        old(self).world_height() as int,
                    ) && old(self).needs_loading(p),
            ),
            final(self).generating() == old(self).generating() + r.generate@.to_set(),
            final(self).loading() == old(self).loading() + r.load@.to_set(),
            final(self).generated() == old(self).generated(),
            final(self).loaded() == old(self).loaded(),
            final(self).mesh_table() == old(self).mesh_table(),
            final(self).next_mesh_id() == old(self).next_mesh_id(),
            final(self).view_distance() == old(self).view_distance(),
            final(self).world_height() == old(self).world_height(),
    {
        let vd = self.settings.view_distance;
        let h = self.settings.world_height;
        let ghost o = old(self);
        let mut generate: Vec<ChunkPos> = Vec::new();
        let mut load: Vec<ChunkPos> = Vec::new();
        let mut i: i32 = -vd;
        assert(generate@.to_set() =~= o.gen_prefix(cx as int, cz as int, i + cx, cz - vd, 0));
        assert(load@.to_set() =~= o.load_prefix(cx as int, cz as int, i + cx, cz - vd, 0));
        assert(self.generating() =~= o.generating() + generate@.to_set());
        assert(self.loading() =~= o.loading() + load@.to_set());
        while i < vd
            invariant
                self.wf(),
                vd == o.view_distance(),
                h == o.world_height(),
                vd > i32::MIN,
                vd > 0 ==> i32::MIN <= cx - vd && cx + vd <= i32::MAX + 1,
                vd > 0 ==> i32::MIN <= cz - vd && cz + vd <= i32::MAX + 1,
                -vd <= i,
                vd > 0 ==> i <= vd,
                generate@.no_duplicates(),
                load@.no_duplicates(),
                scan_sorted(generate@),
                scan_sorted(load@),
                generate@.to_set() == o.gen_prefix(cx as int, cz as int, i + cx, cz - vd, 0),
                load@.to_set() == o.load_prefix(cx as int, cz as int, i + cx, cz - vd, 0),
                self.generating() == o.generating() + generate@.to_set(),
                self.loading() == o.loading() + load@.to_set(),
                self.generated() == o.generated(),
                self.loaded() == o.loaded(),
                self.mesh_table() == o.mesh_table(),
                self.next_mesh_id() == o.next_mesh_id(),
                self.view_distance() == o.view_distance(),
                self.world_height() == o.world_height(),
            decreases vd - i,
        {
            let x = i + cx;
            let mut j: i32 = -vd;
            while j < vd
                invariant
                    self.wf(),
                    vd == o.view_distance(),
                    h == o.world_height(),
                    vd > 0,
                    i32::MIN <= cz - vd && cz + vd <= i32::MAX + 1,
                    -vd <= i < vd,
                    x == i + cx,
                    -vd <= j <= vd,
                    generate@.no_duplicates(),
                    load@.no_duplicates(),
                    scan_sorted(generate@),
                    scan_sorted(load@),
                    generate@.to_set() == o.gen_prefix(cx as int, cz as int, x as int, j + cz, 0),
                    load@.to_set() == o.load_prefix(cx as int, cz as int, x as int, j + cz, 0),
                    self.generating() == o.generating() + generate@.to_set(),
                    self.loading() == o.loading() + load@.to_set(),
                    self.generated() == o.generated(),
                    self.loaded() == o.loaded(),
                    self.mesh_table() == o.mesh_table(),
                    self.next_mesh_id() == o.next_mesh_id(),
                    self.view_distance() == o.view_distance(),
                    self.world_height() == o.world_height(),
                decreases vd - j,
            {
                let z = j + cz;
                let mut y: i32 = 0;
                assert(o.gen_prefix(cx as int, cz as int, x as int, z as int, 0) =~= o.gen_prefix(cx as int, cz as int, x as int, j + cz, 0));
                while y < h
                    invariant
                        self.wf(),
                        vd == o.view_distance(),
                        h == o.world_height(),
                        vd > 0,
                        -vd <= i < vd,
                        -vd <= j < vd,
                        x == i + cx,
                        z == j + cz,
                        0 <= y,
                        h >= 0 ==> y <= h,
                        h < 0 ==> y == 0,
                        generate@.no_duplicates(),
                        load@.no_duplicates(),
                        scan_sorted(generate@),
                        scan_sorted(load@),
                        generate@.to_set() == o.gen_prefix(cx as int, cz as int, x as int, z as int, y as int),
                        load@.to_set() == o.load_prefix(cx as int, cz as int, x as int, z as int, y as int),
                        self.generating() == o.generating() + generate@.to_set(),
                        self.loading() == o.loading() + load@.to_set(),
                        self.generated() == o.generated(),
                        self.loaded() == o.loaded(),
                        self.mesh_table() == o.mesh_table(),
                        self.next_mesh_id() == o.next_mesh_id(),
                        self.view_distance() == o.view_distance(),
                        self.world_height() == o.world_height(),
                    decreases h - y,
                {
                    let pos = (x, y, z);
                    assert(in_view(pos, cx as int, cz as int, vd as int, h as int));
                    assert(!o.gen_prefix(cx as int, cz as int, x as int, z as int, y as int).contains(pos));
                    assert(!o.load_prefix(cx as int, cz as int, x as int, z as int, y as int).contains(pos));
                    let ghost g0 = generate@;
                    let ghost l0 = load@;
                    let ghost gp = o.gen_prefix(cx as int, cz as int, x as int, z as int, y as int);
                    let ghost lp = o.load_prefix(cx as int, cz as int, x as int, z as int, y as int);
                    if !self.generated_chunks.contains_key(&pos) && !self.generating_chunks.contains_key(
                        &pos,
                    ) {
                        self.generate_chunk(pos);
                        generate.push(pos);
                        proof {
                            g0.lemma_push_to_set_commute(pos);
                            assert(generate@.no_duplicates()) by {
                                assert forall|a: int, b: int|
                                    0 <= a < generate@.len() && 0 <= b < generate@.len() && a != b implies generate@[a]
                                        != generate@[b] by {
                                    if a < g0.len() && b < g0.len() {
                                        assert(g0[a] != g0[b]);
                                    } else if a < g0.len() {
                                        assert(g0.to_set().contains(g0[a]));
                                    } else {
                                        assert(g0.to_set().contains(g0[b]));
                                    }
                                }
                            }
                            assert(scan_sorted(generate@)) by {
                                assert forall|a: int, b: int| 0 <= a < b < generate@.len() implies scanned_before(
                                    #[trigger] generate@[a],
                                    (#[trigger] generate@[b]).0 as int,
                                    generate@[b].2 as int,
                                    generate@[b].1 as int,
                                ) by {
                                    if b < g0.len() {
                                        assert(generate@[a] == g0[a] && generate@[b] == g0[b]);
                                    } else {
                                        assert(g0.to_set().contains(g0[a]));
                                        assert(gp.contains(g0[a]));
                                    }
                                }
                            }
                        }
                    } else if self.generated_chunks.contains_key(&pos) && !self.loaded_chunks.contains_key(
                        &pos,
                    ) && !self.loading_from_db.contains_key(&pos) {
                        self.loading_from_db.insert(pos, ());
                        load.push(pos);
                        proof {
                            l0.lemma_push_to_set_commute(pos);
                            assert(load@.no_duplicates()) by {
                                assert forall|a: int, b: int|
                                    0 <= a < load@.len() && 0 <= b < load@.len() && a != b implies load@[a]
                                        != load@[b] by {
                                    if a < l0.len() && b < l0.len() {
                                        assert(l0[a] != l0[b]);
                                    } else if a < l0.len() {
                                        assert(l0.to_set().contains(l0[a]));
                                    } else {
                                        assert(l0.to_set().contains(l0[b]));
                                    }
                                }
                            }
                            assert(scan_sorted(load@)) by {
                                assert forall|a: int, b: int| 0 <= a < b < load@.len() implies scanned_before(
                                    #[trigger] load@[a],
                                    (#[trigger] load@[b]).0 as int,
                                    load@[b].2 as int,
                                    load@[b].1 as int,
                                ) by {
                                    if b < l0.len() {
                                        assert(load@[a] == l0[a] && load@[b] == l0[b]);
                                    } else {
                                        assert(l0.to_set().contains(l0[a]));
                                        assert(lp.contains(l0[a]));
                                    }
                                }
                            }
                        }
                    }
                    y += 1;
                    assert(generate@.to_set() =~= o.gen_prefix(cx as int, cz as int, x as int, z as int, y as int));
                    assert(load@.to_set() =~= o.load_prefix(cx as int, cz as int, x as int, z as int, y as int));
                    assert(self.generating() =~= o.generating() + generate@.to_set());
                    assert(self.loading() =~= o.loading() + load@.to_set());
                }
                j += 1;
                assert(o.gen_prefix(cx as int, cz as int, x as int, z as int, y as int) =~= o.gen_prefix(cx as int, cz as int, x as int, j + cz, 0));
                assert(o.load_prefix(cx as int, cz as int, x as int, z as int, y as int) =~= o.load_prefix(cx as int, cz as int, x as int, j + cz, 0));
            }
            i += 1;
            assert(o.gen_prefix(cx as int, cz as int, x as int, j + cz, 0) =~= o.gen_prefix(cx as int, cz as int, i + cx, cz - vd, 0));
            assert(o.load_prefix(cx as int, cz as int, x as int, j + cz, 0) =~= o.load_prefix(cx as int, cz as int, i + cx, cz - vd, 0));
        }
        assert(generate@.to_set() =~= Set::new(
            |p: ChunkPos|
                in_view(p, cx as int, cz as int, vd as int, h as int) && o.needs_generation(p),
        ));
        assert(load@.to_set() =~= Set::new(
            |p: ChunkPos|
                in_view(p, cx as int, cz as int, vd as int, h as int) && o.needs_loading(p),
        ));
        ChunkRequests { generate, load }
    }

    /// The loaded chunks that lie out of range of the camera chunk.
    pub open spec fn far_chunks(&self, cx: int, cz: int) -> Set<ChunkPos> {
        Set::new(
            |p: ChunkPos|
                self.loaded().contains_key(p) && !in_range(p, cx, cz, self.view_distance() as int),
        )
    }

    /// Drops every loaded chunk that lies out of range of the camera chunk
    /// `(cx, cz)`, together with its entry in the mesh table, and hands each
    /// back with the object showing its mesh.
    pub fn unload_far_chunks(&mut self, cx: i32, cz: i32) -> (r: Vec<UnloadedChunk<C>>)
        requires
            old(self).wf(),
            forall|p: ChunkPos| #[trigger] old(self).loaded().contains_key(p) ==> distance_fits(p, cx as int, cz as int),
        ensures
            final(self).wf(),
            r@.map_values(|u: UnloadedChunk<C>| u.pos).no_duplicates(),
            r@.map_values(|u: UnloadedChunk<C>| u.pos).to_set() == old(self).far_chunks(cx as int, cz as int),
            forall|i: int|
                0 <= i < r@.len() ==> (#[trigger] r@[i]).chunk == old(self).loaded()[r@[i].pos],
            forall|i: int|
                0 <= i < r@.len() ==> (#[trigger] r@[i]).mesh == mesh_object(old(self).mesh_table(), r@[i].pos),
            final(self).loaded() == old(self).loaded().remove_keys(old(self).far_chunks(cx as int, cz as int)),
            final(self).mesh_table() == old(self).mesh_table().remove_keys(old(self).far_chunks(cx as int, cz as int)),
            final(self).generating() == old(self).generating(),
            final(self).generated() == old(self).generated(),
            final(self).loading() == old(self).loading(),
            final(self).next_mesh_id() == old(self).next_mesh_id(),
            final(self).view_distance() == old(self).view_distance(),
            final(self).world_height() == old(self).world_height(),
    {
        let vd = self.settings.view_distance;
        let ghost o = old(self);
        let keys = self.loaded_chunks.keys();
        let mut out: Vec<UnloadedChunk<C>> = Vec::new();
        let mut idx: usize = 0;
        let ghost far = o.far_chunks(cx as int, cz as int);
        while idx < keys.len()
            invariant
                self.wf(),
                vd == o.view_distance(),
                keys@.to_set() == o.loaded().dom(),
                keys@.no_duplicates(),
                far == o.far_chunks(cx as int, cz as int),
                forall|p: ChunkPos| #[trigger] o.loaded().contains_key(p) ==> distance_fits(p, cx as int, cz as int),
                idx <= keys@.len(),
                out@.map_values(|u: UnloadedChunk<C>| u.pos).no_duplicates(),
                out@.map_values(|u: UnloadedChunk<C>| u.pos).to_set() == far.intersect(keys@.subrange(0, idx as int).to_set()),
                forall|i: int|
                    0 <= i < out@.len() ==> (#[trigger] out@[i]).chunk == o.loaded()[out@[i].pos]
                        && out@[i].mesh == mesh_object(o.mesh_table(), out@[i].pos),
                self.loaded() == o.loaded().remove_keys(far.intersect(keys@.subrange(0, idx as int).to_set())),
                self.mesh_table() == o.mesh_table().remove_keys(far.intersect(keys@.subrange(0, idx as int).to_set())),
                self.generating() == o.generating(),
                self.generated() == o.generated(),
                self.loading() == o.loading(),
                self.next_mesh_id() == o.next_mesh_id(),
                self.view_distance() == o.view_distance(),
                self.world_height() == o.world_height(),
            decreases keys@.len() - idx,
        {
            let k = keys[idx];
            let ghost done = far.intersect(keys@.subrange(0, idx as int).to_set());
            let ghost done_next = far.intersect(keys@.subrange(0, idx + 1).to_set());
            proof {
                assert(keys@.to_set().contains(k));
                assert(keys@.subrange(0, idx + 1) == keys@.subrange(0, idx as int).push(k));
                keys@.subrange(0, idx as int).lemma_push_to_set_commute(k);
                assert(!keys@.subrange(0, idx as int).to_set().contains(k)) by {
                    if keys@.subrange(0, idx as int).to_set().contains(k) {
                        let j = choose|j: int| 0 <= j < idx && keys@.subrange(0, idx as int)[j] == k;
                        assert(keys@[j] == keys@[idx as int]);
                    }
                }
            }
            let dx = k.0 - cx;
            let dz = k.2 - cz;
            let adx = if dx < 0 { -dx } else { dx };
            let adz = if dz < 0 { -dz } else { dz };
            let in_range_now = adx <= vd && adz <= vd;
            if !in_range_now {
                assert(far.contains(k));
                assert(done_next =~= done.insert(k));
                let ghost outpos = out@.map_values(|u: UnloadedChunk<C>| u.pos);
                let ghost out0 = out@;
                assert(!done.contains(k));
                assert(self.loaded().contains_key(k) && self.loaded()[k] == o.loaded()[k]);
                assert(self.mesh_table().contains_key(k) == o.mesh_table().contains_key(k));
                assert(o.mesh_table().contains_key(k) ==> self.mesh_table()[k] == o.mesh_table()[k]);
                let ghost mk = mesh_object(self.mesh_table(), k);
                assert(mk == mesh_object(o.mesh_table(), k));
                let removed = self.loaded_chunks.remove(&k);
                assert(removed == Some(o.loaded()[k]));
                let chunk = removed.unwrap();
                let mesh = match self.meshes.remove(&k) {
                    Some(entry) => Some(entry.0),
                    None => None,
                };
                assert(mesh == mk);
                out.push(UnloadedChunk { pos: k, chunk, mesh });
                proof {
                    assert(out@.map_values(|u: UnloadedChunk<C>| u.pos) =~= outpos.push(k));
                    assert forall|i: int|
                        0 <= i < out@.len() implies (#[trigger] out@[i]).chunk == o.loaded()[out@[i].pos]
                            && out@[i].mesh == mesh_object(o.mesh_table(), out@[i].pos) by {
                        if i < out0.len() {
                            assert(out@[i] == out0[i]);
                        }
                    }
                    outpos.lemma_push_to_set_commute(k);
                    assert(out@.map_values(|u: UnloadedChunk<C>| u.pos).no_duplicates()) by {
                        let np = out@.map_values(|u: UnloadedChunk<C>| u.pos);
                        assert forall|a: int, b: int|
                            0 <= a < np.len() && 0 <= b < np.len() && a != b implies np[a] != np[b] by {
                            if a < outpos.len() && b < outpos.len() {
                                assert(outpos[a] != outpos[b]);
                            } else if a < outpos.len() {
                                assert(outpos.to_set().contains(outpos[a]));
                            } else {
                                assert(outpos.to_set().contains(outpos[b]));
                            }
                        }
                    }
                    assert(self.loaded() =~= o.loaded().remove_keys(done_next));
                    assert(self.mesh_table() =~= o.mesh_table().remove_keys(done_next));
                }
            } else {
                assert(!far.contains(k));
                assert(done_next =~= done);
            }
            assert(forall|i: int|
                    0 <= i < out@.len() ==> (#[trigger] out@[i]).chunk == o.loaded()[out@[i].pos]
                        && out@[i].mesh == mesh_object(o.mesh_table(), out@[i].pos));
            idx += 1;
        }
        proof {
            assert(keys@.subrange(0, keys@.len() as int) == keys@);
            assert(far.intersect(keys@.to_set()) =~= far);
            assert(o == old(self));
            assert forall|i: int|
                0 <= i < out@.len() implies (#[trigger] out@[i]).chunk == old(self).loaded()[out@[i].pos]
                    && out@[i].mesh == mesh_object(old(self).mesh_table(), out@[i].pos) by {
                assert(out@[i].chunk == o.loaded()[out@[i].pos]);
            }
        }
        out
    }

    /// A generated chunk came back: it is now generated and loaded, and gets
    /// meshed (see [`ChunkLoader::insert_chunk`]).
    pub fn receive_generated(&mut self, pos: ChunkPos, chunk: C) -> (r: Vec<MeshTask>)
        requires
            old(self).wf(),
            pos.0 <= i32::MAX - 2 && pos.1 <= i32::MAX - 2 && pos.2 <= i32::MAX - 2,
            old(self).next_mesh_id() <= i32::MAX - 8,
        ensures
            final(self).wf(),
            final(self).generated() == old(self).generated().insert(pos),
            final(self).generating() == old(self).generating().remove(pos),
            final(self).loaded() == old(self).loaded().insert(pos, chunk),
            task_views(r@) == tasks_from(
                final(self).loaded().dom(),
                pos,
                0,
                old(self).next_mesh_id() as int,
            ),
            final(self).next_mesh_id() == old(self).next_mesh_id() + r@.len(),
            final(self).loading() == old(self).loading(),
            final(self).mesh_table() == old(self).mesh_table(),
            final(self).view_distance() == old(self).view_distance(),
            final(self).world_height() == old(self).world_height(),
    {
        self.generated_chunks.insert(pos, ());
        self.generating_chunks.remove(&pos);
        assert(self.generated() =~= old(self).generated().insert(pos));
        assert(self.generating() =~= old(self).generating().remove(pos));
        self.insert_chunk(pos, chunk)
    }

    /// The database answered the read of chunk `pos`: a chunk that was found
    /// is loaded and meshed; a missing one is no longer taken as generated
    /// and has to be generated again.
    pub fn receive_from_db(&mut self, pos: ChunkPos, chunk: Option<C>) -> (r: DbOutcome)
        requires
            old(self).wf(),
            pos.0 <= i32::MAX - 2 && pos.1 <= i32::MAX - 2 && pos.2 <= i32::MAX - 2,
            old(self).next_mesh_id() <= i32::MAX - 8,
        ensures
            final(self).wf(),
            final(self).loading() == old(self).loading().remove(pos),
            final(self).mesh_table() == old(self).mesh_table(),
            final(self).view_distance() == old(self).view_distance(),
            final(self).world_height() == old(self).world_height(),
            match chunk {
                Some(c) => {
                    &&& !r.regenerate
                    &&& final(self).loaded() == old(self).loaded().insert(pos, c)
                    &&& task_views(r.mesh_tasks@) == tasks_from(
                        final(self).loaded().dom(),
                        pos,
                        0,
                        old(self).next_mesh_id() as int,
                    )
                    &&& final(self).next_mesh_id() == old(self).next_mesh_id() + r.mesh_tasks@.len()
                    &&& final(self).generated() == old(self).generated()
                    &&& final(self).generating() == old(self).generating()
                },
                None => {
                    &&& r.regenerate
                    &&& r.mesh_tasks@.len() == 0
                    &&& final(self).loaded() == old(self).loaded()
                    &&& final(self).next_mesh_id() == old(self).next_mesh_id()
                    &&& final(self).generated() == old(self).generated().remove(pos)
                    &&& final(self).generating() == old(self).generating().insert(pos)
                },
            },
    {
        self.loading_from_db.remove(&pos);
        assert(self.loading() =~= old(self).loading().remove(pos));
        match chunk {
            Some(c) => {
                let tasks = self.insert_chunk(pos, c);
                DbOutcome { regenerate: false, mesh_tasks: tasks }
            },
            None => {
                self.generated_chunks.remove(&pos);
                assert(self.generated() =~= old(self).generated().remove(pos));
                self.generate_chunk(pos);
                DbOutcome { regenerate: true, mesh_tasks: Vec::new() }
            },
        }
    }

    /// A mesh for chunk `pos` was built from request `mesh_id`. A non-empty
    /// mesh is instantiated under the next object id. When the chunk already
    /// shows an object from an older request, that object is removed and the
    /// table keeps its id with the new request number; otherwise the table
    /// records the new object.
    pub fn receive_mesh(
        &mut self,
        pos: ChunkPos,
        mesh_id: i32,
        mesh_is_empty: bool,
        game_object_id_count: &mut u32,
    ) -> (r: MeshOutcome)
        requires
            old(self).wf(),
            !mesh_is_empty ==> *old(game_object_id_count) < u32::MAX,
        ensures
            final(self).wf(),
            final(self).generating() == old(self).generating(),
            final(self).generated() == old(self).generated(),
            final(self).loaded() == old(self).loaded(),
            final(self).loading() == old(self).loading(),
            final(self).next_mesh_id() == old(self).next_mesh_id(),
            final(self).view_distance() == old(self).view_distance(),
            final(self).world_height() == old(self).world_height(),
            mesh_is_empty ==> r.instantiate is None && r.remove is None
                && *final(game_object_id_count) == *old(game_object_id_count)
                && final(self).mesh_table() == old(self).mesh_table(),
            !mesh_is_empty ==> *final(game_object_id_count) == *old(game_object_id_count) + 1,
            !mesh_is_empty ==> r.instantiate == Some(GameObjectID(*old(game_object_id_count))),
            !mesh_is_empty ==> (final(self).mesh_table(), r.remove) == mesh_decision(
                old(self).mesh_table(),
                pos,
                mesh_id,
                GameObjectID(*old(game_object_id_count)),
            ),
            !mesh_is_empty ==> final(self).mesh_table().contains_key(pos)
                && final(self).mesh_table()[pos].1 == newest_request(old(self).mesh_table(), pos, mesh_id),
            !mesh_is_empty && !old(self).mesh_table().contains_key(pos) ==> final(self).mesh_table()[pos]
                == (GameObjectID(*old(game_object_id_count)), mesh_id) && r.remove is None,
    {
        proof {
            lemma_mesh_decision_records_newest(
                old(self).mesh_table(),
                pos,
                mesh_id,
                GameObjectID(*old(game_object_id_count)),
            );
        }
        if mesh_is_empty {
            return MeshOutcome { instantiate: None, remove: None };
        }
        let game_object_id = GameObjectID(*game_object_id_count);
        *game_object_id_count += 1;
        let mut remove = None;
        match self.meshes.get(&pos) {
            Some(entry) => {
                let (old_id, count) = *entry;
                if mesh_id > count {
                    remove = Some(old_id);
                    self.meshes.insert(pos, (old_id, mesh_id));
                }
            },
            None => {
                self.meshes.insert(pos, (game_object_id, mesh_id));
            },
        }
        MeshOutcome { instantiate: Some(game_object_id), remove }
    }
}

/// After a request pass around the camera chunk `(cx, cz)`, no chunk in
/// view is left to be generated or read: a second pass from the same camera
/// chunk requests nothing.
pub proof fn lemma_request_pass_covers_view<C>(
    before: ChunkLoader<C>,
    after: ChunkLoader<C>,
    cx: int,
    cz: int,
    generate: Set<ChunkPos>,
    load: Set<ChunkPos>,
    p: ChunkPos,
)
    requires
        generate == Set::new(
            |q: ChunkPos|
                in_view(q, cx, cz, before.view_distance() as int, before.world_height() as int)
                    && before.needs_generation(q),
        ),
        load == Set::new(
            |q: ChunkPos|
                in_view(q, cx, cz, before.view_distance() as int, before.world_height() as int)
                    && before.needs_loading(q),
        ),
        after.generating() == before.generating() + generate,
        after.loading() == before.loading() + load,
        after.generated() == before.generated(),
        after.loaded() == before.loaded(),
        after.view_distance() == before.view_distance(),
        after.world_height() == before.world_height(),
        in_view(p, cx, cz, after.view_distance() as int, after.world_height() as int),
    ensures
        !after.needs_generation(p),
        !after.needs_loading(p),
{
    if before.needs_generation(p) {
        assert(generate.contains(p));
    }
    if before.needs_loading(p) {
        assert(load.contains(p));
    }
}

/// After unloading around the camera chunk `(cx, cz)`, every chunk still in
/// memory is within range of the camera, and every chunk within range that
/// was in memory still is.
pub proof fn lemma_unload_keeps_exactly_in_range<C>(
    before: ChunkLoader<C>,
    after: ChunkLoader<C>,
    cx: int,
    cz: int,
    p: ChunkPos,
)
    requires
        after.loaded() == before.loaded().remove_keys(before.far_chunks(cx, cz)),
    ensures
        after.loaded().contains_key(p) <==> (before.loaded().contains_key(p) && in_range(
            p,
            cx,
            cz,
            before.view_distance() as int,
        )),
        after.loaded().contains_key(p) ==> after.loaded()[p] == before.loaded()[p],
{
}

/// A mesh never replaces the table entry of a newer one: the request number
/// recorded for a chunk never decreases, and other chunks keep their
/// entries.
pub proof fn lemma_mesh_numbers_never_decrease(
    table: Map<ChunkPos, (GameObjectID, i32)>,
    pos: ChunkPos,
    mesh_id: i32,
    new_id: GameObjectID,
    q: ChunkPos,
)
    ensures
        ({
            let (t2, _) = mesh_decision(table, pos, mesh_id, new_id);
            &&& t2.contains_key(pos)
            &&& table.contains_key(pos) ==> t2[pos].1 >= table[pos].1
            &&& q != pos ==> (t2.contains_key(q) == table.contains_key(q)) && (table.contains_key(q) ==> t2[q] == table[q])
        }),
{
}

} // verus!
