//! Bookkeeping of the renderer: ids of meshes and object data, the
//! instances of each object, and the layout of the vertex, index, instance
//! and indirect-draw buffers built from them. Uploading the buffers to the
//! GPU is left to the caller.
use vstd::prelude::*;
use std::collections::HashMap;
use vstd::std_specs::iter::IteratorSpec;
use crate::game_object::GameObjectID;

verus! {

/// The ids that map `m` holds, each once, in the map's own order.
fn id_keys<V>(m: &HashMap<u32, V>) -> (r: Vec<u32>)
    ensures
        r@.to_set() == m@.dom(),
        r@.no_duplicates(),
{
    broadcast use vstd::std_specs::hash::axiom_spec_keys_iter;
    let mut r: Vec<u32> = Vec::new();
    for k in it: m.keys()
        invariant
            it.seq() == vstd::std_specs::hash::spec_keys_iter(m).remaining(),
            r@.len() == it.index(),
            forall|j: int| 0 <= j < r@.len() ==> r@[j] == *it.seq()[j],
    {
        r.push(*k);
    }
    let ghost ks = vstd::std_specs::hash::spec_keys_iter(m).remaining();
    assert(r@ =~= ks.unref());
    r
}

/// Identifier of uploaded object data.
#[derive(PartialEq, Eq, Structural, Debug, Clone, Copy, Hash)]
pub struct ObjectDataID(pub u32);

/// Handle of a mesh registered with the engine.
#[derive(Debug, Clone, Copy)]
pub struct RenderInfoHash {}

/// The meshes an object is made of.
#[derive(Debug, Clone)]
pub struct ObjectData {
    pub id: u32,
    /// Mesh ids.
    pub meshes: Vec<u32>,
}

/// A mesh: vertices of type `V`, triangle indices and a material.
pub struct MeshData<V> {
    pub vertices: Vec<V>,
    pub indices: Vec<u32>,
    pub material_id: u32,
}

impl<V> MeshData<V> {
    /// A mesh from its parts.
    pub fn new(vertices: Vec<V>, indices: Vec<u32>, material_id: u32) -> (r: Self)
        ensures
            r.vertices@ == vertices@,
            r.indices@ == indices@,
            r.material_id == material_id,
    {
        MeshData { vertices, indices, material_id }
    }
}

/// One instance of an object, with its per-instance data of type `I`.
#[derive(Clone, Copy)]
pub struct GPUInstance<I> {
    pub instance_id: GameObjectID,
    pub instance: I,
}

/// One indexed indirect draw.
#[derive(PartialEq, Eq, Structural, Debug, Clone, Copy)]
pub struct DrawCommand {
    pub index_count: u32,
    pub instance_count: u32,
    pub first_index: u32,
    pub vertex_offset: u32,
    pub first_instance: u32,
}

/// The contents of the GPU buffers: meshes are laid out one after the other
/// in `order`, each drawn by one command over all instances of its object.
pub struct BufferContents<V, I> {
    pub order: Vec<u32>,
    pub vertices: Vec<V>,
    pub indices: Vec<u32>,
    pub instances: Vec<I>,
    pub commands: Vec<DrawCommand>,
}

/// The vertices of the meshes in `order`, one mesh after the other.
pub open spec fn mesh_vertices<V>(meshes: Map<u32, MeshData<V>>, order: Seq<u32>) -> Seq<V> {
    order.map_values(|m: u32| meshes[m].vertices@).flatten()
}

/// The indices of the meshes in `order`, one mesh after the other.
pub open spec fn mesh_indices<V>(meshes: Map<u32, MeshData<V>>, order: Seq<u32>) -> Seq<u32> {
    order.map_values(|m: u32| meshes[m].indices@).flatten()
}

/// The object whose mesh list holds mesh `m`.
pub open spec fn owner_of(objects: Map<u32, Seq<u32>>, m: u32) -> u32 {
    choose|o: u32| objects.contains_key(o) && objects[o].contains(m)
}

/// The per-instance data of object `o`.
pub open spec fn instance_data<I>(lists: Map<u32, Seq<GPUInstance<I>>>, o: u32) -> Seq<I> {
    lists[o].map_values(|g: GPUInstance<I>| g.instance)
}

/// The instance data of the meshes in `order`: for each mesh, the instances
/// of the object that owns it.
pub open spec fn mesh_instances<I>(objects: Map<u32, Seq<u32>>, lists: Map<u32, Seq<GPUInstance<I>>>, order: Seq<u32>) -> Seq<I> {
    order.map_values(|m: u32| instance_data(lists, owner_of(objects, m))).flatten()
}

/// The meshes used by some object.
pub open spec fn used_meshes(objects: Map<u32, Seq<u32>>) -> Set<u32> {
    Set::new(|m: u32| exists|o: u32| objects.contains_key(o) && objects[o].contains(m))
}

/// The draw command of the `k`-th mesh in `order`.
pub open spec fn draw_command<V, I>(
    meshes: Map<u32, MeshData<V>>,
    objects: Map<u32, Seq<u32>>,
    lists: Map<u32, Seq<GPUInstance<I>>>,
    order: Seq<u32>,
    k: int,
) -> DrawCommand {
    DrawCommand {
        index_count: meshes[order[k]].indices@.len() as u32,
        instance_count: instance_data(lists, owner_of(objects, order[k])).len() as u32,
        first_index: mesh_indices(meshes, order.take(k)).len() as u32,
        vertex_offset: 0,
        first_instance: mesh_instances(objects, lists, order.take(k)).len() as u32,
    }
}

/// `r` lays out every used mesh once, with its vertices, indices, instances
/// and draw command.
pub open spec fn layout_ok<V, I>(
    r: BufferContents<V, I>,
    meshes: Map<u32, MeshData<V>>,
    objects: Map<u32, Seq<u32>>,
    lists: Map<u32, Seq<GPUInstance<I>>>,
) -> bool {
    &&& r.order@.no_duplicates()
    &&& r.order@.to_set() == used_meshes(objects)
    &&& r.vertices@ == mesh_vertices(meshes, r.order@)
    &&& r.indices@ == mesh_indices(meshes, r.order@)
    &&& r.instances@ == mesh_instances(objects, lists, r.order@)
    &&& r.commands@.len() == r.order@.len()
    &&& forall|k: int| 0 <= k < r.commands@.len() ==> #[trigger] r.commands@[k] == draw_command(meshes, objects, lists, r.order@, k)
}

/// Whether `v` holds `x`.
fn vec_contains(v: &Vec<u32>, x: u32) -> (r: bool)
    ensures
        r == v@.contains(x),
{
    let mut i: usize = 0;
    while i < v.len()
        invariant
            i <= v@.len(),
            forall|j: int| 0 <= j < i ==> v@[j] != x,
        decreases v@.len() - i,
    {
        if v[i] == x {
            assert(v@[i as int] == x);
            return true;
        }
        i += 1;
    }
    false
}

/// The first position in `s` of an instance with id `id`.
pub open spec fn first_with_id<I>(s: Seq<GPUInstance<I>>, id: GameObjectID) -> int {
    choose|j: int| 0 <= j < s.len() && s[j].instance_id == id && forall|j2: int| 0 <= j2 < j ==> s[j2].instance_id != id
}

/// The instance lists after appending `g` to the list of object `o` (an
/// object without a list gets one).
pub open spec fn with_instance<I>(lists: Map<u32, Seq<GPUInstance<I>>>, o: u32, g: GPUInstance<I>) -> Map<u32, Seq<GPUInstance<I>>> {
    lists.insert(o, (if lists.contains_key(o) { lists[o] } else { Seq::empty() }).push(g))
}

/// The instances in `s` whose id is not `id`.
pub open spec fn without_id<I>(s: Seq<GPUInstance<I>>, id: GameObjectID) -> Seq<GPUInstance<I>> {
    s.filter(|g: GPUInstance<I>| g.instance_id != id)
}

/// The value both id counters start from; the first id handed out is one more.
pub const FIRST_ID: u32 = 1024;

/// Meshes, objects made of them, and object instances.
pub struct RenderRegistry<V, I> {
    object_data: HashMap<u32, Vec<u32>>,
    mesh_data: HashMap<u32, MeshData<V>>,
    instances: HashMap<u32, Vec<GPUInstance<I>>>,
    last_mesh_id: u32,
    last_object_id: u32,
}

impl<V: Copy, I: Copy> RenderRegistry<V, I> {
    /// The mesh ids of each object.
    pub closed spec fn objects(&self) -> Map<u32, Seq<u32>> {
        self.object_data@.map_values(|v: Vec<u32>| v@)
    }

    /// The meshes by id.
    pub closed spec fn meshes(&self) -> Map<u32, MeshData<V>> {
        self.mesh_data@
    }

    /// The instances of each object.
    pub closed spec fn instance_lists(&self) -> Map<u32, Seq<GPUInstance<I>>> {
        self.instances@.map_values(|v: Vec<GPUInstance<I>>| v@)
    }

    /// The last mesh id handed out.
    pub closed spec fn last_mesh(&self) -> u32 {
        self.last_mesh_id
    }

    /// The last object id handed out.
    pub closed spec fn last_object(&self) -> u32 {
        self.last_object_id
    }

    /// Meshes of objects exist, each belongs to one object only, and ids
    /// handed out are at most the last ones.
    pub closed spec fn wf(&self) -> bool {
        &&& forall|o: u32, j: int|
            #[trigger] self.objects().contains_key(o) && 0 <= j < self.objects()[o].len() ==> self.mesh_data@.contains_key(
                #[trigger] self.objects()[o][j],
            )
        &&& forall|o: u32| #[trigger] self.objects().contains_key(o) ==> self.objects()[o].no_duplicates()
        &&& forall|o1: u32, o2: u32, m: u32|
            #[trigger] self.objects().contains_key(o1) && #[trigger] self.objects().contains_key(o2) && o1 != o2
                && #[trigger] self.objects()[o1].contains(m) ==> !self.objects()[o2].contains(m)
        &&& forall|m: u32| #[trigger] self.mesh_data@.contains_key(m) ==> m <= self.last_mesh_id
        &&& forall|o: u32| #[trigger] self.objects().contains_key(o) ==> o <= self.last_object_id
    }

    /// Every object has an instance list.
    pub open spec fn instanced(&self) -> bool {
        forall|o: u32| #[trigger] self.objects().contains_key(o) ==> self.instance_lists().contains_key(o)
    }

    /// An empty registry.
    pub fn new() -> (r: Self)
        ensures
            r.wf(),
            r.objects() == Map::<u32, Seq<u32>>::empty(),
            r.meshes() == Map::<u32, MeshData<V>>::empty(),
            r.instance_lists() == Map::<u32, Seq<GPUInstance<I>>>::empty(),
            r.last_mesh() == FIRST_ID,
            r.last_object() == FIRST_ID,
    {
        let r = RenderRegistry {
            object_data: HashMap::new(),
            mesh_data: HashMap::new(),
            instances: HashMap::new(),
            last_mesh_id: FIRST_ID,
            last_object_id: FIRST_ID,
        };
        assert(r.objects() =~= Map::<u32, Seq<u32>>::empty());
        assert(r.instance_lists() =~= Map::<u32, Seq<GPUInstance<I>>>::empty());
        r
    }

    /// The last mesh id handed out.
    pub fn last_mesh_id(&self) -> (r: u32)
        ensures
            r == self.last_mesh(),
    {
        self.last_mesh_id
    }

    /// The last object id handed out.
    pub fn last_object_id(&self) -> (r: u32)
        ensures
            r == self.last_object(),
    {
        self.last_object_id
    }

    /// Whether every object other than `skip` has an instance list.
    pub fn instanced_besides(&self, skip: Option<ObjectDataID>) -> (r: bool)
        requires
            self.wf(),
        ensures
            r == (forall|o: u32|
                #[trigger] self.objects().contains_key(o) && skip != Some(ObjectDataID(o))
                    ==> self.instance_lists().contains_key(o)),
    {
        let keys = id_keys(&self.object_data);
        let mut i: usize = 0;
        while i < keys.len()
            invariant
                self.wf(),
                i <= keys@.len(),
                keys@.to_set() == self.object_data@.dom(),
                forall|j: int|
                    0 <= j < i && skip != Some(ObjectDataID(#[trigger] keys@[j])) ==> self.instances@.contains_key(
                        keys@[j],
                    ),
            decreases keys@.len() - i,
        {
            let o = keys[i];
            let skipped = match skip {
                Some(s) => s.0 == o,
                None => false,
            };
            if !skipped && !self.instances.contains_key(&o) {
                proof {
                    assert(keys@.to_set().contains(o));
                    assert(self.objects().contains_key(o));
                }
                return false;
            }
            i += 1;
        }
        proof {
            assert forall|o: u32|
                #[trigger] self.objects().contains_key(o) && skip != Some(ObjectDataID(o))
                    implies self.instance_lists().contains_key(o) by {
                assert(keys@.to_set().contains(o));
                let j = choose|j: int| 0 <= j < keys@.len() && keys@[j] == o;
            }
        }
        true
    }

    /// Whether object `object_id` has an instance with id `instance_id`.
    pub fn has_instance(&self, object_id: ObjectDataID, instance_id: GameObjectID) -> (r: bool)
        requires
            self.wf(),
        ensures
            r == (self.instance_lists().contains_key(object_id.0) && exists|j: int|
                0 <= j < self.instance_lists()[object_id.0].len()
                    && (#[trigger] self.instance_lists()[object_id.0][j]).instance_id == instance_id),
    {
        match self.instances.get(&object_id.0) {
            None => false,
            Some(list) => {
                let ghost s = self.instance_lists()[object_id.0];
                assert(self.instance_lists().contains_key(object_id.0));
                assert(s == list@);
                let mut i: usize = 0;
                while i < list.len()
                    invariant
                        s == list@,
                        self.instance_lists().contains_key(object_id.0),
                        s == self.instance_lists()[object_id.0],
                        i <= s.len(),
                        forall|j: int| 0 <= j < i ==> (#[trigger] s[j]).instance_id != instance_id,
                    decreases s.len() - i,
                {
                    if list[i].instance_id == instance_id {
                        assert(self.instance_lists()[object_id.0][i as int].instance_id == instance_id);
                        return true;
                    }
                    i += 1;
                }
                false
            },
        }
    }

    /// Hands out the next mesh id.
    fn next_mesh_id(&mut self) -> (r: u32)
        requires
            old(self).last_mesh() < u32::MAX,
        ensures
            r == old(self).last_mesh() + 1,
            final(self).last_mesh() == r,
            final(self).object_data == old(self).object_data,
            final(self).mesh_data == old(self).mesh_data,
            final(self).instances == old(self).instances,
            final(self).last_object() == old(self).last_object(),
    {
        self.last_mesh_id += 1;
        self.last_mesh_id
    }

    /// Hands out the next object id.
    fn next_object_id(&mut self) -> (r: u32)
        requires
            old(self).last_object() < u32::MAX,
        ensures
            r == old(self).last_object() + 1,
            final(self).last_object() == r,
            final(self).object_data == old(self).object_data,
            final(self).mesh_data == old(self).mesh_data,
            final(self).instances == old(self).instances,
            final(self).last_mesh() == old(self).last_mesh(),
    {
        self.last_object_id += 1;
        self.last_object_id
    }

    /// Stores a mesh under the next mesh id.
    fn add_mesh(&mut self, mesh: MeshData<V>) -> (r: u32)
        requires
            old(self).wf(),
            old(self).last_mesh() < u32::MAX,
        ensures
            final(self).wf(),
            r == old(self).last_mesh() + 1,
            final(self).last_mesh() == r,
            final(self).meshes() == old(self).meshes().insert(r, mesh),
            !old(self).meshes().contains_key(r),
            final(self).objects() == old(self).objects(),
            final(self).instance_lists() == old(self).instance_lists(),
            final(self).last_object() == old(self).last_object(),
    {
        let id = self.next_mesh_id();
        assert(self.objects() == old(self).objects());
        let ghost before = self.mesh_data@;
        self.mesh_data.insert(id, mesh);
        proof {
            assert forall|o: u32, j: int|
                #[trigger] self.objects().contains_key(o) && 0 <= j < self.objects()[o].len() implies self.mesh_data@.contains_key(
                    #[trigger] self.objects()[o][j],
                ) by {
                assert(old(self).objects().contains_key(o));
                assert(old(self).objects()[o][j] == self.objects()[o][j]);
                assert(old(self).mesh_data@.contains_key(old(self).objects()[o][j]));
            }
        }
        id
    }

    /// Every used mesh once, each with the object that owns it.
    fn mesh_order(&self) -> (r: (Vec<u32>, Vec<u32>))
        requires
            self.wf(),
        ensures
            r.0@.len() == r.1@.len(),
            r.0@.no_duplicates(),
            r.0@.to_set() == used_meshes(self.objects()),
            forall|k: int| 0 <= k < r.0@.len() ==> #[trigger] owner_of(self.objects(), r.0@[k]) == r.1@[k],
            forall|k: int| 0 <= k < r.0@.len() ==> self.objects().contains_key(#[trigger] r.1@[k]),
    {
        let object_ids = id_keys(&self.object_data);
        let ghost objs = self.objects();
        let mut order: Vec<u32> = Vec::new();
        let mut owners: Vec<u32> = Vec::new();
        let mut a: usize = 0;
        while a < object_ids.len()
            invariant
                self.wf(),
                objs == self.objects(),
                object_ids@.to_set() == objs.dom(),
                object_ids@.no_duplicates(),
                a <= object_ids@.len(),
                order@.len() == owners@.len(),
                order@.no_duplicates(),
                forall|k: int| 0 <= k < order@.len() ==> objs.contains_key(#[trigger] owners@[k]) && objs[owners@[k]].contains(order@[k]),
                forall|k: int| 0 <= k < order@.len() ==> object_ids@.subrange(0, a as int).contains(#[trigger] owners@[k]),
                forall|o: u32, m: u32| object_ids@.subrange(0, a as int).contains(o) && #[trigger] objs[o].contains(m) ==> order@.contains(m),
            decreases object_ids@.len() - a,
        {
            let o = object_ids[a];
            assert(object_ids@.to_set().contains(o));
            let list = self.object_data.get(&o).unwrap();
            assert(list@ == objs[o]);
            let start = order.len();
            let mut b: usize = 0;
            while b < list.len()
                invariant
                    self.wf(),
                    objs == self.objects(),
                    object_ids@.to_set() == objs.dom(),
                    object_ids@.no_duplicates(),
                    a < object_ids@.len(),
                    o == object_ids@[a as int],
                    objs.contains_key(o),
                    list@ == objs[o],
                    b <= list@.len(),
                    start <= order@.len(),
                    order@.len() == start + b,
                    order@.len() == owners@.len(),
                    order@.no_duplicates(),
                    forall|j: int| 0 <= j < b ==> #[trigger] order@[start + j] == list@[j] && owners@[start + j] == o,
                    forall|k: int| 0 <= k < order@.len() ==> objs.contains_key(#[trigger] owners@[k]) && objs[owners@[k]].contains(order@[k]),
                    forall|k: int| 0 <= k < start ==> object_ids@.subrange(0, a as int).contains(#[trigger] owners@[k]),
                    forall|o2: u32, m: u32| object_ids@.subrange(0, a as int).contains(o2) && #[trigger] objs[o2].contains(m) ==> order@.contains(m),
                decreases list@.len() - b,
            {
                let m = list[b];
                proof {
                    assert(objs[o].contains(m)) by {
                        assert(objs[o][b as int] == m);
                    }
                    assert(!order@.contains(m)) by {
                        if order@.contains(m) {
                            let k = choose|k: int| 0 <= k < order@.len() && order@[k] == m;
                            if k >= start {
                                let j = k - start;
                                assert(order@[start + j] == list@[j]);
                                assert(objs[o].no_duplicates());
                                assert(list@[j] == list@[b as int]);
                            } else {
                                let o2 = owners@[k];
                                assert(object_ids@.subrange(0, a as int).contains(o2));
                                let i2 = choose|i2: int| 0 <= i2 < a && object_ids@.subrange(0, a as int)[i2] == o2;
                                assert(object_ids@[i2] == o2);
                                assert(o2 != o);
                                assert(objs[o2].contains(m));
                            }
                        }
                    }
                }
                let ghost order0 = order@;
                order.push(m);
                owners.push(o);
                proof {
                    assert forall|a1: int, b1: int|
                        0 <= a1 < order@.len() && 0 <= b1 < order@.len() && a1 != b1 implies order@[a1] != order@[b1] by {
                        if a1 < order0.len() && b1 < order0.len() {
                            assert(order0[a1] != order0[b1]);
                        } else if a1 < order0.len() {
                            assert(order0.contains(order0[a1]));
                        } else {
                            assert(order0.contains(order0[b1]));
                        }
                    }
                    assert forall|o2: u32, m2: u32| object_ids@.subrange(0, a as int).contains(o2) && #[trigger] objs[o2].contains(m2) implies order@.contains(m2) by {
                        assert(order0.contains(m2));
                        let k = choose|k: int| 0 <= k < order0.len() && order0[k] == m2;
                        assert(order@[k] == m2);
                    }
                }
                b += 1;
            }
            proof {
                assert(object_ids@.subrange(0, a + 1) == object_ids@.subrange(0, a as int).push(o));
                assert forall|k: int| 0 <= k < order@.len() implies object_ids@.subrange(0, a + 1).contains(#[trigger] owners@[k]) by {
                    if k < start {
                        let i2 = choose|i2: int| 0 <= i2 < a && object_ids@.subrange(0, a as int)[i2] == owners@[k];
                        assert(object_ids@.subrange(0, a + 1)[i2] == owners@[k]);
                    } else {
                        assert(owners@[start + (k - start)] == o);
                        assert(object_ids@.subrange(0, a + 1)[a as int] == o);
                    }
                }
                assert forall|o2: u32, m: u32| object_ids@.subrange(0, a + 1).contains(o2) && #[trigger] objs[o2].contains(m) implies order@.contains(m) by {
                    if o2 == o {
                        let j = choose|j: int| 0 <= j < list@.len() && list@[j] == m;
                        assert(order@[start + j] == m);
                    } else {
                        let i2 = choose|i2: int| 0 <= i2 < a + 1 && #[trigger] object_ids@.subrange(0, a + 1)[i2] == o2;
                        assert(i2 < a);
                        assert(object_ids@.subrange(0, a as int)[i2] == o2);
                    }
                }
            }
            a += 1;
        }
        proof {
            assert(object_ids@.subrange(0, object_ids@.len() as int) == object_ids@);
            assert(order@.to_set() =~= used_meshes(objs)) by {
                assert forall|m: u32| order@.to_set().contains(m) implies used_meshes(objs).contains(m) by {
                    let k = choose|k: int| 0 <= k < order@.len() && order@[k] == m;
                    assert(objs.contains_key(owners@[k]) && objs[owners@[k]].contains(m));
                }
                assert forall|m: u32| used_meshes(objs).contains(m) implies order@.to_set().contains(m) by {
                    let o2 = choose|o2: u32| objs.contains_key(o2) && objs[o2].contains(m);
                    assert(object_ids@.to_set().contains(o2));
                    assert(order@.contains(m));
                }
            }
            assert forall|k: int| 0 <= k < order@.len() implies #[trigger] owner_of(objs, order@[k]) == owners@[k] by {
                let m = order@[k];
                assert(objs.contains_key(owners@[k]) && objs[owners@[k]].contains(m));
                let w = owner_of(objs, m);
                assert(objs.contains_key(w) && objs[w].contains(m));
            }
        }
        (order, owners)
    }

    /// Drops the meshes no object uses.
    fn drop_unused_meshes(&mut self, order: &Vec<u32>)
        requires
            old(self).wf(),
            order@.to_set() == used_meshes(old(self).objects()),
        ensures
            final(self).wf(),
            final(self).meshes() == old(self).meshes().restrict(used_meshes(old(self).objects())),
            final(self).objects() == old(self).objects(),
            final(self).instance_lists() == old(self).instance_lists(),
            final(self).last_mesh() == old(self).last_mesh(),
            final(self).last_object() == old(self).last_object(),
    {
        let ghost used = used_meshes(old(self).objects());
        let mkeys = id_keys(&self.mesh_data);
        let mut i: usize = 0;
        let ghost objs = self.objects();
        while i < mkeys.len()
            invariant
                self.object_data == old(self).object_data,
                self.instances == old(self).instances,
                self.last_mesh_id == old(self).last_mesh_id,
                self.last_object_id == old(self).last_object_id,
                objs == old(self).objects(),
                used == used_meshes(objs),
                order@.to_set() == used,
                mkeys@.to_set() == old(self).meshes().dom(),
                mkeys@.no_duplicates(),
                i <= mkeys@.len(),
                self.meshes() == old(self).meshes().remove_keys(
                    mkeys@.subrange(0, i as int).to_set().difference(used),
                ),
            decreases mkeys@.len() - i,
        {
            let key = mkeys[i];
            let ghost done = mkeys@.subrange(0, i as int).to_set();
            proof {
                assert(mkeys@.subrange(0, i + 1) == mkeys@.subrange(0, i as int).push(key));
                mkeys@.subrange(0, i as int).lemma_push_to_set_commute(key);
            }
            if !vec_contains(order, key) {
                assert(!used.contains(key));
                self.mesh_data.remove(&key);
                assert(self.meshes() =~= old(self).meshes().remove_keys(
                    mkeys@.subrange(0, i + 1).to_set().difference(used),
                ));
            } else {
                assert(used.contains(key));
                assert(old(self).meshes().remove_keys(
                    mkeys@.subrange(0, i + 1).to_set().difference(used),
                ) =~= old(self).meshes().remove_keys(done.difference(used)));
            }
            i += 1;
        }
        proof {
            assert(mkeys@.subrange(0, mkeys@.len() as int) == mkeys@);
            assert(self.meshes() =~= old(self).meshes().restrict(used));
            assert(self.objects() == old(self).objects());
            assert forall|o: u32, j: int|
                #[trigger] self.objects().contains_key(o) && 0 <= j < self.objects()[o].len() implies self.mesh_data@.contains_key(
                    #[trigger] self.objects()[o][j],
                ) by {
                assert(old(self).objects().contains_key(o));
                assert(old(self).mesh_data@.contains_key(old(self).objects()[o][j]));
                assert(used.contains(self.objects()[o][j])) by {
                    assert(objs[o].contains(objs[o][j]));
                }
            }
        }
    }

    /// Rebuilds the buffer contents from the objects, their meshes and their
    /// instances, dropping the meshes no object uses.
    pub fn recreate_buffers(&mut self) -> (r: BufferContents<V, I>)
        requires
            old(self).wf(),
            old(self).instanced(),
        ensures
            final(self).wf(),
            layout_ok(r, old(self).meshes(), old(self).objects(), old(self).instance_lists()),
            final(self).meshes() == old(self).meshes().restrict(used_meshes(old(self).objects())),
            final(self).objects() == old(self).objects(),
            final(self).instance_lists() == old(self).instance_lists(),
            final(self).last_mesh() == old(self).last_mesh(),
            final(self).last_object() == old(self).last_object(),
    {
        let (order, owners) = self.mesh_order();
        self.drop_unused_meshes(&order);
        let ghost meshes = old(self).meshes();
        let ghost objs = old(self).objects();
        let ghost lists = old(self).instance_lists();
        let mut vertices: Vec<V> = Vec::new();
        let mut indices: Vec<u32> = Vec::new();
        let mut instances: Vec<I> = Vec::new();
        let mut commands: Vec<DrawCommand> = Vec::new();
        let mut k: usize = 0;
        while k < order.len()
            invariant
                self.wf(),
                self.meshes() == meshes.restrict(used_meshes(objs)),
                self.objects() == objs,
                self.instance_lists() == lists,
                forall|o: u32| #[trigger] objs.contains_key(o) ==> lists.contains_key(o),
                order@.len() == owners@.len(),
                order@.to_set() == used_meshes(objs),
                forall|j: int| 0 <= j < order@.len() ==> #[trigger] owner_of(objs, order@[j]) == owners@[j],
                forall|j: int| 0 <= j < order@.len() ==> objs.contains_key(#[trigger] owners@[j]),
                k <= order@.len(),
                vertices@ == mesh_vertices(meshes, order@.take(k as int)),
                indices@ == mesh_indices(meshes, order@.take(k as int)),
                instances@ == mesh_instances(objs, lists, order@.take(k as int)),
                commands@.len() == k,
                forall|j: int| 0 <= j < k ==> #[trigger] commands@[j] == draw_command(meshes, objs, lists, order@, j),
            decreases order@.len() - k,
        {
            let m = order[k];
            let o = owners[k];
            proof {
                assert(order@.to_set().contains(m));
                assert(self.meshes().contains_key(m));
                assert(self.meshes()[m] == meshes[m]);
                assert(lists.contains_key(o));
            }
            let mesh = self.mesh_data.get(&m).unwrap();
            let list = self.instances.get(&o).unwrap();
            assert(list@ == lists[o]);
            let command = DrawCommand {
                index_count: mesh.indices.len() as u32,
                instance_count: list.len() as u32,
                first_index: indices.len() as u32,
                vertex_offset: 0,
                first_instance: instances.len() as u32,
            };
            proof {
                assert(order@.take(k as int) == order@.take(k as int).take(k as int));
                assert(command == draw_command(meshes, objs, lists, order@, k as int));
            }
            let ghost v0 = vertices@;
            let mut t: usize = 0;
            while t < mesh.vertices.len()
                invariant
                    t <= mesh.vertices@.len(),
                    vertices@ == v0 + mesh.vertices@.take(t as int),
                decreases mesh.vertices@.len() - t,
            {
                vertices.push(mesh.vertices[t]);
                assert(mesh.vertices@.take(t + 1) == mesh.vertices@.take(t as int).push(mesh.vertices@[t as int]));
                t += 1;
            }
            let ghost i0 = indices@;
            let mut t: usize = 0;
            while t < mesh.indices.len()
                invariant
                    t <= mesh.indices@.len(),
                    indices@ == i0 + mesh.indices@.take(t as int),
                decreases mesh.indices@.len() - t,
            {
                indices.push(mesh.indices[t]);
                assert(mesh.indices@.take(t + 1) == mesh.indices@.take(t as int).push(mesh.indices@[t as int]));
                t += 1;
            }
            let ghost n0 = instances@;
            let mut t: usize = 0;
            while t < list.len()
                invariant
                    t <= list@.len(),
                    instances@ == n0 + list@.take(t as int).map_values(|g: GPUInstance<I>| g.instance),
                decreases list@.len() - t,
            {
                instances.push(list[t].instance);
                assert(list@.take(t + 1) == list@.take(t as int).push(list@[t as int]));
                assert(list@.take(t + 1).map_values(|g: GPUInstance<I>| g.instance) =~= list@.take(t as int).map_values(|g: GPUInstance<I>| g.instance).push(list@[t as int].instance));
                t += 1;
            }
            commands.push(command);
            proof {
                let pre = order@.take(k as int);
                assert(order@.take(k + 1) == pre.push(m));
                assert(mesh.vertices@.take(mesh.vertices@.len() as int) == mesh.vertices@);
                assert(mesh.indices@.take(mesh.indices@.len() as int) == mesh.indices@);
                assert(list@.take(list@.len() as int) == list@);
                pre.lemma_push_map_commute(|m: u32| meshes[m].vertices@, m);
                pre.map_values(|m: u32| meshes[m].vertices@).lemma_flatten_push(meshes[m].vertices@);
                pre.lemma_push_map_commute(|m: u32| meshes[m].indices@, m);
                pre.map_values(|m: u32| meshes[m].indices@).lemma_flatten_push(meshes[m].indices@);
                pre.lemma_push_map_commute(|m: u32| instance_data(lists, owner_of(objs, m)), m);
                pre.map_values(|m: u32| instance_data(lists, owner_of(objs, m))).lemma_flatten_push(instance_data(lists, owner_of(objs, m)));
                assert(vertices@ == mesh_vertices(meshes, order@.take(k + 1)));
                assert(indices@ == mesh_indices(meshes, order@.take(k + 1)));
                assert(instances@ == mesh_instances(objs, lists, order@.take(k + 1)));
            }
            k += 1;
        }
        assert(order@.take(order@.len() as int) == order@);
        BufferContents { order, vertices, indices, instances, commands }
    }

    /// Adds an instance of an object and rebuilds the buffers.
    pub fn add_object_instance(&mut self, instance: I, instance_id: GameObjectID, object_id: ObjectDataID) -> (r: BufferContents<V, I>)
        requires
            old(self).wf(),
            forall|o: u32| #[trigger] old(self).objects().contains_key(o) && o != object_id.0 ==> old(self).instance_lists().contains_key(o),
        ensures
            final(self).wf(),
            final(self).instance_lists() == with_instance(
                old(self).instance_lists(),
                object_id.0,
                GPUInstance { instance_id, instance },
            ),
            layout_ok(r, old(self).meshes(), old(self).objects(), final(self).instance_lists()),
            final(self).meshes() == old(self).meshes().restrict(used_meshes(old(self).objects())),
            final(self).objects() == old(self).objects(),
            final(self).last_mesh() == old(self).last_mesh(),
            final(self).last_object() == old(self).last_object(),
    {
        let mut list = match self.instances.remove(&object_id.0) {
            Some(l) => l,
            None => Vec::new(),
        };
        list.push(GPUInstance { instance_id, instance });
        self.instances.insert(object_id.0, list);
        assert(self.instance_lists() =~= with_instance(
            old(self).instance_lists(),
            object_id.0,
            GPUInstance { instance_id, instance },
        ));
        assert(self.objects() == old(self).objects());
        assert(self.meshes() == old(self).meshes());
        assert(self.instanced());
        self.recreate_buffers()
    }

    /// Stores an object made of `meshes`, adds one instance of it and
    /// rebuilds the buffers; returns the new object's id.
    pub fn instantiate_object(&mut self, meshes: Vec<MeshData<V>>, instance: I, id: GameObjectID) -> (r: (ObjectDataID, BufferContents<V, I>))
        requires
            old(self).wf(),
            old(self).instanced(),
            old(self).last_mesh() + meshes@.len() <= u32::MAX,
            old(self).last_object() < u32::MAX,
        ensures
            final(self).wf(),
            final(self).instanced(),
            r.0 == ObjectDataID((old(self).last_object() + 1) as u32),
            final(self).objects() == old(self).objects().insert(
                r.0.0,
                Seq::new(meshes@.len(), |i: int| (old(self).last_mesh() + 1 + i) as u32),
            ),
            final(self).instance_lists() == with_instance(
                old(self).instance_lists(),
                r.0.0,
                GPUInstance { instance_id: id, instance },
            ),
            forall|i: int| 0 <= i < meshes@.len() ==> #[trigger] final(self).meshes()[(old(self).last_mesh() + 1 + i) as u32] == meshes@[i],
            final(self).last_mesh() == old(self).last_mesh() + meshes@.len(),
            final(self).last_object() == r.0.0,
            layout_ok(r.1, final(self).meshes(), final(self).objects(), final(self).instance_lists()),
    {
        let ghost old_lists = self.instance_lists();
        let object_id = self.create_object_data(meshes);
        assert(!old(self).objects().contains_key(object_id.0));
        let ghost mid_meshes = self.meshes();
        let ghost mid_objs = self.objects();
        let buffers = self.add_object_instance(instance, id, object_id);
        proof {
            assert forall|m: u32| #[trigger] used_meshes(mid_objs).contains(m) implies mid_meshes.contains_key(m) by {
                let o = choose|o: u32| mid_objs.contains_key(o) && mid_objs[o].contains(m);
                let j = choose|j: int| 0 <= j < mid_objs[o].len() && mid_objs[o][j] == m;
            }
            assert(self.meshes() =~= mid_meshes.restrict(used_meshes(mid_objs)));
            assert forall|i: int| 0 <= i < meshes@.len() implies #[trigger] self.meshes()[(old(self).last_mesh() + 1 + i) as u32] == meshes@[i] by {
                let m = (old(self).last_mesh() + 1 + i) as u32;
                assert(mid_objs[object_id.0][i] == m);
                assert(mid_objs.contains_key(object_id.0) && mid_objs[object_id.0].contains(m));
                assert(used_meshes(mid_objs).contains(m));
            }
            assert forall|j: int| 0 <= j < buffers.order@.len() implies self.meshes()[buffers.order@[j]] == mid_meshes[buffers.order@[j]] by {
                assert(buffers.order@.to_set().contains(buffers.order@[j]));
            }
            assert(mesh_vertices(self.meshes(), buffers.order@) == mesh_vertices(mid_meshes, buffers.order@)) by {
                assert(buffers.order@.map_values(|m: u32| self.meshes()[m].vertices@) =~= buffers.order@.map_values(|m: u32| mid_meshes[m].vertices@));
            }
            assert(mesh_indices(self.meshes(), buffers.order@) == mesh_indices(mid_meshes, buffers.order@)) by {
                assert(buffers.order@.map_values(|m: u32| self.meshes()[m].indices@) =~= buffers.order@.map_values(|m: u32| mid_meshes[m].indices@));
            }
            assert forall|k: int| 0 <= k < buffers.commands@.len() implies #[trigger] buffers.commands@[k] == draw_command(self.meshes(), self.objects(), self.instance_lists(), buffers.order@, k) by {
                let pre = buffers.order@.take(k);
                assert(buffers.order@.to_set().contains(buffers.order@[k]));
                assert(pre.map_values(|m: u32| self.meshes()[m].indices@) =~= pre.map_values(|m: u32| mid_meshes[m].indices@)) by {
                    assert forall|j: int| 0 <= j < pre.len() implies self.meshes()[pre[j]] == mid_meshes[pre[j]] by {
                        assert(buffers.order@[j] == pre[j]);
                        assert(buffers.order@.to_set().contains(buffers.order@[j]));
                    }
                }
            }
        }
        (object_id, buffers)
    }

    /// Removes every instance with id `instance_id` from every object and
    /// rebuilds the buffers.
    pub fn remove_game_object(&mut self, instance_id: GameObjectID) -> (r: BufferContents<V, I>)
        requires
            old(self).wf(),
            old(self).instanced(),
        ensures
            final(self).wf(),
            final(self).instance_lists() == old(self).instance_lists().map_values(
                |s: Seq<GPUInstance<I>>| without_id(s, instance_id),
            ),
            layout_ok(r, old(self).meshes(), old(self).objects(), final(self).instance_lists()),
            final(self).meshes() == old(self).meshes().restrict(used_meshes(old(self).objects())),
            final(self).objects() == old(self).objects(),
            final(self).last_mesh() == old(self).last_mesh(),
            final(self).last_object() == old(self).last_object(),
    {
        let ghost lists = old(self).instance_lists();
        let ghost target = lists.map_values(|s: Seq<GPUInstance<I>>| without_id(s, instance_id));
        let keys = id_keys(&self.instances);
        let mut i: usize = 0;
        while i < keys.len()
            invariant
                self.object_data == old(self).object_data,
                self.mesh_data == old(self).mesh_data,
                self.last_mesh_id == old(self).last_mesh_id,
                self.last_object_id == old(self).last_object_id,
                keys@.to_set() == lists.dom(),
                keys@.no_duplicates(),
                i <= keys@.len(),
                lists == old(self).instance_lists(),
                target == lists.map_values(|s: Seq<GPUInstance<I>>| without_id(s, instance_id)),
                self.instance_lists().dom() == lists.dom(),
                forall|k: u32| #[trigger] self.instance_lists().contains_key(k) ==> self.instance_lists()[k] == (
                    if keys@.subrange(0, i as int).contains(k) { target[k] } else { lists[k] }),
            decreases keys@.len() - i,
        {
            let key = keys[i];
            proof {
                assert(keys@.to_set().contains(key));
                assert(!keys@.subrange(0, i as int).contains(key)) by {
                    if keys@.subrange(0, i as int).contains(key) {
                        let j = choose|j: int| 0 <= j < i && keys@.subrange(0, i as int)[j] == key;
                        assert(keys@[j] == keys@[i as int]);
                    }
                }
            }
            let ghost cur = self.instance_lists();
            assert(cur.contains_key(key) && cur[key] == lists[key]);
            assert(self.instances@.contains_key(key));
            let list = self.instances.remove(&key).unwrap();
            assert(list@ == lists[key]);
            assert(lists.contains_key(key));
            assert(target[key] == without_id(lists[key], instance_id)) by {
                assert(target.contains_key(key));
            }
            let mut kept: Vec<GPUInstance<I>> = Vec::new();
            let mut t: usize = 0;
            while t < list.len()
                invariant
                    t <= list@.len(),
                    kept@ == without_id(list@.take(t as int), instance_id),
                decreases list@.len() - t,
            {
                let g = list[t];
                proof {
                    assert(list@.take(t + 1) == list@.take(t as int).push(g));
                    list@.take(t as int).lemma_filter_push(g, |g: GPUInstance<I>| g.instance_id != instance_id);
                }
                if g.instance_id != instance_id {
                    kept.push(g);
                }
                t += 1;
            }
            assert(list@.take(list@.len() as int) == list@);
            self.instances.insert(key, kept);
            proof {
                assert(keys@.subrange(0, i + 1) == keys@.subrange(0, i as int).push(key));
                assert(self.instance_lists().dom() =~= lists.dom());
                assert forall|k: u32| #[trigger] self.instance_lists().contains_key(k) implies self.instance_lists()[k] == (
                    if keys@.subrange(0, i + 1).contains(k) { target[k] } else { lists[k] }) by {
                    if k == key {
                        assert(keys@.subrange(0, i + 1)[i as int] == key);
                    } else {
                        if keys@.subrange(0, i + 1).contains(k) {
                            let j = choose|j: int| 0 <= j < i + 1 && #[trigger] keys@.subrange(0, i + 1)[j] == k;
                            assert(keys@.subrange(0, i as int)[j] == k);
                        }
                        if keys@.subrange(0, i as int).contains(k) {
                            let j = choose|j: int| 0 <= j < i && keys@.subrange(0, i as int)[j] == k;
                            assert(keys@.subrange(0, i + 1)[j] == k);
                        }
                    }
                }
            }
            i += 1;
        }
        proof {
            assert(keys@.subrange(0, keys@.len() as int) == keys@);
            assert forall|k: u32| #[trigger] self.instance_lists().contains_key(k) implies self.instance_lists()[k] == target[k] by {
                assert(keys@.to_set().contains(k));
            }
            assert(self.instance_lists() =~= target);
            assert(self.objects() == old(self).objects());
            assert(self.meshes() == old(self).meshes());
        }
        self.recreate_buffers()
    }

    /// Replaces the data of the first instance with id `instance_id` of an
    /// object and rebuilds the buffers.
    pub fn update_object_instance(&mut self, object_id: ObjectDataID, instance_id: GameObjectID, instance: I) -> (r: BufferContents<V, I>)
        requires
            old(self).wf(),
            old(self).instanced(),
            old(self).instance_lists().contains_key(object_id.0),
            exists|j: int| 0 <= j < old(self).instance_lists()[object_id.0].len() && (#[trigger] old(self).instance_lists()[object_id.0][j]).instance_id == instance_id,
        ensures
            final(self).wf(),
            final(self).instance_lists() == old(self).instance_lists().insert(
                object_id.0,
                old(self).instance_lists()[object_id.0].update(
                    first_with_id(old(self).instance_lists()[object_id.0], instance_id),
                    GPUInstance { instance_id, instance },
                ),
            ),
            layout_ok(r, old(self).meshes(), old(self).objects(), final(self).instance_lists()),
            final(self).meshes() == old(self).meshes().restrict(used_meshes(old(self).objects())),
            final(self).objects() == old(self).objects(),
            final(self).last_mesh() == old(self).last_mesh(),
            final(self).last_object() == old(self).last_object(),
    {
        let ghost s0 = old(self).instance_lists()[object_id.0];
        let mut list = self.instances.remove(&object_id.0).unwrap();
        let mut ind: usize = 0;
        while ind < list.len()
            invariant
                list@ == s0,
                ind <= s0.len(),
                forall|j: int| 0 <= j < ind ==> s0[j].instance_id != instance_id,
                exists|j: int| 0 <= j < s0.len() && (#[trigger] s0[j]).instance_id == instance_id,
            ensures
                ind < s0.len(),
                s0[ind as int].instance_id == instance_id,
                forall|j: int| 0 <= j < ind ==> s0[j].instance_id != instance_id,
            decreases s0.len() - ind,
        {
            if list[ind].instance_id == instance_id {
                break;
            }
            ind += 1;
            if ind == list.len() {
                proof {
                    let j = choose|j: int| 0 <= j < s0.len() && (#[trigger] s0[j]).instance_id == instance_id;
                    assert(false);
                }
            }
        }
        proof {
            let f = first_with_id(s0, instance_id);
            assert(0 <= f < s0.len() && s0[f].instance_id == instance_id && forall|j2: int| 0 <= j2 < f ==> s0[j2].instance_id != instance_id);
            assert(f == ind);
        }
        list.set(ind, GPUInstance { instance_id, instance });
        self.instances.insert(object_id.0, list);
        proof {
            assert(self.instance_lists() =~= old(self).instance_lists().insert(
                object_id.0,
                s0.update(ind as int, GPUInstance { instance_id, instance }),
            ));
            assert(self.objects() == old(self).objects());
            assert(self.meshes() == old(self).meshes());
        }
        self.recreate_buffers()
    }

    /// Stores the meshes of an object under new mesh ids, in order, and the
    /// object under a new object id.
    pub fn create_object_data(&mut self, meshes: Vec<MeshData<V>>) -> (r: ObjectDataID)
        requires
            old(self).wf(),
            old(self).last_mesh() + meshes@.len() <= u32::MAX,
            old(self).last_object() < u32::MAX,
        ensures
            final(self).wf(),
            r == ObjectDataID((old(self).last_object() + 1) as u32),
            final(self).last_object() == r.0,
            final(self).last_mesh() == old(self).last_mesh() + meshes@.len(),
            final(self).objects() == old(self).objects().insert(
                r.0,
                Seq::new(meshes@.len(), |i: int| (old(self).last_mesh() + 1 + i) as u32),
            ),
            forall|i: int| 0 <= i < meshes@.len() ==> #[trigger] final(self).meshes()[(old(self).last_mesh() + 1 + i) as u32] == meshes@[i],
            final(self).meshes().dom() == old(self).meshes().dom() + Set::new(
                |m: u32| old(self).last_mesh() < m <= old(self).last_mesh() + meshes@.len(),
            ),
            forall|m: u32| #[trigger] old(self).meshes().contains_key(m) ==> final(self).meshes()[m] == old(self).meshes()[m],
            final(self).instance_lists() == old(self).instance_lists(),
    {
        let ghost first = old(self).last_mesh() + 1;
        let ghost input = meshes@;
        let mut meshes = meshes;
        let mut ids: Vec<u32> = Vec::new();
        while meshes.len() > 0
            invariant
                self.wf(),
                self.objects() == old(self).objects(),
                self.instance_lists() == old(self).instance_lists(),
                self.last_object() == old(self).last_object(),
                first == old(self).last_mesh() + 1,
                ids@.len() + meshes@.len() == input.len(),
                meshes@ == input.subrange(ids@.len() as int, input.len() as int),
                self.last_mesh() == old(self).last_mesh() + ids@.len(),
                old(self).last_mesh() + input.len() <= u32::MAX,
                forall|i: int| 0 <= i < ids@.len() ==> #[trigger] ids@[i] == first + i,
                forall|i: int| 0 <= i < ids@.len() ==> #[trigger] self.meshes()[(first + i) as u32] == input[i],
                self.meshes().dom() == old(self).meshes().dom() + Set::new(
                    |m: u32| old(self).last_mesh() < m <= self.last_mesh(),
                ),
                forall|m: u32| #[trigger] old(self).meshes().contains_key(m) ==> self.meshes()[m] == old(self).meshes()[m],
            decreases meshes@.len(),
        {
            let m = meshes.remove(0);
            let ghost before = self.meshes();
            let id = self.add_mesh(m);
            ids.push(id);
            proof {
                assert(meshes@ =~= input.subrange(ids@.len() as int, input.len() as int));
                assert(self.meshes().dom() =~= old(self).meshes().dom() + Set::new(
                    |m: u32| old(self).last_mesh() < m <= self.last_mesh(),
                ));
                assert forall|i: int| 0 <= i < ids@.len() implies #[trigger] self.meshes()[(first + i) as u32] == input[i] by {
                    if i < ids@.len() - 1 {
                        assert(before.contains_key((first + i) as u32));
                    }
                }
            }
        }
        let oid = self.next_object_id();
        let ghost obj_before = self.objects();
        self.object_data.insert(oid, ids);
        proof {
            assert(ids@ =~= Seq::new(input.len(), |i: int| (old(self).last_mesh() + 1 + i) as u32));
            assert(self.objects() =~= obj_before.insert(oid, ids@));
            assert(!obj_before.contains_key(oid));
            assert forall|o: u32, j: int|
                #[trigger] self.objects().contains_key(o) && 0 <= j < self.objects()[o].len() implies self.mesh_data@.contains_key(
                    #[trigger] self.objects()[o][j],
                ) by {
                if o == oid {
                    assert(self.objects()[o][j] == first + j);
                } else {
                    assert(obj_before.contains_key(o));
                    assert(old(self).mesh_data@.contains_key(obj_before[o][j]));
                }
            }
            assert forall|o1: u32, o2: u32, m: u32|
                #[trigger] self.objects().contains_key(o1) && #[trigger] self.objects().contains_key(o2) && o1 != o2
                    && #[trigger] self.objects()[o1].contains(m) implies !self.objects()[o2].contains(m) by {
                if o1 == oid {
                    let j = choose|j: int| 0 <= j < ids@.len() && ids@[j] == m;
                    if self.objects()[o2].contains(m) {
                        let j2 = choose|j2: int| 0 <= j2 < obj_before[o2].len() && obj_before[o2][j2] == m;
                        assert(old(self).mesh_data@.contains_key(obj_before[o2][j2]));
                    }
                } else if o2 == oid {
                    let j2 = choose|j2: int| 0 <= j2 < obj_before[o1].len() && obj_before[o1][j2] == m;
                    assert(old(self).mesh_data@.contains_key(obj_before[o1][j2]));
                    if self.objects()[o2].contains(m) {
                        let j = choose|j: int| 0 <= j < ids@.len() && ids@[j] == m;
                    }
                }
            }
            assert(self.objects()[oid].no_duplicates());
        }
        ObjectDataID(oid)
    }
}

/// Flattening a longer prefix never gives a shorter sequence, and each step
/// adds the next part.
proof fn lemma_flatten_prefix<A>(parts: Seq<Seq<A>>, j: int, n: int)
    requires
        0 <= j <= n <= parts.len(),
    ensures
        parts.take(j).flatten().len() <= parts.take(n).flatten().len(),
        j < n ==> parts.take(j + 1).flatten().len() == parts.take(j).flatten().len() + parts[j].len(),
    decreases n - j,
{
    if j < n {
        assert(parts.take(j + 1) == parts.take(j).push(parts[j]));
        parts.take(j).lemma_flatten_push(parts[j]);
        lemma_flatten_prefix(parts, j + 1, n);
    }
}

/// Consecutive draw commands tile the index and instance buffers: each
/// starts where the previous one ends, and the last one ends at the end of
/// the buffer (when the buffers are small enough for `u32` offsets).
pub proof fn lemma_draws_tile_buffers<V, I>(
    r: BufferContents<V, I>,
    meshes: Map<u32, MeshData<V>>,
    objects: Map<u32, Seq<u32>>,
    lists: Map<u32, Seq<GPUInstance<I>>>,
    k: int,
)
    requires
        layout_ok(r, meshes, objects, lists),
        0 <= k < r.commands@.len(),
        r.indices@.len() <= u32::MAX,
        r.instances@.len() <= u32::MAX,
    ensures
        r.commands@[k].first_index + r.commands@[k].index_count == (if k + 1 < r.commands@.len() {
            r.commands@[k + 1].first_index as int
        } else {
            r.indices@.len() as int
        }),
        r.commands@[k].first_instance + r.commands@[k].instance_count == (if k + 1 < r.commands@.len() {
            r.commands@[k + 1].first_instance as int
        } else {
            r.instances@.len() as int
        }),
{
    let order = r.order@;
    let n = order.len() as int;
    let ip = order.map_values(|m: u32| meshes[m].indices@);
    let np = order.map_values(|m: u32| instance_data(lists, owner_of(objects, m)));
    assert forall|j: int| 0 <= j <= n implies order.take(j).map_values(|m: u32| meshes[m].indices@) == #[trigger] ip.take(j) by {
        assert(order.take(j).map_values(|m: u32| meshes[m].indices@) =~= ip.take(j));
    }
    assert forall|j: int| 0 <= j <= n implies order.take(j).map_values(|m: u32| instance_data(lists, owner_of(objects, m))) == #[trigger] np.take(j) by {
        assert(order.take(j).map_values(|m: u32| instance_data(lists, owner_of(objects, m))) =~= np.take(j));
    }
    assert(order.take(n) == order);
    assert(ip.take(n) == ip);
    assert(np.take(n) == np);
    lemma_flatten_prefix(ip, k + 1, n);
    lemma_flatten_prefix(ip, k, n);
    lemma_flatten_prefix(np, k + 1, n);
    lemma_flatten_prefix(np, k, n);
    let c = r.commands@[k];
    assert(c == draw_command(meshes, objects, lists, order, k));
    if k + 1 < n {
        let c2 = r.commands@[k + 1];
        assert(c2 == draw_command(meshes, objects, lists, order, k + 1));
    }
}

} // verus!
