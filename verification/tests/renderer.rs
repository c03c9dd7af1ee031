use voxel_engine::game_object::GameObjectID;
use voxel_engine::renderer::{BufferContents, DrawCommand, MeshData, ObjectDataID, RenderRegistry};

fn mesh(first_vertex: u32, n_vertices: u32, indices: Vec<u32>) -> MeshData<u32> {
    let vertices: Vec<u32> = (first_vertex..first_vertex + n_vertices).collect();
    MeshData::new(vertices, indices, 0)
}

/// Checks the buffers against the meshes they were built from, mesh by mesh
/// in the order they were laid out. `meshes` gives, by mesh id, its vertices,
/// its indices and the instances of its object.
fn check_layout(b: &BufferContents<u32, u32>, meshes: &[(u32, Vec<u32>, Vec<u32>, Vec<u32>)]) {
    assert_eq!(b.order.len(), meshes.len());
    assert_eq!(b.commands.len(), meshes.len());
    let mut vertices = Vec::new();
    let mut indices = Vec::new();
    let mut instances = Vec::new();
    for (k, id) in b.order.iter().enumerate() {
        let (_, v, i, inst) = meshes.iter().find(|m| m.0 == *id).expect("laid out mesh is known");
        assert_eq!(
            b.commands[k],
            DrawCommand {
                index_count: i.len() as u32,
                instance_count: inst.len() as u32,
                first_index: indices.len() as u32,
                vertex_offset: 0,
                first_instance: instances.len() as u32,
            }
        );
        vertices.extend_from_slice(v);
        indices.extend_from_slice(i);
        instances.extend_from_slice(inst);
    }
    assert_eq!(b.vertices, vertices);
    assert_eq!(b.indices, indices);
    assert_eq!(b.instances, instances);
}

#[test]
fn instantiate_lays_out_meshes_and_instance() {
    let mut reg: RenderRegistry<u32, u32> = RenderRegistry::new();
    let (id, b) = reg.instantiate_object(
        vec![mesh(0, 3, vec![0, 1, 2]), mesh(10, 4, vec![0, 1, 2, 2, 3, 0])],
        77,
        GameObjectID(5),
    );
    assert_eq!(id, ObjectDataID(1025));
    check_layout(
        &b,
        &[
            (1025, vec![0, 1, 2], vec![0, 1, 2], vec![77]),
            (1026, vec![10, 11, 12, 13], vec![0, 1, 2, 2, 3, 0], vec![77]),
        ],
    );
}

#[test]
fn second_object_gets_next_ids_and_its_own_instances() {
    let mut reg: RenderRegistry<u32, u32> = RenderRegistry::new();
    let (a, _) = reg.instantiate_object(vec![mesh(0, 3, vec![0, 1, 2])], 1, GameObjectID(1));
    let (b_id, _) = reg.instantiate_object(vec![mesh(5, 3, vec![2, 1, 0])], 2, GameObjectID(2));
    assert_eq!(a, ObjectDataID(1025));
    assert_eq!(b_id, ObjectDataID(1026));
    let b = reg.add_object_instance(3, GameObjectID(3), a);
    check_layout(
        &b,
        &[
            (1025, vec![0, 1, 2], vec![0, 1, 2], vec![1, 3]),
            (1026, vec![5, 6, 7], vec![2, 1, 0], vec![2]),
        ],
    );
}

#[test]
fn update_replaces_first_matching_instance() {
    let mut reg: RenderRegistry<u32, u32> = RenderRegistry::new();
    let (a, _) = reg.instantiate_object(vec![mesh(0, 3, vec![0, 1, 2])], 10, GameObjectID(1));
    let _ = reg.add_object_instance(20, GameObjectID(2), a);
    let _ = reg.add_object_instance(30, GameObjectID(2), a);
    let b = reg.update_object_instance(a, GameObjectID(2), 99);
    check_layout(&b, &[(1025, vec![0, 1, 2], vec![0, 1, 2], vec![10, 99, 30])]);
}

#[test]
fn remove_game_object_drops_all_its_instances() {
    let mut reg: RenderRegistry<u32, u32> = RenderRegistry::new();
    let (a, _) = reg.instantiate_object(vec![mesh(0, 3, vec![0, 1, 2])], 10, GameObjectID(1));
    let (c, _) = reg.instantiate_object(vec![mesh(3, 3, vec![0, 2, 1])], 40, GameObjectID(2));
    let _ = reg.add_object_instance(20, GameObjectID(2), a);
    let _ = reg.add_object_instance(30, GameObjectID(1), c);
    let b = reg.remove_game_object(GameObjectID(2));
    check_layout(
        &b,
        &[
            (1025, vec![0, 1, 2], vec![0, 1, 2], vec![10]),
            (1026, vec![3, 4, 5], vec![0, 2, 1], vec![30]),
        ],
    );
    // an id that no instance has changes nothing
    let again = reg.remove_game_object(GameObjectID(9));
    check_layout(
        &again,
        &[
            (1025, vec![0, 1, 2], vec![0, 1, 2], vec![10]),
            (1026, vec![3, 4, 5], vec![0, 2, 1], vec![30]),
        ],
    );
}

#[test]
fn object_data_without_instances_is_drawn_with_none() {
    let mut reg: RenderRegistry<u32, u32> = RenderRegistry::new();
    let id = reg.create_object_data(vec![mesh(0, 2, vec![0, 1, 1])]);
    assert_eq!(id, ObjectDataID(1025));
    let b = reg.add_object_instance(5, GameObjectID(0), id);
    check_layout(&b, &[(1025, vec![0, 1], vec![0, 1, 1], vec![5])]);
    let b = reg.remove_game_object(GameObjectID(0));
    check_layout(&b, &[(1025, vec![0, 1], vec![0, 1, 1], vec![])]);
}

#[test]
fn mesh_data_new_keeps_parts() {
    let m = MeshData::new(vec![1u32, 2], vec![0, 1], 3);
    assert_eq!(m.vertices, vec![1, 2]);
    assert_eq!(m.indices, vec![0, 1]);
    assert_eq!(m.material_id, 3);
}

#[test]
fn ids_are_handed_out_in_order() {
    let mut reg: RenderRegistry<u32, u32> = RenderRegistry::new();
    assert_eq!(reg.last_mesh_id(), 1024);
    assert_eq!(reg.last_object_id(), 1024);
    let (a, _) = reg.instantiate_object(vec![mesh(0, 3, vec![0, 1, 2]), mesh(3, 3, vec![0, 1, 2])], 1, GameObjectID(1));
    assert_eq!(a, ObjectDataID(1025));
    assert_eq!(reg.last_mesh_id(), 1026);
    assert_eq!(reg.last_object_id(), 1025);
}

#[test]
fn instance_queries() {
    let mut reg: RenderRegistry<u32, u32> = RenderRegistry::new();
    assert!(reg.instanced_besides(None));
    let a = reg.create_object_data(vec![mesh(0, 3, vec![0, 1, 2])]);
    assert!(!reg.instanced_besides(None));
    assert!(reg.instanced_besides(Some(a)));
    assert!(!reg.has_instance(a, GameObjectID(4)));
    let _ = reg.add_object_instance(9, GameObjectID(4), a);
    assert!(reg.instanced_besides(None));
    assert!(reg.has_instance(a, GameObjectID(4)));
    assert!(!reg.has_instance(a, GameObjectID(5)));
    assert!(!reg.has_instance(ObjectDataID(7), GameObjectID(4)));
}
