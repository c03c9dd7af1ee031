use voxel_engine::chunk::Material;
use voxel_engine::chunk_loader::CHUNK_SIZE;
use voxel_engine::marching_cubes::{
    case_index, case_table_from_bytes, edge_hashmap_data, get_mesh, edge_idx_to_point_hash, edge_vertex_indices, Face, Mesh,
    Triangle, Vec3, VoxelRef, Voxels, CHUNK_WIDTH,
};

#[test]
fn point_hash_adds_world_cell() {
    let h = edge_idx_to_point_hash(5, [1, -2, 3], [4, 5, 6]);
    // edge 5 starts at corner (1, 0, 1) and runs along y
    assert_eq!(h, [1 + 16 + 4, -32 + 5, 1 + 48 + 6, 1]);
    assert_eq!(edge_idx_to_point_hash(0, [0, 0, 0], [0, 0, 0]), [0, 0, 0, 0]);
}

#[test]
fn shared_edges_get_the_same_key() {
    // edge 2 (top of the front face along x) of cell (3, 4, 5) is edge 0 of
    // the cell above it
    assert_eq!(
        edge_idx_to_point_hash(2, [0, 0, 0], [3, 4, 5]),
        edge_idx_to_point_hash(0, [0, 0, 0], [3, 5, 5])
    );
    // the same holds across a chunk border
    assert_eq!(
        edge_idx_to_point_hash(1, [0, 0, 0], [15, 0, 0]),
        edge_idx_to_point_hash(3, [1, 0, 0], [0, 0, 0])
    );
    // different edges of one cell never share a key
    for a in 0..12i8 {
        for b in 0..12i8 {
            if a != b {
                assert_ne!(
                    edge_idx_to_point_hash(a, [0, 0, 0], [2, 2, 2]),
                    edge_idx_to_point_hash(b, [0, 0, 0], [2, 2, 2])
                );
            }
        }
    }
}

#[test]
fn edge_tables_agree() {
    for e in 0..12usize {
        let [c1, c2] = edge_vertex_indices(e);
        let k = edge_hashmap_data(e);
        let p1 = [(c1 & 1) as isize, ((c1 >> 1) & 1) as isize, ((c1 >> 2) & 1) as isize];
        let p2 = [(c2 & 1) as isize, ((c2 >> 1) & 1) as isize, ((c2 >> 2) & 1) as isize];
        let lo = [p1[0].min(p2[0]), p1[1].min(p2[1]), p1[2].min(p2[2])];
        assert_eq!([lo[0], lo[1], lo[2]], [k[0], k[1], k[2]]);
        let axis = (0..3).find(|&a| p1[a] != p2[a]).unwrap() as isize;
        assert_eq!(axis, k[3]);
    }
}

#[test]
fn case_index_sets_inside_corners() {
    assert_eq!(case_index([false; 8]), 0);
    assert_eq!(case_index([true; 8]), 255);
    let mut inside = [false; 8];
    inside[0] = true;
    inside[5] = true;
    assert_eq!(case_index(inside), 1 + 32);
    inside[7] = true;
    assert_eq!(case_index(inside), 1 + 32 + 128);
}

#[test]
fn voxel_lookup_routes_to_neighbours() {
    let mut voxels: Voxels<&str> = Voxels::new();
    voxels.insert_chunk([0, 0, 0], "origin");
    voxels.insert_chunk([1, 0, 0], "east");
    assert!(voxels.contains([1, 0, 0]));
    assert_eq!(*voxels.get_chunk([1, 0, 0]), "east");
    assert_eq!(
        voxels.locate_voxel([0, 0, 0], 3, 4, 5),
        VoxelRef::Own { x: 3, y: 4, z: 5 }
    );
    assert_eq!(
        voxels.locate_voxel([0, 0, 0], 16, 4, 5),
        VoxelRef::Neighbor { pos: [1, 0, 0], x: 0, y: 4, z: 5 }
    );
    // no chunk above: the nearest own voxel is used
    assert_eq!(
        voxels.locate_voxel([0, 0, 0], 3, 16, 17),
        VoxelRef::Own { x: 3, y: CHUNK_WIDTH - 1, z: CHUNK_WIDTH - 1 }
    );
    assert_eq!(voxels.del_chunk([1, 0, 0]), Some("east"));
    assert!(!voxels.contains([1, 0, 0]));
}

#[test]
fn mesh_shares_vertices_by_key() {
    let mut mesh: Mesh<char> = Mesh::new();
    let a = [0, 0, 0, 0];
    let b = [1, 0, 0, 1];
    let c = [0, 1, 0, 2];
    let d = [2, 2, 2, 0];
    mesh.add_face('a', 'b', 'c', [a, b, c]);
    mesh.add_face('x', 'y', 'd', [a, b, d]);
    assert_eq!(mesh.vertex_count(), 4);
    assert_eq!(mesh.face_count(), 2);
    assert_eq!(mesh.face(0), Face::from_idxs([0, 1, 2]));
    assert_eq!(mesh.face(1), Face::from_idxs([0, 1, 3]));
    // the first vertex stored under a key is kept
    assert_eq!(*mesh.vertex(0), 'a');
    assert_eq!(*mesh.vertex(3), 'd');
    assert_eq!(mesh.add_point('z', b), 1);
    assert_eq!(mesh.vertex_count(), 4);
    mesh.clear();
    assert_eq!(mesh.vertex_count(), 0);
    assert_eq!(mesh.face_count(), 0);
    assert_eq!(mesh.add_point('q', b), 0);
}

#[test]
fn small_constructors() {
    assert_eq!(Triangle::from_idxs([4, 5, 6]).points, [4, 5, 6]);
    assert_eq!(Face::from_idxs([1, 2, 3]).points, [1, 2, 3]);
    let v = Vec3 { x: 1, y: 2, z: 3 };
    assert_eq!(v.x + v.y + v.z, 6);
    assert_eq!(Material::default(), Material::Stone);
}

fn case_table(cases: &[(usize, Vec<i8>)]) -> Vec<Vec<i8>> {
    let mut table = vec![Vec::new(); 256];
    for (i, edges) in cases {
        table[*i] = edges.clone();
    }
    table
}

#[test]
fn get_mesh_builds_one_triangle_per_listed_case() {
    let table = case_table(&[(1, vec![0, 3, 8])]);
    let corners = |x: usize, y: usize, z: usize| {
        let mut f = [false; 8];
        f[0] = x == 0 && y == 0 && z == 0;
        f
    };
    let point = |x: usize, y: usize, z: usize, e: i8| (x, y, z, e);
    let mesh = get_mesh(&table, [0, 0, 0], &corners, &point);
    assert_eq!(mesh.vertex_count(), 3);
    assert_eq!(mesh.face_count(), 1);
    assert_eq!(mesh.face(0), Face::from_idxs([0, 1, 2]));
    assert_eq!(*mesh.vertex(0), (0, 0, 0, 0));
    assert_eq!(*mesh.vertex(1), (0, 0, 0, 3));
    assert_eq!(*mesh.vertex(2), (0, 0, 0, 8));
}

#[test]
fn get_mesh_welds_points_on_shared_edges() {
    // cell (0, 0, 0): corner 2 inside; cell (0, 1, 0): corner 0 inside.
    // Edge 2 of the first cell is edge 0 of the second, and edge 11 of the
    // first is edge 8 of the second.
    let table = case_table(&[(1, vec![0, 3, 8]), (4, vec![2, 3, 11])]);
    let corners = |x: usize, y: usize, z: usize| {
        let mut f = [false; 8];
        if x == 0 && z == 0 && y == 0 {
            f[2] = true;
        }
        if x == 0 && z == 0 && y == 1 {
            f[0] = true;
        }
        f
    };
    let point = |x: usize, y: usize, z: usize, e: i8| (x, y, z, e);
    let mesh = get_mesh(&table, [2, -1, 3], &corners, &point);
    assert_eq!(mesh.face_count(), 2);
    assert_eq!(mesh.vertex_count(), 4);
    assert_eq!(mesh.face(0), Face::from_idxs([0, 1, 2]));
    assert_eq!(mesh.face(1), Face::from_idxs([0, 3, 2]));
    assert_eq!(*mesh.vertex(2), (0, 0, 0, 11));
    assert_eq!(*mesh.vertex(3), (0, 1, 0, 3));
}

#[test]
fn get_mesh_of_empty_cases_is_empty() {
    let table = case_table(&[]);
    let corners = |_x: usize, _y: usize, _z: usize| [true; 8];
    let point = |_x: usize, _y: usize, _z: usize, _e: i8| 0u8;
    let mesh = get_mesh(&table, [0, 0, 0], &corners, &point);
    assert_eq!(mesh.vertex_count(), 0);
    assert_eq!(mesh.face_count(), 0);
}

#[test]
fn stored_chunks_are_whole_mesh_tiles() {
    assert_eq!(CHUNK_WIDTH, 16);
    assert_eq!(CHUNK_SIZE as usize % CHUNK_WIDTH, 0);
}

#[test]
fn cell_moved_to_the_next_chunk_keeps_its_keys() {
    for e in 0..12i8 {
        assert_eq!(
            edge_idx_to_point_hash(e, [3, -1, 2], [17 - 16, 4, 5]),
            edge_idx_to_point_hash(e, [2, -1, 2], [17, 4, 5])
        );
    }
}

#[test]
fn case_table_is_read_from_bytes() {
    let mut bytes = vec![0u8; 256 * 16];
    // case 1: one triangle on edges 0, 3, 8
    bytes[16] = 1;
    bytes[17] = 0;
    bytes[18] = 3;
    bytes[19] = 8;
    // unused slots may hold anything
    bytes[20] = 200;
    let table = case_table_from_bytes(&bytes).unwrap();
    assert_eq!(table.len(), 256);
    assert_eq!(table[1], vec![0, 3, 8]);
    assert!(table[0].is_empty());

    let mut too_many = bytes.clone();
    too_many[0] = 6;
    assert!(case_table_from_bytes(&too_many).is_none());
    let mut bad_edge = bytes.clone();
    bad_edge[18] = 12;
    assert!(case_table_from_bytes(&bad_edge).is_none());
    assert!(case_table_from_bytes(&bytes[..100].to_vec()).is_none());
}
