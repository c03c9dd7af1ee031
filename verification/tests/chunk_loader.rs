use voxel_engine::chunk_loader::{camera_chunk, ChunkLoader, ChunkLoaderSettings, CHUNK_SIZE};
use voxel_engine::game_object::GameObjectID;

fn settings(view_distance: i32, world_height: i32) -> ChunkLoaderSettings {
    ChunkLoaderSettings {
        view_distance,
        thread_count: 2,
        db_path: String::from("unused.db"),
        world_height,
        gen_new_world: true,
    }
}

fn sorted(mut v: Vec<(i32, i32, i32)>) -> Vec<(i32, i32, i32)> {
    v.sort();
    v
}

#[test]
fn camera_chunk_rounds_toward_zero_then_down_when_negative() {
    assert_eq!(CHUNK_SIZE, 128);
    assert_eq!(camera_chunk(0), 0);
    assert_eq!(camera_chunk(127), 0);
    assert_eq!(camera_chunk(128), 1);
    assert_eq!(camera_chunk(300), 2);
    // -1 / 128 is 0 in truncating division, which is not negative
    assert_eq!(camera_chunk(-1), 0);
    assert_eq!(camera_chunk(-128), -2);
    assert_eq!(camera_chunk(-300), -3);
}

#[test]
fn fresh_world_requests_generation_of_whole_view() {
    let mut loader: ChunkLoader<u8> = ChunkLoader::new(settings(1, 2), Vec::new());
    let r = loader.request_chunks(0, 0);
    // scan order: x, then z, then y
    let expected = vec![
        (-1, 0, -1),
        (-1, 1, -1),
        (-1, 0, 0),
        (-1, 1, 0),
        (0, 0, -1),
        (0, 1, -1),
        (0, 0, 0),
        (0, 1, 0),
    ];
    assert_eq!(r.generate, expected);
    assert!(r.load.is_empty());
}

#[test]
fn second_request_pass_asks_nothing() {
    let mut loader: ChunkLoader<u8> = ChunkLoader::new(settings(2, 1), vec![(0, 0, 0), (1, 0, 1)]);
    let first = loader.request_chunks(0, 0);
    assert_eq!(first.generate.len(), 14);
    assert_eq!(sorted(first.load.clone()), vec![(0, 0, 0), (1, 0, 1)]);
    let second = loader.request_chunks(0, 0);
    assert!(second.generate.is_empty());
    assert!(second.load.is_empty());
}

#[test]
fn zero_view_distance_requests_nothing() {
    let mut loader: ChunkLoader<u8> = ChunkLoader::new(settings(0, 4), Vec::new());
    let r = loader.request_chunks(5, -5);
    assert!(r.generate.is_empty());
    assert!(r.load.is_empty());
}

#[test]
fn generated_chunk_is_meshed_with_its_loaded_neighbours() {
    let mut loader: ChunkLoader<u8> = ChunkLoader::new(settings(2, 2), Vec::new());
    let t1 = loader.receive_generated((0, 0, 0), 1);
    assert_eq!(t1.len(), 1);
    assert_eq!(t1[0].pos, (0, 0, 0));
    assert_eq!(t1[0].neighbors, vec![(0, 0, 0)]);
    assert_eq!(t1[0].mesh_id, 0);

    // only chunks at offsets 0 or 1 above the new chunk are meshed again
    let t2 = loader.receive_generated((1, 0, 0), 2);
    assert_eq!(t2.len(), 1);
    assert_eq!(t2[0].pos, (1, 0, 0));
    assert_eq!(t2[0].mesh_id, 1);

    let t3 = loader.receive_generated((0, 0, 1), 3);
    assert_eq!(t3.len(), 1);
    assert_eq!(t3[0].pos, (0, 0, 1));
    assert_eq!(t3[0].neighbors, vec![(0, 0, 1)]);
    assert_eq!(t3[0].mesh_id, 2);
}

#[test]
fn db_answer_missing_chunk_asks_regeneration() {
    let mut loader: ChunkLoader<u8> = ChunkLoader::new(settings(1, 1), vec![(0, 0, 0)]);
    let r = loader.request_chunks(0, 0);
    assert_eq!(r.load, vec![(0, 0, 0)]);
    let out = loader.receive_from_db((0, 0, 0), None);
    assert!(out.regenerate);
    assert!(out.mesh_tasks.is_empty());
    // the chunk is now being generated: no further request for it
    let again = loader.request_chunks(0, 0);
    assert!(!again.generate.contains(&(0, 0, 0)));
    assert!(!again.load.contains(&(0, 0, 0)));
}

#[test]
fn db_answer_with_chunk_meshes_it() {
    let mut loader: ChunkLoader<u8> = ChunkLoader::new(settings(1, 1), vec![(0, 0, 0)]);
    let _ = loader.request_chunks(0, 0);
    let out = loader.receive_from_db((0, 0, 0), Some(7));
    assert!(!out.regenerate);
    assert_eq!(out.mesh_tasks.len(), 1);
    assert_eq!(out.mesh_tasks[0].pos, (0, 0, 0));
    assert_eq!(out.mesh_tasks[0].neighbors, vec![(0, 0, 0)]);
    assert_eq!(out.mesh_tasks[0].mesh_id, 0);
}

#[test]
fn unload_hands_back_exactly_the_far_chunks() {
    let mut loader: ChunkLoader<u8> = ChunkLoader::new(settings(1, 1), Vec::new());
    let _ = loader.receive_generated((0, 0, 0), 10);
    let _ = loader.receive_generated((1, 0, 0), 11);
    let _ = loader.receive_generated((5, 0, 0), 12);
    let _ = loader.receive_generated((0, 0, -3), 13);
    let mut count: u32 = 0;
    let m = loader.receive_mesh((5, 0, 0), 2, false, &mut count);
    assert_eq!(m.instantiate, Some(GameObjectID(0)));

    let mut out = loader.unload_far_chunks(0, 0);
    out.sort_by_key(|u| u.pos);
    assert_eq!(out.len(), 2);
    assert_eq!(out[0].pos, (0, 0, -3));
    assert_eq!(out[0].chunk, 13);
    assert_eq!(out[0].mesh, None);
    assert_eq!(out[1].pos, (5, 0, 0));
    assert_eq!(out[1].chunk, 12);
    assert_eq!(out[1].mesh, Some(GameObjectID(0)));

    // nothing else is far now
    assert!(loader.unload_far_chunks(0, 0).is_empty());
}

#[test]
fn empty_mesh_changes_nothing() {
    let mut loader: ChunkLoader<u8> = ChunkLoader::new(settings(1, 1), Vec::new());
    let mut count: u32 = 4;
    let m = loader.receive_mesh((0, 0, 0), 0, true, &mut count);
    assert_eq!(m.instantiate, None);
    assert_eq!(m.remove, None);
    assert_eq!(count, 4);
}

#[test]
fn newer_mesh_replaces_older_and_older_is_ignored() {
    let mut loader: ChunkLoader<u8> = ChunkLoader::new(settings(1, 1), Vec::new());
    let mut count: u32 = 0;
    let first = loader.receive_mesh((0, 0, 0), 3, false, &mut count);
    assert_eq!(first.instantiate, Some(GameObjectID(0)));
    assert_eq!(first.remove, None);
    assert_eq!(count, 1);

    // a newer request: the old object goes away
    let second = loader.receive_mesh((0, 0, 0), 5, false, &mut count);
    assert_eq!(second.instantiate, Some(GameObjectID(1)));
    assert_eq!(second.remove, Some(GameObjectID(0)));
    assert_eq!(count, 2);

    // an older request than the one recorded: nothing is removed
    let third = loader.receive_mesh((0, 0, 0), 4, false, &mut count);
    assert_eq!(third.instantiate, Some(GameObjectID(2)));
    assert_eq!(third.remove, None);
    assert_eq!(count, 3);

    // the table kept the first object's id with the newer number
    let fourth = loader.receive_mesh((0, 0, 0), 6, false, &mut count);
    assert_eq!(fourth.remove, Some(GameObjectID(0)));
}

#[test]
fn chunk_below_a_loaded_one_remeshes_both() {
    let mut loader: ChunkLoader<u8> = ChunkLoader::new(settings(2, 2), Vec::new());
    let _ = loader.receive_generated((1, 0, 0), 1);
    let t = loader.receive_generated((0, 0, 0), 2);
    assert_eq!(t.len(), 2);
    assert_eq!(t[0].pos, (0, 0, 0));
    assert_eq!(t[0].neighbors, vec![(0, 0, 0), (1, 0, 0)]);
    assert_eq!(t[0].mesh_id, 1);
    assert_eq!(t[1].pos, (1, 0, 0));
    assert_eq!(t[1].neighbors, vec![(1, 0, 0)]);
    assert_eq!(t[1].mesh_id, 2);
}

#[test]
fn distances_fit_spots_overflowing_chunks() {
    let mut loader: ChunkLoader<u8> = ChunkLoader::new(settings(1, 1), Vec::new());
    assert!(loader.distances_fit(i32::MIN, i32::MAX));
    let _ = loader.receive_generated((i32::MAX - 2, 0, 0), 1);
    assert_eq!(loader.mesh_count(), 1);
    assert!(loader.distances_fit(0, 0));
    assert!(loader.distances_fit(-2, 0));
    assert!(!loader.distances_fit(-3, 0));
    assert!(!loader.distances_fit(0, i32::MIN));
}
