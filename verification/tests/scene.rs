use voxel_engine::scene::Scene;

#[test]
fn scene_adds_and_removes_entities() {
    let mut scene: Scene<String> = Scene::new();
    scene.add_entity(String::from("tree"));
    scene.add_entity(String::from("rock"));
    scene.remove_entity(0);
    scene.remove_entity(7);
    scene.add_entity(String::from("cloud"));
}
