use phosphor::assets::Assets;
use phosphor::ecs::Component;
use phosphor::ecs::Name;
use phosphor::ecs::System;
use phosphor::ecs::World;
use phosphor::scene::decoded;
use phosphor::scene::encoded;
use phosphor::scene::find_loader;
use phosphor::scene::Loader;
use phosphor::scene::Scene;
use phosphor::scene::SceneError;
use phosphor::type_id::TypeIdNamed;

#[derive(Clone, Debug, PartialEq, Eq)]
enum Part {
    Health(u8),
    Mesh(String),
    Secret,
}

#[derive(Clone, Copy)]
struct Idle;

impl System<Part, ()> for Idle {
    fn run(&self, _world: &mut World<Part, (), Idle>) -> Result<(), String> {
        Ok(())
    }
}

type Stage = World<Part, (), Idle>;
type Save = fn(&Component<Part>) -> Vec<u8>;
type Load = fn(&Vec<u8>, &Assets<String>) -> Component<Part>;

fn health() -> TypeIdNamed {
    TypeIdNamed { id: 10, name: "Health" }
}

fn mesh() -> TypeIdNamed {
    TypeIdNamed { id: 20, name: "Mesh" }
}

fn secret() -> TypeIdNamed {
    TypeIdNamed { id: 30, name: "Secret" }
}

fn save_health(c: &Component<Part>) -> Vec<u8> {
    match c {
        Component::Custom(Part::Health(h)) => vec![*h],
        _ => vec![],
    }
}

fn load_health(bytes: &Vec<u8>, _assets: &Assets<String>) -> Component<Part> {
    Component::Custom(Part::Health(bytes[0]))
}

fn save_text(c: &Component<Part>) -> Vec<u8> {
    match c {
        Component::Custom(Part::Mesh(m)) => m.as_bytes().to_vec(),
        Component::Name(Name(n)) => n.as_bytes().to_vec(),
        _ => vec![],
    }
}

fn load_mesh(bytes: &Vec<u8>, assets: &Assets<String>) -> Component<Part> {
    let name = String::from_utf8(bytes.clone()).unwrap();
    match assets.find(TypeIdNamed { id: 20, name: "Mesh" }, &name) {
        Some(handle) => Component::Custom(Part::Mesh(handle.get().clone())),
        None => Component::Custom(Part::Mesh(name)),
    }
}

fn load_name(bytes: &Vec<u8>, _assets: &Assets<String>) -> Component<Part> {
    Component::Name(Name(String::from_utf8(bytes.clone()).unwrap()))
}

fn loaders(world: &Stage) -> Vec<Loader<Save, Load>> {
    vec![
        Loader { id: world.name_type(), save: save_text as Save, load: load_name as Load },
        Loader { id: health(), save: save_health as Save, load: load_health as Load },
        Loader { id: mesh(), save: save_text as Save, load: load_mesh as Load },
    ]
}

fn sample() -> Stage {
    let mut world = Stage::new();
    let a = world.spawn("a");
    let b = world.spawn_empty();
    b.insert(&mut world, health(), Component::Custom(Part::Health(7)));
    a.insert(&mut world, health(), Component::Custom(Part::Health(3)));
    a.insert(&mut world, secret(), Component::Custom(Part::Secret));
    a.insert(&mut world, mesh(), Component::Custom(Part::Mesh("cube".to_string())));
    world
}

#[test]
fn push_groups_records_by_entity() {
    let mut scene = Scene::new();
    scene.push(4, 10, vec![1]);
    scene.push(2, 10, vec![2]);
    scene.push(4, 20, vec![3, 3]);
    scene.push(2, 10, vec![]);
    assert_eq!(
        scene.entities,
        vec![(4, vec![(10, vec![1]), (20, vec![3, 3])]), (2, vec![(10, vec![2]), (10, vec![])])]
    );
}

#[test]
fn new_scene_is_empty() {
    assert!(Scene::new().entities.is_empty());
}

#[test]
fn find_loader_takes_the_first_for_a_type() {
    let world = Stage::new();
    let mut all = loaders(&world);
    all.push(Loader { id: health(), save: save_text as Save, load: load_name as Load });
    assert_eq!(find_loader(&all, 10), Some(1));
    assert_eq!(find_loader(&all, 20), Some(2));
    assert_eq!(find_loader(&all, 30), None);
}

#[test]
fn save_walks_types_in_order_of_first_use() {
    let world = sample();
    let (scene, unsaved) = Scene::save(&world, &loaders(&world));
    let name_key = world.name_type().id;
    assert_eq!(
        scene.entities,
        vec![
            (0, vec![(name_key, b"a".to_vec()), (10, vec![3]), (20, b"cube".to_vec())]),
            (1, vec![(10, vec![7])]),
        ]
    );
    assert_eq!(unsaved, vec![secret()]);
}

#[test]
fn save_of_an_empty_world_is_empty() {
    let world = Stage::new();
    let (scene, unsaved) = Scene::save(&world, &loaders(&world));
    assert!(scene.entities.is_empty());
    assert!(unsaved.is_empty());
}

#[test]
fn save_without_loaders_keeps_nothing() {
    let world = sample();
    let none: Vec<Loader<Save, Load>> = Vec::new();
    let (scene, unsaved) = Scene::save(&world, &none);
    assert!(scene.entities.is_empty());
    assert_eq!(unsaved.len(), 4);
}

#[test]
fn load_replaces_the_store_with_fresh_entities() {
    let world = sample();
    let all = loaders(&world);
    let (scene, _) = Scene::save(&world, &all);

    let mut target = Stage::new();
    let old = target.spawn("old");
    old.insert(&mut target, secret(), Component::Custom(Part::Secret));
    let assets: Assets<String> = Assets::new();
    scene.load(&mut target, &all, &assets);

    assert_eq!(target.spawned(), 3);
    assert_eq!(target.get_name("old"), None);
    assert!(target.query(secret()).is_empty());
    let a = target.get_name("a").unwrap();
    assert_eq!(a.id, 1);
    assert_eq!(a.get_one(&target, health()), Some(&Component::Custom(Part::Health(3))));
    assert_eq!(a.get_one(&target, mesh()), Some(&Component::Custom(Part::Mesh("cube".to_string()))));
    let healths = target.query(health());
    assert_eq!(healths.len(), 2);
    assert_eq!(healths[0].0.id, 1);
    assert_eq!(healths[1].0.id, 2);
    assert_eq!(healths[1].1, &Component::Custom(Part::Health(7)));
}

#[test]
fn save_then_load_then_save_is_stable() {
    let world = sample();
    let all = loaders(&world);
    let (scene, _) = Scene::save(&world, &all);
    let mut target = Stage::new();
    scene.load(&mut target, &all, &Assets::new());
    let (again, unsaved) = Scene::save(&target, &all);
    assert!(unsaved.is_empty());
    let records: Vec<_> = scene.entities.iter().map(|g| g.1.clone()).collect();
    let records_again: Vec<_> = again.entities.iter().map(|g| g.1.clone()).collect();
    assert_eq!(records, records_again);
}

#[test]
fn load_passes_the_assets_to_the_loader() {
    let mut assets: Assets<String> = Assets::new();
    assets.store(mesh(), "cube", std::rc::Rc::new("a cube of eight corners".to_string()));
    let scene = Scene { entities: vec![(9, vec![(20, b"cube".to_vec()), (20, b"ball".to_vec())])] };
    let mut world = Stage::new();
    let all = loaders(&world);
    scene.load(&mut world, &all, &assets);
    let found = world.query(mesh());
    assert_eq!(found.len(), 2);
    assert_eq!(found[0].0.id, 0);
    assert_eq!(found[0].1, &Component::Custom(Part::Mesh("a cube of eight corners".to_string())));
    assert_eq!(found[1].1, &Component::Custom(Part::Mesh("ball".to_string())));
}

#[test]
fn load_skips_records_without_a_loader() {
    let scene = Scene { entities: vec![(5, vec![(99, vec![1]), (10, vec![4])]), (6, vec![(99, vec![])])] };
    let mut world = Stage::new();
    let all = loaders(&world);
    scene.load(&mut world, &all, &Assets::new());
    assert_eq!(world.spawned(), 2);
    assert_eq!(world.kinds(), vec![health()]);
    assert_eq!(world.query(health()).len(), 1);
    assert_eq!(world.query(health())[0].0.id, 0);
}

#[test]
fn decode_and_restore_are_the_two_halves_of_load() {
    let scene = Scene { entities: vec![(5, vec![(10, vec![4]), (10, vec![5])]), (6, vec![])] };
    let mut world = Stage::new();
    world.spawn_empty();
    let all = loaders(&world);
    let decoded: Vec<Vec<(TypeIdNamed, Component<Part>)>> = scene.decode(&all, &Assets::new());
    assert_eq!(decoded.len(), 2);
    assert_eq!(
        decoded[0],
        vec![
            (health(), Component::Custom(Part::Health(4))),
            (health(), Component::Custom(Part::Health(5)))
        ]
    );
    assert!(decoded[1].is_empty());
    Scene::restore(&mut world, decoded);
    assert_eq!(world.spawned(), 3);
    let found = world.query(health());
    assert_eq!(found.len(), 2);
    assert_eq!(found[0].0.id, 1);
    assert_eq!(found[1].0.id, 1);
}

#[test]
fn to_bytes_is_the_bincode_of_the_groups() {
    let scene = Scene { entities: vec![(1, vec![(2, vec![9])])] };
    let bytes = scene.to_bytes().unwrap();
    let mut expected: Vec<u8> = Vec::new();
    expected.extend_from_slice(&1u64.to_le_bytes());
    expected.extend_from_slice(&1u64.to_le_bytes());
    expected.extend_from_slice(&1u64.to_le_bytes());
    expected.extend_from_slice(&2u64.to_le_bytes());
    expected.extend_from_slice(&1u64.to_le_bytes());
    expected.push(9);
    assert_eq!(bytes, expected);
    assert_eq!(bytes.len(), 41);
    let large = Scene { entities: vec![(u64::MAX, vec![(u64::MAX, vec![255; 1000]); 50]); 20] };
    assert!(large.to_bytes().is_ok());
    assert_eq!(Scene::new().to_bytes().unwrap(), 0u64.to_le_bytes().to_vec());
}

#[test]
fn from_bytes_reads_what_to_bytes_wrote() {
    let world = sample();
    let (scene, _) = Scene::save(&world, &loaders(&world));
    let bytes = scene.to_bytes().unwrap();
    assert_ne!(bytes.len(), 0);
    let back = Scene::from_bytes(&bytes).unwrap();
    assert_eq!(back, scene);
}

#[test]
fn from_bytes_refuses_what_is_no_scene() {
    assert!(matches!(Scene::from_bytes(&[]), Err(SceneError::Decode(_))));
    assert!(matches!(Scene::from_bytes(&[1, 2, 3]), Err(SceneError::Decode(_))));
    let truncated = {
        let scene = Scene { entities: vec![(1, vec![(2, vec![9, 9, 9])])] };
        let mut bytes = scene.to_bytes().unwrap();
        bytes.pop();
        bytes
    };
    assert!(matches!(Scene::from_bytes(&truncated), Err(SceneError::Decode(_))));
    let too_many = u64::MAX.to_le_bytes();
    assert!(matches!(Scene::from_bytes(&too_many), Err(SceneError::Decode(_))));
}

#[test]
fn from_bytes_reads_the_layout_of_a_map_from_entities_to_records() {
    let mut map: std::collections::HashMap<usize, Vec<(usize, Vec<u8>)>> = std::collections::HashMap::new();
    map.insert(7, vec![(10, vec![1, 2]), (20, vec![])]);
    let bytes = bincode::serialize(&map).unwrap();
    let scene = Scene::from_bytes(&bytes).unwrap();
    assert_eq!(scene.entities, vec![(7, vec![(10, vec![1, 2]), (20, vec![])])]);
}

#[test]
fn outcomes_of_the_encoder_map_to_results() {
    assert_eq!(encoded(Ok(vec![1, 2])), Ok(vec![1, 2]));
    let failed = encoded(Err(Box::new(bincode::ErrorKind::SizeLimit)));
    assert_eq!(failed, Err(SceneError::Encode("the size limit has been reached".to_string())));
    let read = decoded(Ok(vec![(3, vec![])]));
    assert_eq!(read, Ok(Scene { entities: vec![(3, vec![])] }));
    let unread = decoded(Err(Box::new(bincode::ErrorKind::Custom("no".to_string()))));
    assert_eq!(unread, Err(SceneError::Decode("no".to_string())));
}

#[test]
fn a_saver_sees_only_components_of_its_own_type() {
    fn only_health(c: &Component<Part>) -> Vec<u8> {
        match c {
            Component::Custom(Part::Health(h)) => vec![*h],
            other => panic!("the saver of health was handed {:?}", other),
        }
    }
    fn only_health_bytes(bytes: &Vec<u8>, _assets: &Assets<String>) -> Component<Part> {
        assert_eq!(bytes.len(), 1);
        Component::Custom(Part::Health(bytes[0]))
    }
    let world = sample();
    let strict: Vec<Loader<Save, Load>> =
        vec![Loader { id: health(), save: only_health as Save, load: only_health_bytes as Load }];
    let (scene, unsaved) = Scene::save(&world, &strict);
    assert_eq!(scene.entities, vec![(1, vec![(10, vec![7])]), (0, vec![(10, vec![3])])]);
    assert_eq!(unsaved.len(), 3);
    let mixed = Scene { entities: vec![(4, vec![(20, vec![1, 2, 3]), (10, vec![9])])] };
    let mut target = Stage::new();
    mixed.load(&mut target, &strict, &Assets::new());
    assert_eq!(target.query(health()).len(), 1);
}

#[test]
fn a_saved_scene_has_one_group_for_each_entity() {
    let world = sample();
    let (scene, _) = Scene::save(&world, &loaders(&world));
    let mut owners: Vec<u64> = scene.entities.iter().map(|group| group.0).collect();
    owners.sort();
    owners.dedup();
    assert_eq!(owners.len(), scene.entities.len());
}
