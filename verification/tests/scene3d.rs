use phosphor::ecs::Component;
use phosphor::ecs::Entity;
use phosphor::ecs::Stage;
use phosphor::ecs::System;
use phosphor::ecs::World;
use phosphor::scene3d::scenerenderer;
use phosphor::scene3d::scenerenderer_draw;
use phosphor::scene3d::Passes;
use phosphor::scene3d::SceneTags;
use phosphor::scene3d::Tonemap;
use phosphor::scene3d::Warning;
use phosphor::scene3d::Warnings;
use phosphor::type_id::TypeIdNamed;

#[derive(Clone, Copy, PartialEq, Debug)]
struct Mark(u8);

impl System<u8, u8> for Mark {
    fn run(&self, _world: &mut World<u8, u8, Mark>) -> Result<(), String> {
        Ok(())
    }
}

type Stagehand = World<u8, u8, Mark>;

fn tags() -> SceneTags {
    SceneTags {
        camera: TypeIdNamed { id: 1, name: "Camera" },
        transform: TypeIdNamed { id: 2, name: "Transform" },
        model: TypeIdNamed { id: 3, name: "Model" },
        light: TypeIdNamed { id: 4, name: "Light" },
    }
}

#[test]
fn tonemap_names() {
    assert_eq!(Tonemap::Aces.name(), "Aces");
    assert_eq!(Tonemap::Filmic.name(), "Filmic");
    assert_eq!(Tonemap::Reinhard.name(), "Reinhard");
    assert_eq!(Tonemap::Uncharted2.name(), "Uncharted2");
}

#[test]
fn tonemap_numbers_follow_the_list() {
    let all = Tonemap::all();
    assert_eq!(all, vec![Tonemap::Aces, Tonemap::Filmic, Tonemap::Reinhard, Tonemap::Uncharted2]);
    for (i, tonemap) in all.iter().enumerate() {
        assert_eq!(tonemap.index(), i as i32);
    }
}

#[test]
fn plugin_stores_state_and_registers_the_draw_system() {
    let mut world = Stagehand::new();
    world.add_system(Stage::Draw, Mark(1), "earlier");
    let state = TypeIdNamed { id: 9, name: "SceneRenderer" };
    scenerenderer(&mut world, state, 42, Mark(2), "scenerenderer_draw");
    assert_eq!(world.resource(state), Some(&42));
    assert!(world.run_system(Stage::Draw).is_empty());
    assert!(world.run_system(Stage::Start).is_empty());
}

#[test]
fn nothing_is_drawn_without_a_camera() {
    let t = tags();
    let mut world = Stagehand::new();
    world.spawn_empty().insert(&mut world, t.transform, Component::Custom(0)).insert(
        &mut world,
        t.model,
        Component::Custom(0),
    );
    let mut warnings = Warnings::new();
    let (passes, news) = scenerenderer_draw(&world, t, &mut warnings);
    assert_eq!(passes, None);
    assert_eq!(news, vec![Warning::MissingCamera]);
    let (passes, news) = scenerenderer_draw(&world, t, &mut warnings);
    assert_eq!(passes, None);
    assert!(news.is_empty());
    assert_eq!(warnings.seen, vec![Warning::MissingCamera]);
}

#[test]
fn nothing_is_drawn_when_the_camera_has_no_transform() {
    let t = tags();
    let mut world = Stagehand::new();
    world.spawn_empty().insert(&mut world, t.camera, Component::Custom(0));
    world.spawn_empty().insert(&mut world, t.camera, Component::Custom(0)).insert(
        &mut world,
        t.transform,
        Component::Custom(0),
    );
    let mut warnings = Warnings::new();
    let (passes, news) = scenerenderer_draw(&world, t, &mut warnings);
    assert_eq!(passes, None);
    assert_eq!(news, vec![Warning::MissingCameraTransform]);
}

#[test]
fn models_and_lights_need_a_transform() {
    let t = tags();
    let mut world = Stagehand::new();
    let cam = world.spawn_empty().insert(&mut world, t.camera, Component::Custom(0)).insert(
        &mut world,
        t.transform,
        Component::Custom(0),
    );
    let a = world.spawn_empty().insert(&mut world, t.model, Component::Custom(1));
    let b = world.spawn_empty().insert(&mut world, t.model, Component::Custom(2)).insert(
        &mut world,
        t.transform,
        Component::Custom(0),
    );
    let c = world.spawn_empty().insert(&mut world, t.light, Component::Custom(3));
    let d = world.spawn_empty().insert(&mut world, t.light, Component::Custom(4)).insert(
        &mut world,
        t.transform,
        Component::Custom(0),
    );
    a.insert(&mut world, t.model, Component::Custom(5));
    let mut warnings = Warnings::new();
    let (passes, news) = scenerenderer_draw(&world, t, &mut warnings);
    assert_eq!(passes, Some(Passes { camera: cam, models: vec![b], lights: vec![d] }));
    assert_eq!(
        news,
        vec![Warning::MissingModelTransform(a.id), Warning::MissingLightTransform(c.id)]
    );
    a.insert(&mut world, t.transform, Component::Custom(0));
    let (passes, news) = scenerenderer_draw(&world, t, &mut warnings);
    assert_eq!(passes, Some(Passes { camera: cam, models: vec![a, b, a], lights: vec![d] }));
    assert!(news.is_empty());
}

#[test]
fn first_camera_is_the_one_used() {
    let t = tags();
    let mut world = Stagehand::new();
    let first = world.spawn_empty().insert(&mut world, t.transform, Component::Custom(0)).insert(
        &mut world,
        t.camera,
        Component::Custom(0),
    );
    world.spawn_empty().insert(&mut world, t.transform, Component::Custom(0)).insert(
        &mut world,
        t.camera,
        Component::Custom(0),
    );
    let mut warnings = Warnings::new();
    let (passes, news) = scenerenderer_draw(&world, t, &mut warnings);
    assert_eq!(passes, Some(Passes { camera: first, models: vec![], lights: vec![] }));
    assert!(news.is_empty());
    assert_eq!(first, Entity { id: 0 });
}

#[test]
fn warn_once_says_yes_the_first_time_only() {
    let mut warnings = Warnings::new();
    assert!(!warnings.has(Warning::MissingCamera));
    assert!(warnings.warn_once(Warning::MissingCamera));
    assert!(!warnings.warn_once(Warning::MissingCamera));
    assert!(warnings.warn_once(Warning::MissingModelTransform(3)));
    assert!(warnings.warn_once(Warning::MissingModelTransform(4)));
    assert!(warnings.warn_once(Warning::MissingLightTransform(3)));
    assert!(!warnings.warn_once(Warning::MissingModelTransform(3)));
    assert!(warnings.has(Warning::MissingModelTransform(4)));
    assert_eq!(warnings.seen.len(), 4);
}

#[test]
fn announce_hands_back_each_new_warning_once() {
    let mut warnings = Warnings::new();
    warnings.warn_once(Warning::MissingCamera);
    let due = vec![
        Warning::MissingModelTransform(1),
        Warning::MissingCamera,
        Warning::MissingModelTransform(1),
        Warning::MissingLightTransform(1),
    ];
    let news = warnings.announce(&due);
    assert_eq!(news, vec![Warning::MissingModelTransform(1), Warning::MissingLightTransform(1)]);
    assert_eq!(
        warnings.seen,
        vec![
            Warning::MissingCamera,
            Warning::MissingModelTransform(1),
            Warning::MissingLightTransform(1)
        ]
    );
    assert!(warnings.announce(&due).is_empty());
}
