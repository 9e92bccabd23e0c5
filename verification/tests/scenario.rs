use phosphor::ecs::Component;
use phosphor::ecs::Stage;
use phosphor::ecs::System;
use phosphor::ecs::World;
use phosphor::scene3d::scenerenderer;
use phosphor::scene3d::scenerenderer_draw;
use phosphor::scene3d::SceneTags;
use phosphor::scene3d::Warning;
use phosphor::scene3d::Warnings;
use phosphor::type_id::TypeIdNamed;

#[derive(Clone, Debug, PartialEq)]
enum Part {
    Transform { pos: (i32, i32, i32) },
    Model { mesh: String },
    Camera,
}

#[derive(Debug, PartialEq)]
enum Service {
    Renderer { drawn: Vec<String>, shown: Vec<Warning>, warnings: Warnings },
}

#[derive(Clone, Copy)]
struct Job(fn(&mut World<Part, Service, Job>) -> Result<(), String>);

impl System<Part, Service> for Job {
    fn run(&self, world: &mut World<Part, Service, Job>) -> Result<(), String> {
        (self.0)(world)
    }
}

struct TransformType;
struct ModelType;
struct CameraType;
struct LightType;
struct RendererType;

fn tags() -> SceneTags {
    SceneTags {
        camera: TypeIdNamed::of::<CameraType>("Camera"),
        transform: TypeIdNamed::of::<TransformType>("Transform"),
        model: TypeIdNamed::of::<ModelType>("Model"),
        light: TypeIdNamed::of::<LightType>("Light"),
    }
}

fn renderer() -> TypeIdNamed {
    TypeIdNamed::of::<RendererType>("Renderer")
}

fn draw(world: &mut World<Part, Service, Job>) -> Result<(), String> {
    let Service::Renderer { mut drawn, mut shown, mut warnings } =
        world.take_resource(renderer()).ok_or("no renderer")?;
    let (passes, news) = scenerenderer_draw(world, tags(), &mut warnings);
    shown.extend(news);
    if let Some(passes) = passes {
        for e in passes.models {
            if let Some(Component::Custom(Part::Model { mesh })) = e.get_one(world, tags().model) {
                drawn.push(mesh.clone());
            }
        }
    }
    world.add_resource(renderer(), Service::Renderer { drawn, shown, warnings });
    Ok(())
}

#[test]
fn renderer_draws_what_has_a_transform_and_warns_once() {
    let t = tags();
    let mut world: World<Part, Service, Job> = World::new();
    scenerenderer(
        &mut world,
        renderer(),
        Service::Renderer { drawn: vec![], shown: vec![], warnings: Warnings::new() },
        Job(draw),
        "scenerenderer_draw",
    );
    world
        .spawn("cam")
        .insert(&mut world, t.transform, Component::Custom(Part::Transform { pos: (0, 1, -10) }))
        .insert(&mut world, t.camera, Component::Custom(Part::Camera));
    let e1 = world
        .spawn("e1")
        .insert(&mut world, t.transform, Component::Custom(Part::Transform { pos: (0, 0, 0) }))
        .insert(&mut world, t.model, Component::Custom(Part::Model { mesh: "cube".to_string() }));
    let e2 = world
        .spawn("e2")
        .insert(&mut world, t.transform, Component::Custom(Part::Transform { pos: (5, 0, 0) }));
    let e3 = world
        .spawn("e3")
        .insert(&mut world, t.model, Component::Custom(Part::Model { mesh: "sphere".to_string() }));

    assert!(world.run_system(Stage::Draw).is_empty());
    match world.resource(renderer()) {
        Some(Service::Renderer { drawn, shown, .. }) => {
            assert_eq!(drawn, &vec!["cube".to_string()]);
            assert_eq!(shown, &vec![Warning::MissingModelTransform(e3.id)]);
        }
        None => panic!("the renderer keeps its state"),
    }

    assert!(world.run_system(Stage::Draw).is_empty());
    assert!(world.run_system(Stage::Draw).is_empty());
    match world.resource(renderer()) {
        Some(Service::Renderer { drawn, shown, .. }) => {
            assert_eq!(drawn.len(), 3);
            assert!(drawn.iter().all(|mesh| mesh == "cube"));
            assert_eq!(shown, &vec![Warning::MissingModelTransform(e3.id)]);
        }
        None => panic!("the renderer keeps its state"),
    }
    assert_eq!(e1.get_one(&world, t.model).is_some(), true);
    assert_eq!(e2.get_one(&world, t.model), None);
    assert_eq!(e3.get_one(&world, t.transform), None);
}

#[test]
fn shared_log_shows_the_order_of_the_draw_stage() {
    type Log = Vec<String>;

    #[derive(Clone, Copy)]
    struct Step(fn(&mut World<(), Log, Step>) -> Result<(), String>);

    impl System<(), Log> for Step {
        fn run(&self, world: &mut World<(), Log, Step>) -> Result<(), String> {
            (self.0)(world)
        }
    }

    struct LogType;

    fn s1(world: &mut World<(), Log, Step>) -> Result<(), String> {
        world.get_resource(TypeIdNamed::of::<LogType>("Log")).ok_or("no log")?.push("1".to_string());
        Ok(())
    }

    fn s2(world: &mut World<(), Log, Step>) -> Result<(), String> {
        world.get_resource(TypeIdNamed::of::<LogType>("Log")).ok_or("no log")?.push("2".to_string());
        Ok(())
    }

    let log = TypeIdNamed::of::<LogType>("Log");
    let mut world: World<(), Log, Step> = World::new();
    world.add_resource(log, Vec::new());
    world.add_system(Stage::Draw, Step(s1), "S1");
    world.add_system(Stage::Draw, Step(s2), "S2");
    let errors = world.run_system(Stage::Draw);
    assert!(errors.is_empty());
    assert_eq!(world.resource(log), Some(&vec!["1".to_string(), "2".to_string()]));
    assert_ne!(world.resource(log), Some(&vec!["2".to_string(), "1".to_string()]));
}
