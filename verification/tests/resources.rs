use phosphor::ecs::System;
use phosphor::ecs::World;
use phosphor::type_id::TypeIdNamed;

#[derive(Clone, Debug, PartialEq)]
enum Service {
    DeltaTime(u32),
    Log(Vec<String>),
}

#[derive(Clone, Copy)]
struct Idle;

impl System<(), Service> for Idle {
    fn run(&self, _world: &mut World<(), Service, Idle>) -> Result<(), String> {
        Ok(())
    }
}

type Registry = World<(), Service, Idle>;

struct DeltaTimeType;
struct LogType;

fn delta() -> TypeIdNamed {
    TypeIdNamed::of::<DeltaTimeType>("DeltaTime")
}

fn log() -> TypeIdNamed {
    TypeIdNamed::of::<LogType>("Log")
}

#[test]
fn resource_never_added_is_none() {
    let mut world = Registry::new();
    assert!(world.resource(delta()).is_none());
    assert!(world.get_resource(delta()).is_none());
    assert!(world.take_resource(delta()).is_none());
}

#[test]
fn added_resource_is_found() {
    let mut world = Registry::new();
    world.add_resource(delta(), Service::DeltaTime(16));
    assert_eq!(world.resource(delta()), Some(&Service::DeltaTime(16)));
    assert_eq!(world.get_resource(delta()), Some(&mut Service::DeltaTime(16)));
    assert!(world.resource(log()).is_none());
}

#[test]
fn adding_again_overwrites() {
    let mut world = Registry::new();
    world.add_resource(delta(), Service::DeltaTime(16));
    world.add_resource(delta(), Service::DeltaTime(33));
    assert_eq!(world.resource(delta()), Some(&Service::DeltaTime(33)));
    assert_eq!(world.take_resource(delta()), Some(Service::DeltaTime(33)));
    assert_eq!(world.take_resource(delta()), None);
}

#[test]
fn taking_removes() {
    let mut world = Registry::new();
    world.add_resource(delta(), Service::DeltaTime(16));
    world.add_resource(log(), Service::Log(vec![]));
    assert_eq!(world.take_resource(delta()), Some(Service::DeltaTime(16)));
    assert!(world.get_resource(delta()).is_none());
    assert!(world.resource(delta()).is_none());
    assert_eq!(world.resource(log()), Some(&Service::Log(vec![])));
}

#[test]
fn get_resource_changes_in_place() {
    let mut world = Registry::new();
    world.add_resource(log(), Service::Log(vec![]));
    world.add_resource(delta(), Service::DeltaTime(1));
    if let Some(Service::Log(lines)) = world.get_resource(log()) {
        lines.push("first".to_string());
    }
    if let Some(Service::Log(lines)) = world.get_resource(log()) {
        lines.push("second".to_string());
    }
    assert_eq!(
        world.resource(log()),
        Some(&Service::Log(vec!["first".to_string(), "second".to_string()]))
    );
    assert_eq!(world.resource(delta()), Some(&Service::DeltaTime(1)));
}

#[test]
fn resources_and_components_do_not_mix() {
    let mut world = Registry::new();
    world.add_resource(delta(), Service::DeltaTime(1));
    assert!(world.query(delta()).is_empty());
    assert!(world.kinds().is_empty());
    world.clear();
    assert_eq!(world.resource(delta()), Some(&Service::DeltaTime(1)));
}
