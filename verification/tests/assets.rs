use std::any::Any;
use std::cell::Cell;
use std::rc::Rc;

use phosphor::assets::AssetLoader;
use phosphor::assets::Assets;
use phosphor::assets::Handle;
use phosphor::type_id::TypeIdNamed;

#[derive(Clone, Debug, PartialEq)]
enum Asset {
    Mesh(Vec<u32>),
    Texture(u32, u32),
}

type Load = fn(&str) -> Result<Rc<Asset>, String>;

fn mesh() -> TypeIdNamed {
    TypeIdNamed { id: 1, name: "Mesh" }
}

fn texture() -> TypeIdNamed {
    TypeIdNamed { id: 2, name: "Texture" }
}

fn load_mesh(path: &str) -> Result<Rc<Asset>, String> {
    if path.ends_with(".obj") {
        Ok(Rc::new(Asset::Mesh(vec![path.len() as u32])))
    } else {
        Err(format!("cannot read '{}'", path))
    }
}

fn load_texture(path: &str) -> Result<Rc<Asset>, String> {
    Ok(Rc::new(Asset::Texture(path.len() as u32, 1)))
}

fn second_mesh_loader(_path: &str) -> Result<Rc<Asset>, String> {
    Err("the first loader of a type is the one used".to_string())
}

fn loaders() -> Vec<AssetLoader<Load>> {
    vec![
        AssetLoader { id: mesh(), loader: load_mesh as Load },
        AssetLoader { id: texture(), loader: load_texture as Load },
        AssetLoader { id: mesh(), loader: second_mesh_loader as Load },
    ]
}

#[test]
fn new_assets_hold_nothing() {
    let assets: Assets<Asset> = Assets::new();
    assert!(assets.get(mesh()).is_empty());
    assert!(assets.find(mesh(), "cube.obj").is_none());
    assert!(assets.handles.is_empty());
}

#[test]
fn load_reads_from_the_assets_directory() {
    let mut assets: Assets<Asset> = Assets::new();
    let handle = assets.load(&loaders(), mesh(), "cube.obj").unwrap();
    assert_eq!(handle.name, "cube.obj");
    assert_eq!(handle.get(), &Asset::Mesh(vec!["assets/cube.obj".len() as u32]));
    let tex = assets.load(&loaders(), texture(), "brick.jpg").unwrap();
    assert_eq!(tex.get(), &Asset::Texture("assets/brick.jpg".len() as u32, 1));
}

#[test]
fn load_twice_loads_once() {
    let mut assets: Assets<Asset> = Assets::new();
    let calls = Rc::new(Cell::new(0));
    let counted = {
        let calls = calls.clone();
        move |path: &str| -> Result<Rc<Asset>, String> {
            calls.set(calls.get() + 1);
            load_mesh(path)
        }
    };
    let counting = vec![AssetLoader { id: mesh(), loader: counted }];
    let first = assets.load(&counting, mesh(), "cube.obj").unwrap();
    let second = assets.load(&counting, mesh(), "cube.obj").unwrap();
    assert_eq!(calls.get(), 1);
    assert!(Rc::ptr_eq(&first.data, &second.data));
    assert_eq!(assets.get(mesh()).len(), 1);
    assert!(assets.load(&counting, mesh(), "ball.obj").is_ok());
    assert_eq!(calls.get(), 2);
}

#[test]
fn failed_load_hands_the_error_on_and_keeps_nothing() {
    let mut assets: Assets<Asset> = Assets::new();
    let failed = assets.load(&loaders(), mesh(), "cube.png");
    assert_eq!(failed.err(), Some("cannot read 'assets/cube.png'".to_string()));
    assert!(assets.get(mesh()).is_empty());
    assert!(assets.find(mesh(), "cube.png").is_none());
}

#[test]
fn get_lists_the_assets_of_one_type_in_order() {
    let mut assets: Assets<Asset> = Assets::new();
    assets.load(&loaders(), mesh(), "b.obj").unwrap();
    assets.load(&loaders(), texture(), "t.png").unwrap();
    assets.load(&loaders(), mesh(), "a.obj").unwrap();
    let meshes = assets.get(mesh());
    let names: Vec<&str> = meshes.iter().map(|h| h.name.as_str()).collect();
    assert_eq!(names, vec!["b.obj", "a.obj"]);
    assert_eq!(assets.get(texture()).len(), 1);
    assert!(assets.get(TypeIdNamed { id: 3, name: "Sound" }).is_empty());
}

#[test]
fn same_name_under_two_types_is_two_assets() {
    let mut assets: Assets<Asset> = Assets::new();
    let as_mesh = assets.load(&loaders(), mesh(), "thing.obj").unwrap();
    let as_texture = assets.load(&loaders(), texture(), "thing.obj").unwrap();
    assert!(matches!(as_mesh.get(), Asset::Mesh(_)));
    assert!(matches!(as_texture.get(), Asset::Texture(_, _)));
}

#[test]
fn store_and_find() {
    let mut assets: Assets<Asset> = Assets::new();
    let stored = assets.store(mesh(), "made", Rc::new(Asset::Mesh(vec![1, 2, 3])));
    assert_eq!(stored.name, "made");
    let found = assets.find(mesh(), "made").unwrap();
    assert!(Rc::ptr_eq(&stored.data, &found.data));
    assert!(assets.find(texture(), "made").is_none());
    assert!(assets.find(mesh(), "other").is_none());
}

#[test]
fn loader_for_finds_the_first_loader_of_a_type() {
    let all = loaders();
    assert_eq!(Assets::<Asset>::loader_for(&all, mesh()), Some(0));
    assert_eq!(Assets::<Asset>::loader_for(&all, texture()), Some(1));
    assert_eq!(Assets::<Asset>::loader_for(&all, TypeIdNamed { id: 3, name: "Sound" }), None);
}

#[test]
fn clone_of_a_handle_shares_the_asset() {
    let handle = Handle::new("cube".to_string(), Rc::new(Asset::Texture(2, 2)));
    let copy = handle.clone();
    assert_eq!(copy.name, "cube");
    assert!(Rc::ptr_eq(&handle.data, &copy.data));
    assert_eq!(Rc::strong_count(&handle.data), 2);
}

#[test]
fn downcast_keeps_the_name_and_shares_the_asset() {
    let data: Rc<dyn Any> = Rc::new(Asset::Texture(64, 32));
    let handle: Handle<dyn Any> = Handle::new("brick".to_string(), data);
    let typed: Handle<Asset> = handle.downcast(|asset: Rc<dyn Any>| asset.downcast::<Asset>());
    assert_eq!(typed.name, "brick");
    assert_eq!(typed.get(), &Asset::Texture(64, 32));
    assert_eq!(handle.name, "brick");
    assert_eq!(Rc::strong_count(&handle.data), 2);
    assert_eq!(Rc::strong_count(&typed.data), 2);
    drop(handle);
    assert_eq!(Rc::strong_count(&typed.data), 1);
    assert_eq!(typed.get(), &Asset::Texture(64, 32));
}

#[test]
fn downcast_hands_on_what_the_cast_makes() {
    let handle = Handle::new("brick".to_string(), Rc::new(Asset::Texture(64, 32)));
    let size: Handle<(u32, u32)> = handle.downcast(|asset: Rc<Asset>| match *asset {
        Asset::Texture(w, h) => Ok(Rc::new((w, h))),
        Asset::Mesh(_) => Err(asset),
    });
    assert_eq!(size.name, "brick");
    assert_eq!(size.get(), &(64, 32));
}

#[test]
fn assets_of_any_type_are_kept_behind_one_pointer_type() {
    let mut assets: Assets<dyn Any> = Assets::new();
    let data: Rc<dyn Any> = Rc::new(7u32);
    let stored = assets.store(mesh(), "seven", data);
    let found = assets.find(mesh(), "seven").unwrap();
    assert!(found.data.is::<u32>());
    let typed: Handle<u32> = found.downcast(|asset: Rc<dyn Any>| asset.downcast::<u32>());
    assert_eq!(*typed.get(), 7);
    assert_eq!(Rc::strong_count(&stored.data), 4);
}

#[test]
fn only_the_first_loader_of_a_type_is_called_and_only_on_a_miss() {
    fn never(path: &str) -> Result<Rc<Asset>, String> {
        panic!("a loader that is not the first of its type was called on '{}'", path)
    }
    let mut assets: Assets<Asset> = Assets::new();
    let two = vec![
        AssetLoader { id: texture(), loader: never as Load },
        AssetLoader { id: mesh(), loader: load_mesh as Load },
        AssetLoader { id: mesh(), loader: never as Load },
    ];
    assert!(assets.load(&two, mesh(), "cube.obj").is_ok());
    assets.store(texture(), "held", Rc::new(Asset::Texture(1, 1)));
    let held = assets.load(&two, texture(), "held").unwrap();
    assert_eq!(held.get(), &Asset::Texture(1, 1));
}
