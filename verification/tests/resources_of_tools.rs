use std::rc::Rc;

use phosphor::assets::Handle;
use phosphor::audio::FmodOptions;
use phosphor::editor::SceneName;
use phosphor::editor::SelectedAsset;
use phosphor::editor::SelectedEntity;
use phosphor::type_id::TypeIdNamed;

#[test]
fn audio_plays_at_the_start_by_default() {
    assert!(FmodOptions::default().play_on_start);
    assert_eq!(FmodOptions::default(), FmodOptions { play_on_start: true });
    assert!(!FmodOptions { play_on_start: false }.play_on_start);
}

#[test]
fn editor_state_is_plain_data() {
    assert_eq!(SelectedEntity(None).0, None);
    assert_eq!(SelectedEntity(Some(3)), SelectedEntity(Some(3)));
    assert_eq!(SceneName("start.scene".to_string()).0, "start.scene");
    let nothing: SelectedAsset<u8> = SelectedAsset(None);
    assert!(nothing.0.is_none());
    let tag = TypeIdNamed { id: 1, name: "Mesh" };
    let picked = SelectedAsset(Some((tag, Handle::new("cube".to_string(), Rc::new(8u8)))));
    assert_eq!(picked.0.map(|(kind, handle)| (kind.name, handle.name)), Some(("Mesh", "cube".to_string())));
}
