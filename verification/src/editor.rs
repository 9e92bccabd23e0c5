//! What an editor keeps as resources between frames.

use vstd::prelude::*;
use crate::assets::Handle;
use crate::type_id::TypeIdNamed;

verus! {

/// The entity that is selected, by its id; none where nothing is selected.
#[derive(Clone, Copy, PartialEq, Eq, Debug)]
pub struct SelectedEntity(pub Option<usize>);

/// The name of the scene that is open.
#[derive(Clone, PartialEq, Eq, Debug)]
pub struct SceneName(pub String);

/// The asset that is selected, with the tag of its type; none where nothing
/// is selected.
pub struct SelectedAsset<A: ?Sized>(pub Option<(TypeIdNamed, Handle<A>)>);

} // verus!
