//! Scenes: the components of a world as bytes, grouped by entity.
//!
//! How one component becomes bytes, and bytes a component, is the business
//! of the loaders that the caller registers, one for each type that can be
//! kept. A whole scene becomes bytes, and bytes a scene, through bincode.
//! Reading and writing files is the caller's business.

use vstd::prelude::*;
use bincode::ErrorKind;
use crate::assets::Assets;
use crate::ecs::Component;
use crate::ecs::World;
use crate::model::WorldView;
use crate::type_id::TypeIdNamed;

verus! {

/// How components of one type are turned into bytes and back.
pub struct Loader<SV, LD> {
    pub id: TypeIdNamed,
    pub save: SV,
    pub load: LD,
}

/// The components of a world as bytes: one group for each entity, in the
/// order in which the entities were first met, each with the key of the
/// type and the bytes of every component, in the order in which they were
/// met.
#[derive(Clone, PartialEq, Eq, Debug)]
pub struct Scene {
    pub entities: Vec<(u64, Vec<(u64, Vec<u8>)>)>,
}

/// A record as mathematics: the key of the type, and the bytes.
pub open spec fn record_view() -> spec_fn((u64, Vec<u8>)) -> (u64, Seq<u8>) {
    |record: (u64, Vec<u8>)| (record.0, record.1@)
}

/// A group as mathematics: the entity, and its records.
pub open spec fn group_view() -> spec_fn((u64, Vec<(u64, Vec<u8>)>)) -> (
    u64,
    Seq<(u64, Seq<u8>)>,
) {
    |group: (u64, Vec<(u64, Vec<u8>)>)| (group.0, group.1@.map_values(record_view()))
}

impl View for Scene {
    type V = Seq<(u64, Seq<(u64, Seq<u8>)>)>;

    open spec fn view(&self) -> Seq<(u64, Seq<(u64, Seq<u8>)>)> {
        self.entities@.map_values(group_view())
    }
}

/// bincode's `ErrorKind`, carried through as an opaque value.
#[verifier::external_type_specification]
#[verifier::external_body]
pub struct ExErrorKind(ErrorKind);

/// The bytes that bincode's `serialize` makes of the groups of a scene.
pub uninterp spec fn bincode_of(groups: Seq<(u64, Seq<(u64, Seq<u8>)>)>) -> Seq<u8>;

/// The groups that bincode's `deserialize` reads from bytes; nothing where
/// it finds the bytes to be no groups.
pub uninterp spec fn bincode_read(bytes: Seq<u8>) -> Option<Seq<(u64, Seq<(u64, Seq<u8>)>)>>;

/// bincode's `serialize` on the groups of a scene. It succeeds on all of
/// them: it writes to memory and sets no limit on the size, and a list,
/// which is all that these groups are made of, always has a length to
/// write. The bytes are the ones that bincode makes of these groups, and of
/// equal groups every time.
#[verifier::external_body]
fn encode(groups: &Vec<(u64, Vec<(u64, Vec<u8>)>)>) -> (outcome: Result<Vec<u8>, Box<ErrorKind>>)
    ensures
        outcome is Ok,
        outcome matches Ok(bytes) ==> bytes@ == bincode_of(groups@.map_values(group_view())),
{
    bincode::serialize(groups)
}

/// bincode's `deserialize` to the groups of a scene. Whether it succeeds,
/// and with which groups, depends on the bytes alone.
#[verifier::external_body]
fn decode(bytes: &[u8]) -> (outcome: Result<Vec<(u64, Vec<(u64, Vec<u8>)>)>, Box<ErrorKind>>)
    ensures
        match outcome {
            Ok(groups) => bincode_read(bytes@) == Some(groups@.map_values(group_view())),
            Err(_) => bincode_read(bytes@) is None,
        },
{
    bincode::deserialize(bytes)
}

/// `to_string` on an error of bincode: its message, as its `Display` impl
/// writes it. Nothing is claimed about the text.
#[verifier::external_body]
fn describe(error: &ErrorKind) -> (text: String) {
    error.to_string()
}

/// Why a scene could not be turned into bytes, or bytes into a scene. Each
/// holds the message of the encoder.
#[derive(Clone, PartialEq, Eq, Debug)]
pub enum SceneError {
    /// The scene could not be encoded.
    Encode(String),
    /// The bytes are no scene.
    Decode(String),
}

/// What `Scene::to_bytes` returns for each outcome of the encoder: its
/// bytes, or its message as an error of encoding.
pub fn encoded(outcome: Result<Vec<u8>, Box<ErrorKind>>) -> (bytes: Result<Vec<u8>, SceneError>)
    ensures
        match outcome {
            Ok(made) => bytes == Ok::<Vec<u8>, SceneError>(made),
            Err(_) => bytes matches Err(SceneError::Encode(_)),
        },
{
    match outcome {
        Ok(made) => Ok(made),
        Err(error) => Err(SceneError::Encode(describe(&*error))),
    }
}

/// What `Scene::from_bytes` returns for each outcome of the decoder: a scene
/// of its groups, or its message as an error of decoding.
pub fn decoded(outcome: Result<Vec<(u64, Vec<(u64, Vec<u8>)>)>, Box<ErrorKind>>) -> (scene: Result<
    Scene,
    SceneError,
>)
    ensures
        match outcome {
            Ok(groups) => scene matches Ok(read) && read.entities == groups,
            Err(_) => scene matches Err(SceneError::Decode(_)),
        },
{
    match outcome {
        Ok(groups) => Ok(Scene { entities: groups }),
        Err(error) => Err(SceneError::Decode(describe(&*error))),
    }
}

/// Whether `at` is the position of the group of `entity` in `groups`: the
/// first group under that id.
pub open spec fn group_at(groups: Seq<(u64, Seq<(u64, Seq<u8>)>)>, entity: u64, at: int) -> bool {
    &&& 0 <= at < groups.len()
    &&& groups[at].0 == entity
    &&& forall|j: int| 0 <= j < at ==> (#[trigger] groups[j]).0 != entity
}

/// The groups after one more record of `entity`: the record goes to the end
/// of the entity's group, and an entity that had no group gets one at the
/// end.
pub open spec fn added(
    groups: Seq<(u64, Seq<(u64, Seq<u8>)>)>,
    entity: u64,
    key: u64,
    bytes: Seq<u8>,
) -> Seq<(u64, Seq<(u64, Seq<u8>)>)> {
    if exists|at: int| group_at(groups, entity, at) {
        let at = choose|at: int| group_at(groups, entity, at);
        groups.update(at, (entity, groups[at].1.push((key, bytes))))
    } else {
        groups.push((entity, seq![(key, bytes)]))
    }
}

/// The groups that a list of records makes: entity, key of the type, bytes.
pub open spec fn grouped(records: Seq<(usize, u64, Vec<u8>)>) -> Seq<(u64, Seq<(u64, Seq<u8>)>)>
    decreases records.len(),
{
    if records.len() == 0 {
        Seq::empty()
    } else {
        added(
            grouped(records.drop_last()),
            records.last().0 as u64,
            records.last().1,
            records.last().2@,
        )
    }
}

/// Whether `at` is the position of the loader for the type with key `key`:
/// the first loader that is registered for it.
pub open spec fn loader_at<SV, LD>(loaders: Seq<Loader<SV, LD>>, key: u64, at: int) -> bool {
    &&& 0 <= at < loaders.len()
    &&& loaders[at].id.id == key
    &&& forall|j: int| 0 <= j < at ==> (#[trigger] loaders[j]).id.id != key
}

/// Whether a loader is registered for the type with key `key`.
pub open spec fn has_loader<SV, LD>(loaders: Seq<Loader<SV, LD>>, key: u64) -> bool {
    exists|at: int| loader_at(loaders, key, at)
}

/// The position of the loader for the type with key `key`.
pub open spec fn the_loader<SV, LD>(loaders: Seq<Loader<SV, LD>>, key: u64) -> int {
    choose|at: int| loader_at(loaders, key, at)
}

/// The predicate "no loader is registered for this type".
pub open spec fn unsavable<SV, LD>(loaders: Seq<Loader<SV, LD>>) -> spec_fn(TypeIdNamed) -> bool {
    |kind: TypeIdNamed| !has_loader(loaders, kind.id)
}

/// A slot of a type that can be kept: the entity, the component, the key of
/// the type and the position of its loader.
pub struct Savable<C> {
    pub entity: usize,
    pub component: Component<C>,
    pub key: u64,
    pub loader: int,
}

/// The slots of the type `kind` as slots to keep with the loader at
/// `loader`.
pub open spec fn savable_of<C>(
    slots: Seq<(usize, Component<C>)>,
    key: u64,
    loader: int,
) -> Seq<Savable<C>> {
    Seq::new(
        slots.len(),
        |i: int| Savable { entity: slots[i].0, component: slots[i].1, key, loader },
    )
}

/// The slots to keep among the first `upto` types of a world: type by type
/// in the order of the list of types, leaving out the types without a
/// loader, and within a type in the order of its slots.
pub open spec fn savable<C, R, S, SV, LD>(
    world: WorldView<C, R, S>,
    loaders: Seq<Loader<SV, LD>>,
    upto: int,
) -> Seq<Savable<C>>
    decreases upto,
{
    if upto <= 0 {
        Seq::empty()
    } else {
        let before = savable(world, loaders, upto - 1);
        let kind = world.kinds[upto - 1];
        if has_loader(loaders, kind.id) {
            before + savable_of(world.bucket(kind.id), kind.id, the_loader(loaders, kind.id))
        } else {
            before
        }
    }
}

/// Whether each of `slots` can be handed to the saver of its loader.
pub open spec fn can_save<C, SV: Fn(&Component<C>) -> Vec<u8>, LD>(
    slots: Seq<Savable<C>>,
    loaders: Seq<Loader<SV, LD>>,
) -> bool {
    forall|i: int|
        0 <= i < slots.len() ==> call_requires(
            loaders[(#[trigger] slots[i]).loader].save,
            (&slots[i].component,),
        )
}

/// Whether each record of `groups` whose type has a loader can be handed to
/// that loader, together with `assets`.
pub open spec fn can_load<C, A: ?Sized, SV, LD: Fn(&Vec<u8>, &Assets<A>) -> Component<C>>(
    groups: Seq<(u64, Vec<(u64, Vec<u8>)>)>,
    loaders: Seq<Loader<SV, LD>>,
    assets: &Assets<A>,
) -> bool {
    forall|g: int, r: int|
        0 <= g < groups.len() && 0 <= r < groups[g].1@.len() && has_loader(
            loaders,
            (#[trigger] groups[g].1@[r]).0,
        ) ==> call_requires(
            loaders[the_loader(loaders, groups[g].1@[r].0)].load,
            (&groups[g].1@[r].1, assets),
        )
}

/// The slots to keep among the first types are the first of the slots to
/// keep among more types.
pub proof fn lemma_savable_grows<C, R, S, SV, LD>(
    world: WorldView<C, R, S>,
    loaders: Seq<Loader<SV, LD>>,
    fewer: int,
    more: int,
)
    requires
        0 <= fewer <= more,
    ensures
        savable(world, loaders, fewer).is_prefix_of(savable(world, loaders, more)),
    decreases more - fewer,
{
    if fewer < more {
        lemma_savable_grows(world, loaders, fewer, more - 1);
        let a = savable(world, loaders, fewer);
        let b = savable(world, loaders, more - 1);
        let c = savable(world, loaders, more);
        assert(b.is_prefix_of(c));
        assert forall|i: int| 0 <= i < a.len() implies a[i] == c[i] by {
            assert(a[i] == b[i]);
            assert(b[i] == c[i]);
        }
    }
}

/// Whether `records` holds, slot for slot, what the loaders made of
/// `slots`.
pub open spec fn encodes<C, SV: Fn(&Component<C>) -> Vec<u8>, LD>(
    slots: Seq<Savable<C>>,
    loaders: Seq<Loader<SV, LD>>,
    records: Seq<(usize, u64, Vec<u8>)>,
) -> bool {
    &&& records.len() == slots.len()
    &&& forall|i: int|
        0 <= i < records.len() ==> {
            &&& (#[trigger] records[i]).0 == slots[i].entity
            &&& records[i].1 == slots[i].key
            &&& call_ensures(loaders[slots[i].loader].save, (&slots[i].component,), records[i].2)
        }
}

/// Whether `items` holds what the loaders made of `records`, in order:
/// for each record whose type has a loader, the tag of that loader and the
/// component that it made of the bytes; nothing for a record whose type has
/// none.
pub open spec fn decodes<C, A: ?Sized, SV, LD: Fn(&Vec<u8>, &Assets<A>) -> Component<C>>(
    records: Seq<(u64, Vec<u8>)>,
    loaders: Seq<Loader<SV, LD>>,
    assets: &Assets<A>,
    items: Seq<(TypeIdNamed, Component<C>)>,
) -> bool
    decreases records.len(),
{
    if records.len() == 0 {
        items.len() == 0
    } else if has_loader(loaders, records.last().0) {
        let loader = loaders[the_loader(loaders, records.last().0)];
        &&& items.len() > 0
        &&& items.last().0 == loader.id
        &&& call_ensures(loader.load, (&records.last().1, assets), items.last().1)
        &&& decodes(records.drop_last(), loaders, assets, items.drop_last())
    } else {
        decodes(records.drop_last(), loaders, assets, items)
    }
}

/// Whether `decoded` holds, group for group, what the loaders made of the
/// groups of a scene.
pub open spec fn decodes_all<C, A: ?Sized, SV, LD: Fn(&Vec<u8>, &Assets<A>) -> Component<C>>(
    groups: Seq<(u64, Vec<(u64, Vec<u8>)>)>,
    loaders: Seq<Loader<SV, LD>>,
    assets: &Assets<A>,
    decoded: Seq<Seq<(TypeIdNamed, Component<C>)>>,
) -> bool {
    &&& decoded.len() == groups.len()
    &&& forall|g: int|
        0 <= g < groups.len() ==> decodes((#[trigger] groups[g]).1@, loaders, assets, decoded[g])
}

/// The world after `items` were attached to entity `id`, in order.
pub open spec fn attached<C, R, S>(
    world: WorldView<C, R, S>,
    id: usize,
    items: Seq<(TypeIdNamed, Component<C>)>,
) -> WorldView<C, R, S>
    decreases items.len(),
{
    if items.len() == 0 {
        world
    } else {
        attached(world, id, items.drop_last()).insert(id, items.last().0, items.last().1)
    }
}

/// The world after one entity was issued for each group, in order, and the
/// items of the group were attached to it.
pub open spec fn rebuilt<C, R, S>(
    world: WorldView<C, R, S>,
    groups: Seq<Seq<(TypeIdNamed, Component<C>)>>,
) -> WorldView<C, R, S>
    decreases groups.len(),
{
    if groups.len() == 0 {
        world
    } else {
        let before = rebuilt(world, groups.drop_last());
        attached(before.spawn_empty(), before.spawned as usize, groups.last())
    }
}

/// The items of each group.
pub open spec fn items_of<C>() -> spec_fn(Vec<(TypeIdNamed, Component<C>)>) -> Seq<
    (TypeIdNamed, Component<C>),
> {
    |group: Vec<(TypeIdNamed, Component<C>)>| group@
}

/// The position of the first loader in `loaders` for the type with key
/// `key`.
pub fn find_loader<SV, LD>(loaders: &Vec<Loader<SV, LD>>, key: u64) -> (at: Option<usize>)
    ensures
        match at {
            Some(at) => loader_at(loaders@, key, at as int) && at == the_loader(loaders@, key),
            None => !has_loader(loaders@, key),
        },
{
    let mut i: usize = 0;
    while i < loaders.len()
        invariant
            i <= loaders.len(),
            forall|j: int| 0 <= j < i ==> (#[trigger] loaders@[j]).id.id != key,
        decreases loaders.len() - i,
    {
        if loaders[i].id.id() == key {
            assert(loader_at(loaders@, key, i as int));
            return Some(i);
        }
        i += 1;
    }
    None
}

impl Scene {
    /// The scene of no entity.
    pub fn new() -> (scene: Scene)
        ensures
            scene@ == Seq::<(u64, Seq<(u64, Seq<u8>)>)>::empty(),
    {
        let scene = Scene { entities: Vec::new() };
        proof {
            assert(scene@ =~= Seq::empty());
        }
        scene
    }

    /// This scene as bytes, in the encoding of bincode. Every scene has
    /// its bytes.
    pub fn to_bytes(&self) -> (bytes: Result<Vec<u8>, SceneError>)
        ensures
            bytes matches Ok(made) && made@ == bincode_of(self@),
    {
        encoded(encode(&self.entities))
    }

    /// The scene that `bytes` encode. There is one exactly where bincode
    /// reads the bytes as the groups of a scene.
    pub fn from_bytes(bytes: &[u8]) -> (scene: Result<Scene, SceneError>)
        ensures
            match scene {
                Ok(read) => bincode_read(bytes@) == Some(read@),
                Err(error) => bincode_read(bytes@) is None && error is Decode,
            },
    {
        decoded(decode(bytes))
    }

    /// Adds one record to the group of `entity`.
    pub fn push(&mut self, entity: usize, key: u64, bytes: Vec<u8>)
        ensures
            final(self)@ == added(old(self)@, entity as u64, key, bytes@),
    {
        let ghost before = self@;
        let owner = entity as u64;
        let mut i: usize = 0;
        while i < self.entities.len()
            invariant
                i <= self.entities.len(),
                self.entities == old(self).entities,
                before == self@,
                before.len() == self.entities@.len(),
                owner == entity as u64,
                forall|j: int| 0 <= j < i ==> (#[trigger] before[j]).0 != owner,
            decreases self.entities.len() - i,
        {
            assert(before[i as int] == group_view()(self.entities@[i as int]));
            if self.entities[i].0 == owner {
                assert(group_at(before, owner, i as int));
                let ghost held = self.entities@;
                let mut group = self.entities.remove(i);
                group.1.push((key, bytes));
                self.entities.insert(i, group);
                proof {
                    let at = choose|at: int| group_at(before, owner, at);
                    assert(at == i);
                    assert(self.entities@ =~= held.update(i as int, group));
                    assert(group.1@.map_values(record_view()) =~= held[i as int].1@.map_values(
                        record_view(),
                    ).push((key, bytes@)));
                    assert(self@ =~= before.update(
                        i as int,
                        (owner, before[i as int].1.push((key, bytes@))),
                    ));
                }
                return ;
            }
            i += 1;
        }
        let mut records: Vec<(u64, Vec<u8>)> = Vec::new();
        records.push((key, bytes));
        self.entities.push((owner, records));
        proof {
            assert(records@.map_values(record_view()) =~= seq![(key, bytes@)]);
            assert(self@ =~= before.push((owner, seq![(key, bytes@)])));
        }
    }

    /// The scene of a world: every component whose type has a loader, as the
    /// bytes that the loader makes of it, grouped by entity. With it come the
    /// types that were left out because no loader is registered for them.
    pub fn save<C, R, S, SV: Fn(&Component<C>) -> Vec<u8>, LD>(
        world: &World<C, R, S>,
        loaders: &Vec<Loader<SV, LD>>,
    ) -> (saved: (Scene, Vec<TypeIdNamed>))
        requires
            can_save(savable(world@, loaders@, world@.kinds.len() as int), loaders@),
        ensures
            exists|records: Seq<(usize, u64, Vec<u8>)>|
                #[trigger] encodes(
                    savable(world@, loaders@, world@.kinds.len() as int),
                    loaders@,
                    records,
                ) && saved.0@ == grouped(records),
            saved.1@ == world@.kinds.filter(unsavable(loaders@)),
    {
        let kinds = world.kinds();
        let mut scene = Scene::new();
        let mut unsaved: Vec<TypeIdNamed> = Vec::new();
        let ghost mut records: Seq<(usize, u64, Vec<u8>)> = Seq::empty();
        let mut k: usize = 0;
        proof {
            reveal(Seq::filter);
            assert(kinds@.take(0) =~= Seq::empty());
        }
        while k < kinds.len()
            invariant
                k <= kinds.len(),
                kinds@ == world@.kinds,
                can_save(savable(world@, loaders@, world@.kinds.len() as int), loaders@),
                encodes(savable(world@, loaders@, k as int), loaders@, records),
                scene@ == grouped(records),
                unsaved@ == kinds@.take(k as int).filter(unsavable(loaders@)),
            decreases kinds.len() - k,
        {
            let kind = kinds[k];
            proof {
                assert(kinds@.take(k + 1) =~= kinds@.take(k as int).push(kind));
                kinds@.take(k as int).lemma_filter_push(kind, unsavable(loaders@));
            }
            match find_loader(loaders, kind.id()) {
                Some(at) => {
                    let slots = world.query(kind);
                    let ghost done = savable(world@, loaders@, k as int);
                    let ghost fresh = savable_of(world@.bucket(kind.id), kind.id, at as int);
                    let mut i: usize = 0;
                    let ghost all = savable(world@, loaders@, world@.kinds.len() as int);
                    proof {
                        assert(done + fresh.take(0) =~= done);
                        assert(savable(world@, loaders@, k + 1) == done + fresh);
                        lemma_savable_grows(world@, loaders@, k + 1, world@.kinds.len() as int);
                    }
                    while i < slots.len()
                        invariant
                            i <= slots.len(),
                            at < loaders.len(),
                            slots@.len() == world@.bucket(kind.id).len(),
                            forall|j: int|
                                0 <= j < slots@.len() ==> (#[trigger] slots@[j]).0.id
                                    == world@.bucket(kind.id)[j].0 && *slots@[j].1
                                    == world@.bucket(kind.id)[j].1,
                            all == savable(world@, loaders@, world@.kinds.len() as int),
                            can_save(all, loaders@),
                            (done + fresh).is_prefix_of(all),
                            fresh == savable_of(world@.bucket(kind.id), kind.id, at as int),
                            encodes(done + fresh.take(i as int), loaders@, records),
                            scene@ == grouped(records),
                        decreases slots.len() - i,
                    {
                        proof {
                            let here = done.len() + i;
                            assert((done + fresh)[here] == fresh[i as int]);
                            assert(all[here] == fresh[i as int]);
                            assert(*slots@[i as int].1 == all[here].component);
                        }
                        let bytes = (loaders[at].save)(slots[i].1);
                        proof {
                            let record = (slots@[i as int].0.id, kind.id, bytes);
                            assert(done + fresh.take(i + 1) =~= (done + fresh.take(i as int)).push(
                                fresh[i as int],
                            ));
                            assert(records.push(record).drop_last() =~= records);
                            records = records.push(record);
                        }
                        scene.push(slots[i].0.id, kind.id(), bytes);
                        i += 1;
                    }
                    proof {
                        assert(fresh.take(fresh.len() as int) =~= fresh);
                    }
                },
                None => {
                    unsaved.push(kind);
                },
            }
            k += 1;
        }
        proof {
            assert(kinds@.take(kinds@.len() as int) =~= kinds@);
        }
        (scene, unsaved)
    }

    /// What the loaders make of this scene: group for group, the components
    /// of the records whose type has a loader, each under the tag of its
    /// loader.
    pub fn decode<C, A: ?Sized, SV, LD: Fn(&Vec<u8>, &Assets<A>) -> Component<C>>(
        &self,
        loaders: &Vec<Loader<SV, LD>>,
        assets: &Assets<A>,
    ) -> (decoded: Vec<Vec<(TypeIdNamed, Component<C>)>>)
        requires
            can_load(self.entities@, loaders@, assets),
        ensures
            decodes_all(self.entities@, loaders@, assets, decoded@.map_values(items_of())),
    {
        let mut decoded: Vec<Vec<(TypeIdNamed, Component<C>)>> = Vec::new();
        let mut g: usize = 0;
        while g < self.entities.len()
            invariant
                g <= self.entities.len(),
                decoded@.len() == g,
                can_load(self.entities@, loaders@, assets),
                forall|h: int|
                    0 <= h < g ==> decodes(
                        (#[trigger] self.entities@[h]).1@,
                        loaders@,
                        assets,
                        decoded@[h]@,
                    ),
            decreases self.entities.len() - g,
        {
            let records = &self.entities[g].1;
            let mut items: Vec<(TypeIdNamed, Component<C>)> = Vec::new();
            let mut r: usize = 0;
            proof {
                assert(records@.take(0) =~= Seq::empty());
            }
            while r < records.len()
                invariant
                    r <= records.len(),
                    g < self.entities.len(),
                    records@ == self.entities@[g as int].1@,
                    can_load(self.entities@, loaders@, assets),
                    decodes(records@.take(r as int), loaders@, assets, items@),
                decreases records.len() - r,
            {
                proof {
                    assert(records@.take(r + 1).drop_last() =~= records@.take(r as int));
                    assert(records@.take(r + 1).last() == records@[r as int]);
                }
                match find_loader(loaders, records[r].0) {
                    Some(at) => {
                        proof {
                            assert(has_loader(
                                loaders@,
                                self.entities@[g as int].1@[r as int].0,
                            ));
                        }
                        let component = (loaders[at].load)(&records[r].1, assets);
                        let ghost before = items@;
                        items.push((loaders[at].id, component));
                        proof {
                            assert(items@.drop_last() =~= before);
                        }
                    },
                    None => {},
                }
                r += 1;
            }
            proof {
                assert(records@.take(records@.len() as int) =~= records@);
            }
            decoded.push(items);
            g += 1;
        }
        proof {
            assert forall|h: int| 0 <= h < self.entities@.len() implies decodes(
                (#[trigger] self.entities@[h]).1@,
                loaders@,
                assets,
                decoded@.map_values(items_of())[h],
            ) by {
                assert(decoded@.map_values(items_of())[h] == decoded@[h]@);
            }
        }
        decoded
    }

    /// Empties the store of `world`, then issues one entity for each group,
    /// in order, and attaches the items of the group to it.
    pub fn restore<C, R, S>(world: &mut World<C, R, S>, groups: Vec<Vec<(TypeIdNamed, Component<C>)>>)
        requires
            old(world)@.spawned + groups.len() <= usize::MAX,
        ensures
            final(world).wf(),
            final(world)@ == rebuilt(old(world)@.clear(), groups@.map_values(items_of())),
    {
        world.clear();
        let ghost all = groups@.map_values(items_of());
        proof {
            assert(all.take(0) =~= Seq::empty());
        }
        for group in it: groups
            invariant
                it.seq() == groups@,
                all == groups@.map_values(items_of()),
                world.wf(),
                world@.spawned == old(world)@.spawned + it.index(),
                old(world)@.spawned + groups.len() <= usize::MAX,
                world@ == rebuilt(old(world)@.clear(), all.take(it.index() as int)),
        {
            let ghost before = world@;
            let ghost items = group@;
            proof {
                let n = it.index() as int;
                assert(group == groups@[n]);
                assert(all.take(n + 1).drop_last() =~= all.take(n));
                assert(all.take(n + 1).last() == items);
                assert(items.take(0) =~= Seq::empty());
            }
            let entity = world.spawn_empty();
            for item in jt: group
                invariant
                    jt.seq() == items,
                    world.wf(),
                    entity.id == before.spawned,
                    world@.spawned == before.spawned + 1,
                    world@ == attached(before.spawn_empty(), entity.id, items.take(jt.index() as int)),
            {
                proof {
                    let m = jt.index() as int;
                    assert(item == items[m]);
                    assert(items.take(m + 1).drop_last() =~= items.take(m));
                    assert(items.take(m + 1).last() == item);
                }
                entity.insert(world, item.0, item.1);
            }
            proof {
                assert(items.take(items.len() as int) =~= items);
            }
        }
        proof {
            assert(all.take(all.len() as int) =~= all);
        }
    }

    /// Puts this scene in the place of what `world` holds: the store is
    /// emptied, and each group comes back as a new entity with the
    /// components that the loaders make of its records.
    pub fn load<C, R, S, A: ?Sized, SV, LD: Fn(&Vec<u8>, &Assets<A>) -> Component<C>>(
        &self,
        world: &mut World<C, R, S>,
        loaders: &Vec<Loader<SV, LD>>,
        assets: &Assets<A>,
    )
        requires
            old(world)@.spawned + self.entities.len() <= usize::MAX,
            can_load(self.entities@, loaders@, assets),
        ensures
            final(world).wf(),
            exists|decoded: Seq<Seq<(TypeIdNamed, Component<C>)>>| #[trigger]
                decodes_all(self.entities@, loaders@, assets, decoded) && final(world)@ == rebuilt(
                    old(world)@.clear(),
                    decoded,
                ),
    {
        let decoded = self.decode(loaders, assets);
        Self::restore(world, decoded);
    }
}

} // verus!