//! What a scene renderer decides before it draws.
//!
//! Drawing itself is the caller's business. Which entities are drawn, which
//! are passed over, and which warnings are due, is decided here, from the
//! store alone.

use vstd::prelude::*;
use crate::ecs::Component;
use crate::ecs::Entity;
use crate::ecs::Stage;
use crate::ecs::World;
use crate::model::WorldView;
use crate::type_id::TypeIdNamed;

verus! {

/// How the colours of a frame are mapped to the screen.
#[derive(Clone, Copy, PartialEq, Eq, Structural, Debug)]
pub enum Tonemap {
    Aces,
    Filmic,
    Reinhard,
    Uncharted2,
}

impl Tonemap {
    /// The name of a tone map, as text.
    pub open spec fn spec_name(&self) -> Seq<char> {
        match self {
            Tonemap::Aces => "Aces"@,
            Tonemap::Filmic => "Filmic"@,
            Tonemap::Reinhard => "Reinhard"@,
            Tonemap::Uncharted2 => "Uncharted2"@,
        }
    }

    /// The name of a tone map, as it is shown.
    pub fn name(&self) -> (name: &'static str)
        ensures
            name@ == self.spec_name(),
    {
        match self {
            Tonemap::Aces => "Aces",
            Tonemap::Filmic => "Filmic",
            Tonemap::Reinhard => "Reinhard",
            Tonemap::Uncharted2 => "Uncharted2",
        }
    }

    /// The number by which a shader knows a tone map: its position in the
    /// list of tone maps, from 0.
    pub fn index(&self) -> (i: i32)
        ensures
            i == match self {
                Tonemap::Aces => 0i32,
                Tonemap::Filmic => 1i32,
                Tonemap::Reinhard => 2i32,
                Tonemap::Uncharted2 => 3i32,
            },
    {
        match self {
            Tonemap::Aces => 0,
            Tonemap::Filmic => 1,
            Tonemap::Reinhard => 2,
            Tonemap::Uncharted2 => 3,
        }
    }

    /// Every tone map, in the order of their numbers.
    pub fn all() -> (all: Vec<Tonemap>)
        ensures
            all@ == seq![Tonemap::Aces, Tonemap::Filmic, Tonemap::Reinhard, Tonemap::Uncharted2],
    {
        vec![Tonemap::Aces, Tonemap::Filmic, Tonemap::Reinhard, Tonemap::Uncharted2]
    }
}

/// Sets a scene renderer up in `world`: stores its state as the resource of
/// the type `tag`, and registers `draw` for the stage `Draw`.
pub fn scenerenderer<C, R, S>(
    world: &mut World<C, R, S>,
    tag: TypeIdNamed,
    state: R,
    draw: S,
    name: &'static str,
)
    ensures
        final(world)@ == old(world)@.add_resource(tag.id, state).add_system(
            Stage::Draw.index(),
            draw,
            name,
        ),
{
    world.add_resource(tag, state);
    world.add_system(Stage::Draw, draw, name);
}

/// The component types that a scene renderer looks at.
#[derive(Clone, Copy, Debug)]
pub struct SceneTags {
    pub camera: TypeIdNamed,
    pub transform: TypeIdNamed,
    pub model: TypeIdNamed,
    pub light: TypeIdNamed,
}

/// Something that keeps a part of the scene from being drawn.
#[derive(Clone, Copy, PartialEq, Eq, Structural, Debug)]
pub enum Warning {
    /// No entity has a camera.
    MissingCamera,
    /// The entity with the camera has no transform.
    MissingCameraTransform,
    /// The entity with this id has a model and no transform.
    MissingModelTransform(usize),
    /// The entity with this id has a light and no transform.
    MissingLightTransform(usize),
}

/// What to draw in one frame.
#[derive(Clone, PartialEq, Eq, Debug)]
pub struct Passes {
    /// The entity from whose camera the scene is seen.
    pub camera: Entity,
    /// The entity of each model to draw, in the order of the model slots.
    pub models: Vec<Entity>,
    /// The entity of each light to use, in the order of the light slots.
    pub lights: Vec<Entity>,
}

/// The predicate "the entity of this slot has a transform".
pub open spec fn placed<C, R, S>(world: WorldView<C, R, S>, transform: u64) -> spec_fn(
    (usize, Component<C>),
) -> bool {
    |slot: (usize, Component<C>)| world.owned(transform, slot.0).len() > 0
}

/// The predicate "the entity of this slot has no transform".
pub open spec fn unplaced<C, R, S>(world: WorldView<C, R, S>, transform: u64) -> spec_fn(
    (usize, Component<C>),
) -> bool {
    |slot: (usize, Component<C>)| world.owned(transform, slot.0).len() == 0
}

/// The entity of a slot.
pub open spec fn entity_of<C>() -> spec_fn((usize, Component<C>)) -> Entity {
    |slot: (usize, Component<C>)| Entity { id: slot.0 }
}

/// The warning that a model without a transform is due.
pub open spec fn model_warning<C>() -> spec_fn((usize, Component<C>)) -> Warning {
    |slot: (usize, Component<C>)| Warning::MissingModelTransform(slot.0)
}

/// The warning that a light without a transform is due.
pub open spec fn light_warning<C>() -> spec_fn((usize, Component<C>)) -> Warning {
    |slot: (usize, Component<C>)| Warning::MissingLightTransform(slot.0)
}

/// Whether a frame can be drawn: some entity has a camera, and the first
/// such entity has a transform.
pub open spec fn can_draw<C, R, S>(world: WorldView<C, R, S>, tags: SceneTags) -> bool {
    &&& world.bucket(tags.camera.id).len() > 0
    &&& world.owned(tags.transform.id, world.bucket(tags.camera.id)[0].0).len() > 0
}

/// The warnings that a frame is due, in the order in which a renderer meets
/// their causes: the missing camera, or its missing transform, or else the
/// models without a transform and then the lights without one.
pub open spec fn problems<C, R, S>(world: WorldView<C, R, S>, tags: SceneTags) -> Seq<Warning> {
    if world.bucket(tags.camera.id).len() == 0 {
        seq![Warning::MissingCamera]
    } else if !can_draw(world, tags) {
        seq![Warning::MissingCameraTransform]
    } else {
        world.bucket(tags.model.id).filter(unplaced(world, tags.transform.id)).map_values(
            model_warning(),
        ) + world.bucket(tags.light.id).filter(unplaced(world, tags.transform.id)).map_values(
            light_warning(),
        )
    }
}

/// The warnings among `due` that are given for the first time, where `seen`
/// are the ones given before: each cause is announced once.
pub open spec fn fresh(seen: Seq<Warning>, due: Seq<Warning>) -> Seq<Warning>
    decreases due.len(),
{
    if due.len() == 0 {
        Seq::empty()
    } else {
        let earlier = fresh(seen, due.drop_last());
        if seen.contains(due.last()) || earlier.contains(due.last()) {
            earlier
        } else {
            earlier.push(due.last())
        }
    }
}

/// The warnings that were given, each once.
#[derive(Clone, PartialEq, Eq, Debug)]
pub struct Warnings {
    pub seen: Vec<Warning>,
}

impl Warnings {
    /// No warning given yet.
    pub fn new() -> (warnings: Self)
        ensures
            warnings.seen@ == Seq::<Warning>::empty(),
    {
        Warnings { seen: Vec::new() }
    }

    /// Whether `warning` was given before.
    pub fn has(&self, warning: Warning) -> (seen: bool)
        ensures
            seen == self.seen@.contains(warning),
    {
        let mut i: usize = 0;
        while i < self.seen.len()
            invariant
                i <= self.seen.len(),
                forall|j: int| 0 <= j < i ==> self.seen@[j] != warning,
            decreases self.seen.len() - i,
        {
            if self.seen[i] == warning {
                return true;
            }
            i += 1;
        }
        false
    }

    /// Notes `warning`. Says whether this is the first time, which is when
    /// the caller should show it.
    pub fn warn_once(&mut self, warning: Warning) -> (first: bool)
        ensures
            first == !old(self).seen@.contains(warning),
            final(self).seen@ == if first {
                old(self).seen@.push(warning)
            } else {
                old(self).seen@
            },
    {
        if self.has(warning) {
            false
        } else {
            self.seen.push(warning);
            true
        }
    }

    /// Notes every warning of `due`, and hands back those that are new, in
    /// order.
    pub fn announce(&mut self, due: &Vec<Warning>) -> (news: Vec<Warning>)
        ensures
            news@ == fresh(old(self).seen@, due@),
            final(self).seen@ == old(self).seen@ + news@,
    {
        let mut news: Vec<Warning> = Vec::new();
        let mut i: usize = 0;
        proof {
            assert(due@.take(0) =~= Seq::empty());
            assert(self.seen@ =~= old(self).seen@ + news@);
        }
        while i < due.len()
            invariant
                i <= due.len(),
                news@ == fresh(old(self).seen@, due@.take(i as int)),
                self.seen@ == old(self).seen@ + news@,
            decreases due.len() - i,
        {
            let ghost before = self.seen@;
            let ghost earlier = news@;
            proof {
                assert(due@.take(i + 1).drop_last() =~= due@.take(i as int));
                assert(due@.take(i + 1).last() == due@[i as int]);
                if before.contains(due@[i as int]) {
                    let at = choose|at: int| 0 <= at < before.len() && before[at] == due@[i as int];
                    if at < old(self).seen@.len() {
                        assert(old(self).seen@[at] == due@[i as int]);
                    } else {
                        assert(earlier[at - old(self).seen@.len()] == due@[i as int]);
                    }
                } else {
                    if old(self).seen@.contains(due@[i as int]) {
                        let at = choose|at: int|
                            0 <= at < old(self).seen@.len() && old(self).seen@[at] == due@[i as int];
                        assert(before[at] == due@[i as int]);
                    }
                    if earlier.contains(due@[i as int]) {
                        let at = choose|at: int|
                            0 <= at < earlier.len() && earlier[at] == due@[i as int];
                        assert(before[old(self).seen@.len() + at] == due@[i as int]);
                    }
                }
            }
            if self.warn_once(due[i]) {
                news.push(due[i]);
            }
            proof {
                assert(self.seen@ =~= old(self).seen@ + news@);
            }
            i += 1;
        }
        proof {
            assert(due@.take(due@.len() as int) =~= due@);
        }
        news
    }
}

/// The entities of the slots of the type `tag` that have a transform, and
/// the warnings for those that have none, both in the order of the slots.
fn sort_out<C, R, S>(
    world: &World<C, R, S>,
    tag: TypeIdNamed,
    transform: TypeIdNamed,
    lights: bool,
) -> (sorted: (Vec<Entity>, Vec<Warning>))
    ensures
        sorted.0@ == world@.bucket(tag.id).filter(placed(world@, transform.id)).map_values(
            entity_of(),
        ),
        sorted.1@ == world@.bucket(tag.id).filter(unplaced(world@, transform.id)).map_values(
            if lights {
                light_warning()
            } else {
                model_warning()
            },
        ),
{
    let slots = world.query(tag);
    let ghost all = world@.bucket(tag.id);
    let ghost with = placed(world@, transform.id);
    let ghost without = unplaced(world@, transform.id);
    let ghost warning = if lights {
        light_warning::<C>()
    } else {
        model_warning::<C>()
    };
    let mut entities: Vec<Entity> = Vec::new();
    let mut warnings: Vec<Warning> = Vec::new();
    let mut i: usize = 0;
    proof {
        reveal(Seq::filter);
        assert(all.take(0) =~= Seq::empty());
        assert(all.take(0).filter(with).map_values(entity_of()) =~= Seq::empty());
        assert(all.take(0).filter(without).map_values(warning) =~= Seq::empty());
    }
    while i < slots.len()
        invariant
            i <= slots.len(),
            all == world@.bucket(tag.id),
            with == placed(world@, transform.id),
            without == unplaced(world@, transform.id),
            warning == if lights {
                light_warning::<C>()
            } else {
                model_warning::<C>()
            },
            slots@.len() == all.len(),
            forall|j: int|
                0 <= j < slots@.len() ==> (#[trigger] slots@[j]).0.id == all[j].0 && *slots@[j].1
                    == all[j].1,
            entities@ == all.take(i as int).filter(with).map_values(entity_of()),
            warnings@ == all.take(i as int).filter(without).map_values(warning),
        decreases slots.len() - i,
    {
        let entity = slots[i].0;
        proof {
            let seen = all.take(i as int);
            let slot = all[i as int];
            assert(all.take(i + 1) =~= seen.push(slot));
            seen.lemma_filter_push(slot, with);
            seen.lemma_filter_push(slot, without);
            assert(seen.filter(with).push(slot).map_values(entity_of()) =~= seen.filter(
                with,
            ).map_values(entity_of()).push(Entity { id: slot.0 }));
            assert(seen.filter(without).push(slot).map_values(warning) =~= seen.filter(
                without,
            ).map_values(warning).push(warning(slot)));
        }
        match entity.get_one(world, transform) {
            Some(_) => {
                entities.push(entity);
            },
            None => {
                if lights {
                    warnings.push(Warning::MissingLightTransform(entity.id));
                } else {
                    warnings.push(Warning::MissingModelTransform(entity.id));
                }
            },
        }
        i += 1;
    }
    proof {
        assert(all.take(all.len() as int) =~= all);
    }
    (entities, warnings)
}

/// Decides what one frame draws.
///
/// The scene is seen from the first entity that has a camera, and that
/// entity needs a transform; without either nothing is drawn. A model or a
/// light is used where its entity has a transform, and passed over where it
/// has none. Every cause that keeps something from being drawn is noted in
/// `warnings`, and the causes that were not noted before are handed back so
/// that the caller can show them, each once.
pub fn scenerenderer_draw<C, R, S>(
    world: &World<C, R, S>,
    tags: SceneTags,
    warnings: &mut Warnings,
) -> (frame: (Option<Passes>, Vec<Warning>))
    ensures
        frame.1@ == fresh(old(warnings).seen@, problems(world@, tags)),
        final(warnings).seen@ == old(warnings).seen@ + frame.1@,
        match frame.0 {
            Some(passes) => {
                &&& can_draw(world@, tags)
                &&& passes.camera.id == world@.bucket(tags.camera.id)[0].0
                &&& passes.models@ == world@.bucket(tags.model.id).filter(
                    placed(world@, tags.transform.id),
                ).map_values(entity_of())
                &&& passes.lights@ == world@.bucket(tags.light.id).filter(
                    placed(world@, tags.transform.id),
                ).map_values(entity_of())
            },
            None => !can_draw(world@, tags),
        },
{
    let cameras = world.query(tags.camera);
    if cameras.len() == 0 {
        let due = vec![Warning::MissingCamera];
        proof {
            assert(due@ =~= problems(world@, tags));
        }
        let news = warnings.announce(&due);
        return (None, news);
    }
    let camera = cameras[0].0;
    match camera.get_one(world, tags.transform) {
        None => {
            let due = vec![Warning::MissingCameraTransform];
            proof {
                assert(due@ =~= problems(world@, tags));
            }
            let news = warnings.announce(&due);
            (None, news)
        },
        Some(_) => {
            let (models, mut due) = sort_out(world, tags.model, tags.transform, false);
            let (lights, mut dark) = sort_out(world, tags.light, tags.transform, true);
            due.append(&mut dark);
            let news = warnings.announce(&due);
            (Some(Passes { camera, models, lights }), news)
        },
    }
}

} // verus!
