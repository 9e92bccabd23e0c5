//! The driver: which stages run, and when.
//!
//! A driver owns the world. It runs the stages of start-up once, and then,
//! frame after frame, hands each event to the event stage and runs the three
//! drawing stages. Where the events and the time come from is the caller's
//! business.

use vstd::prelude::*;
use crate::ecs::Stage;
use crate::ecs::System;
use crate::ecs::SystemError;
use crate::ecs::World;
use crate::model::WorldView;
use crate::laws::lemma_precedes_in_turn;
use crate::model::runs_to;
use crate::type_id::TypeIdNamed;

verus! {

/// The stages of start-up, in order.
pub open spec fn startup_stages() -> Seq<Stage> {
    seq![Stage::Init, Stage::Start]
}

/// The stages that every frame runs after its events, in order.
pub open spec fn frame_stages() -> Seq<Stage> {
    seq![Stage::PreDraw, Stage::Draw, Stage::PostDraw]
}

/// Whether running the stages `stages` one after another, each to its end
/// before the next, can take the world `pre` to the world `post` with the
/// reports `errors`.
pub open spec fn runs_stages<C, R, S: System<C, R>>(
    stages: Seq<Stage>,
    pre: WorldView<C, R, S>,
    post: WorldView<C, R, S>,
    errors: Seq<SystemError>,
) -> bool
    decreases stages.len(),
{
    if stages.len() == 0 {
        post == pre && errors == Seq::<SystemError>::empty()
    } else {
        exists|between: WorldView<C, R, S>, early: Seq<SystemError>, late: Seq<SystemError>|
            #![trigger runs_to(between.stage(stages.last().index()), between, post, late), early + late]
            {
                &&& runs_stages(stages.drop_last(), pre, between, early)
                &&& runs_to(between.stage(stages.last().index()), between, post, late)
                &&& errors == early + late
            }
    }
}

/// Whether handing the events `events` to the event stage, one after
/// another, can take the world `pre` to the world `post` with the reports
/// `errors`: each event is stored as the resource with key `key`, in place
/// of the one before it, and then the event stage runs.
pub open spec fn dispatches<C, R, S: System<C, R>>(
    events: Seq<R>,
    key: u64,
    pre: WorldView<C, R, S>,
    post: WorldView<C, R, S>,
    errors: Seq<SystemError>,
) -> bool
    decreases events.len(),
{
    if events.len() == 0 {
        post == pre && errors == Seq::<SystemError>::empty()
    } else {
        exists|between: WorldView<C, R, S>, early: Seq<SystemError>, late: Seq<SystemError>|
            #![trigger runs_to(
                between.add_resource(key, events.last()).stage(Stage::Event.index()),
                between.add_resource(key, events.last()),
                post,
                late,
            ), early + late]
            {
                &&& dispatches(events.drop_last(), key, pre, between, early)
                &&& runs_to(
                    between.add_resource(key, events.last()).stage(Stage::Event.index()),
                    between.add_resource(key, events.last()),
                    post,
                    late,
                )
                &&& errors == early + late
            }
    }
}

/// Whether one frame can take the world `pre` to the world `post` with the
/// reports `errors`: the time of the frame is stored as a resource, the
/// events are handed out, and the drawing stages run.
pub open spec fn frame_runs<C, R, S: System<C, R>>(
    time: (u64, R),
    events: (u64, Seq<R>),
    pre: WorldView<C, R, S>,
    post: WorldView<C, R, S>,
    errors: Seq<SystemError>,
) -> bool {
    exists|between: WorldView<C, R, S>, early: Seq<SystemError>, late: Seq<SystemError>|
        #![trigger runs_stages(frame_stages(), between, post, late), early + late]
        {
            &&& dispatches(events.1, events.0, pre.add_resource(time.0, time.1), between, early)
            &&& runs_stages(frame_stages(), between, post, late)
            &&& errors == early + late
        }
}

/// A frame as mathematics: its time, and its events.
pub open spec fn frame_view<R>() -> spec_fn((R, Vec<R>)) -> (R, Seq<R>) {
    |frame: (R, Vec<R>)| (frame.0, frame.1@)
}

/// Whether the frames `frames`, one after another, can take the world `pre`
/// to the world `post` with the reports `errors`. A frame is its time and
/// its events; `time` and `event` are the keys under which they are stored.
pub open spec fn plays<C, R, S: System<C, R>>(
    time: u64,
    event: u64,
    frames: Seq<(R, Seq<R>)>,
    pre: WorldView<C, R, S>,
    post: WorldView<C, R, S>,
    errors: Seq<SystemError>,
) -> bool
    decreases frames.len(),
{
    if frames.len() == 0 {
        post == pre && errors == Seq::<SystemError>::empty()
    } else {
        exists|between: WorldView<C, R, S>, early: Seq<SystemError>, late: Seq<SystemError>|
            #![trigger frame_runs(
                (time, frames.last().0),
                (event, frames.last().1),
                between,
                post,
                late,
            ), early + late]
            {
                &&& plays(time, event, frames.drop_last(), pre, between, early)
                &&& frame_runs(
                    (time, frames.last().0),
                    (event, frames.last().1),
                    between,
                    post,
                    late,
                )
                &&& errors == early + late
            }
    }
}

/// Whether a whole run can take the world `pre` to the world `post` with
/// the reports `errors`: start-up, then the frames.
pub open spec fn runs<C, R, S: System<C, R>>(
    time: u64,
    event: u64,
    frames: Seq<(R, Seq<R>)>,
    pre: WorldView<C, R, S>,
    post: WorldView<C, R, S>,
    errors: Seq<SystemError>,
) -> bool {
    exists|between: WorldView<C, R, S>, early: Seq<SystemError>, late: Seq<SystemError>|
        #![trigger plays(time, event, frames, between, post, late), early + late]
        {
            &&& runs_stages(startup_stages(), pre, between, early)
            &&& plays(time, event, frames, between, post, late)
            &&& errors == early + late
        }
}

/// One more frame at the end of a run of frames.
proof fn lemma_one_more_frame<C, R, S: System<C, R>>(
    time: u64,
    event: u64,
    frames: Seq<(R, Seq<R>)>,
    pre: WorldView<C, R, S>,
    between: WorldView<C, R, S>,
    post: WorldView<C, R, S>,
    early: Seq<SystemError>,
    late: Seq<SystemError>,
)
    requires
        frames.len() > 0,
        plays(time, event, frames.drop_last(), pre, between, early),
        frame_runs((time, frames.last().0), (event, frames.last().1), between, post, late),
    ensures
        plays(time, event, frames, pre, post, early + late),
{
}

/// One more stage at the end of a run of stages.
proof fn lemma_one_more_stage<C, R, S: System<C, R>>(
    stages: Seq<Stage>,
    pre: WorldView<C, R, S>,
    between: WorldView<C, R, S>,
    post: WorldView<C, R, S>,
    early: Seq<SystemError>,
    late: Seq<SystemError>,
)
    requires
        stages.len() > 0,
        runs_stages(stages.drop_last(), pre, between, early),
        runs_to(between.stage(stages.last().index()), between, post, late),
    ensures
        runs_stages(stages, pre, post, early + late),
{
}

/// One more event at the end of a run of events.
proof fn lemma_one_more_event<C, R, S: System<C, R>>(
    events: Seq<R>,
    key: u64,
    pre: WorldView<C, R, S>,
    between: WorldView<C, R, S>,
    post: WorldView<C, R, S>,
    early: Seq<SystemError>,
    late: Seq<SystemError>,
)
    requires
        events.len() > 0,
        dispatches(events.drop_last(), key, pre, between, early),
        runs_to(
            between.add_resource(key, events.last()).stage(Stage::Event.index()),
            between.add_resource(key, events.last()),
            post,
            late,
        ),
    ensures
        dispatches(events, key, pre, post, early + late),
{
}

/// The driver of one world.
pub struct Engine<C, R, S> {
    pub world: World<C, R, S>,
}

impl<C, R, S> Engine<C, R, S> {
    /// A driver of a world that holds nothing.
    pub fn new() -> (engine: Self)
        ensures
            engine.world.wf(),
            engine.world@ == WorldView::<C, R, S>::empty(engine.world@.name_type),
    {
        Engine { world: World::new() }
    }

    /// Stores a resource before the run.
    pub fn add_resource(self, tag: TypeIdNamed, resource: R) -> (engine: Self)
        ensures
            engine.world@ == self.world@.add_resource(tag.id, resource),
    {
        let mut engine = self;
        engine.world.add_resource(tag, resource);
        engine
    }

    /// Registers a system before the run.
    pub fn add_system(self, stage: Stage, system: S, name: &'static str) -> (engine: Self)
        ensures
            engine.world@ == self.world@.add_system(stage.index(), system, name),
    {
        let mut engine = self;
        engine.world.add_system(stage, system, name);
        engine
    }

    /// Registers a handler of events before the run.
    pub fn add_event_handler(self, handler: S, name: &'static str) -> (engine: Self)
        ensures
            engine.world@ == self.world@.add_system(Stage::Event.index(), handler, name),
    {
        let mut engine = self;
        engine.world.add_event_handler(handler, name);
        engine
    }
}

impl<C, R, S: System<C, R>> Engine<C, R, S> {
    /// Runs the given stages one after another.
    fn run_stages(&mut self, stages: Vec<Stage>) -> (errors: Vec<SystemError>)
        ensures
            old(self).world.wf() ==> final(self).world.wf(),
            old(self).world@.precedes(final(self).world@),
            runs_stages(stages@, old(self).world@, final(self).world@, errors@),
    {
        let mut errors: Vec<SystemError> = Vec::new();
        let mut k: usize = 0;
        proof {
            assert(stages@.take(0) =~= Seq::empty());
        }
        while k < stages.len()
            invariant
                k <= stages.len(),
                old(self).world.wf() ==> self.world.wf(),
                old(self).world@.precedes(self.world@),
                runs_stages(stages@.take(k as int), old(self).world@, self.world@, errors@),
            decreases stages.len() - k,
        {
            let ghost between = self.world@;
            let ghost early = errors@;
            let mut late = self.world.run_system(stages[k]);
            proof {
                assert(stages@.take(k + 1).drop_last() =~= stages@.take(k as int));
                assert(stages@.take(k + 1).last() == stages@[k as int]);
                assert(runs_stages(stages@.take(k + 1).drop_last(), old(self).world@, between, early));
                assert(runs_to(
                    between.stage(stages@.take(k + 1).last().index()),
                    between,
                    self.world@,
                    late@,
                ));
            }
            let ghost reported = late@;
            errors.append(&mut late);
            proof {
                assert(errors@ == early + reported);
                lemma_one_more_stage(
                    stages@.take(k + 1),
                    old(self).world@,
                    between,
                    self.world@,
                    early,
                    reported,
                );
            }
            k += 1;
        }
        proof {
            assert(stages@.take(stages@.len() as int) =~= stages@);
        }
        errors
    }

    /// Runs start-up: the stage `Init`, then the stage `Start`.
    pub fn start(&mut self) -> (errors: Vec<SystemError>)
        ensures
            old(self).world.wf() ==> final(self).world.wf(),
            old(self).world@.precedes(final(self).world@),
            runs_stages(startup_stages(), old(self).world@, final(self).world@, errors@),
    {
        let stages = vec![Stage::Init, Stage::Start];
        proof {
            assert(stages@ =~= startup_stages());
        }
        self.run_stages(stages)
    }

    /// Runs one frame: stores `time` as a resource, hands each of `events`
    /// to the stage `Event`, and runs the stages `PreDraw`, `Draw` and
    /// `PostDraw`.
    pub fn frame(&mut self, time: (TypeIdNamed, R), events: (TypeIdNamed, Vec<R>)) -> (errors: Vec<
        SystemError,
    >)
        ensures
            old(self).world.wf() ==> final(self).world.wf(),
            old(self).world@.precedes(final(self).world@),
            frame_runs(
                (time.0.id, time.1),
                (events.0.id, events.1@),
                old(self).world@,
                final(self).world@,
                errors@,
            ),
    {
        let mut errors: Vec<SystemError> = Vec::new();
        self.world.add_resource(time.0, time.1);
        let ghost begun = self.world@;
        let ghost all = events.1@;
        let tag = events.0;
        proof {
            assert(all.take(0) =~= Seq::empty());
        }
        for event in it: events.1
            invariant
                it.seq() == all,
                old(self).world.wf() ==> self.world.wf(),
                old(self).world@.precedes(self.world@),
                dispatches(all.take(it.index() as int), tag.id, begun, self.world@, errors@),
        {
            let ghost between = self.world@;
            let ghost early = errors@;
            let mut late = self.world.run_event_handler(tag, event);
            proof {
                let n = it.index() as int;
                assert(event == all[n]);
                assert(all.take(n + 1).drop_last() =~= all.take(n));
                assert(all.take(n + 1).last() == event);
                assert(dispatches(all.take(n + 1).drop_last(), tag.id, begun, between, early));
                assert(runs_to(
                    between.add_resource(tag.id, all.take(n + 1).last()).stage(Stage::Event.index()),
                    between.add_resource(tag.id, all.take(n + 1).last()),
                    self.world@,
                    late@,
                ));
            }
            let ghost reported = late@;
            errors.append(&mut late);
            proof {
                assert(errors@ == early + reported);
                lemma_one_more_event(
                    all.take(it.index() + 1),
                    tag.id,
                    begun,
                    between,
                    self.world@,
                    early,
                    reported,
                );
            }
        }
        proof {
            assert(all.take(all.len() as int) =~= all);
        }
        let ghost between = self.world@;
        let ghost early = errors@;
        let stages = vec![Stage::PreDraw, Stage::Draw, Stage::PostDraw];
        proof {
            assert(stages@ =~= frame_stages());
        }
        let mut late = self.run_stages(stages);
        let ghost reported = late@;
        proof {
            assert(dispatches(all, tag.id, begun, between, early));
            assert(runs_stages(frame_stages(), between, self.world@, reported));
        }
        errors.append(&mut late);
        proof {
            assert(errors@ == early + reported);
        }
        errors
    }

    /// Runs start-up and then the frames `frames`, each with its time and
    /// its events, which are stored under the tags `time` and `event`. Hands
    /// back the world as the last frame left it, and every report.
    pub fn run(self, time: TypeIdNamed, event: TypeIdNamed, frames: Vec<(R, Vec<R>)>) -> (done: (
        World<C, R, S>,
        Vec<SystemError>,
    ))
        ensures
            self.world.wf() ==> done.0.wf(),
            self.world@.precedes(done.0@),
            runs(
                time.id,
                event.id,
                frames@.map_values(frame_view()),
                self.world@,
                done.0@,
                done.1@,
            ),
    {
        let mut engine = self;
        let mut errors = engine.start();
        let ghost started = engine.world@;
        let ghost first = errors@;
        let ghost all = frames@.map_values(frame_view());
        let mut later: Vec<SystemError> = Vec::new();
        proof {
            assert(all.take(0) =~= Seq::empty());
        }
        for frame in it: frames
            invariant
                it.seq() == frames@,
                all == frames@.map_values(frame_view()),
                self.world.wf() ==> engine.world.wf(),
                self.world@.precedes(engine.world@),
                plays(time.id, event.id, all.take(it.index() as int), started, engine.world@, later@),
        {
            let ghost between = engine.world@;
            let ghost early = later@;
            let ghost n = it.index() as int;
            proof {
                assert(frame == frames@[n]);
                assert(all.take(n + 1).drop_last() =~= all.take(n));
                assert(all.take(n + 1).last() == (frame.0, frame.1@));
            }
            let mut late = engine.frame((time, frame.0), (event, frame.1));
            let ghost reported = late@;
            later.append(&mut late);
            proof {
                assert(later@ == early + reported);
                lemma_one_more_frame(
                    time.id,
                    event.id,
                    all.take(n + 1),
                    started,
                    between,
                    engine.world@,
                    early,
                    reported,
                );
            }
        }
        proof {
            assert(all.take(all.len() as int) =~= all);
        }
        let ghost played = later@;
        errors.append(&mut later);
        proof {
            assert(errors@ == first + played);
        }
        (engine.world, errors)
    }
}

} // verus!
