//! What holds of the operations taken together.
//!
//! Each law is stated over the view of a world and the operations of
//! `model`, which are what the contracts of the executable functions speak
//! of.

use vstd::prelude::*;
use crate::ecs::Component;
use crate::ecs::Entity;
use crate::ecs::System;
use crate::ecs::SystemError;
use crate::model::WorldView;
use crate::model::component_of;
use crate::model::failures;
use crate::model::first_labelled;
use crate::model::labelled_at;
use crate::model::first_owned_at;
use crate::model::is_run;
use crate::model::not_owned_by;
use crate::model::owned_by;
use crate::model::runs_to;
use crate::scene::added;
use crate::scene::group_at;
use crate::scene::grouped;
use crate::scene3d::Warning;
use crate::scene3d::fresh;
use crate::type_id::TypeIdNamed;

verus! {

/// One operation on a world, other than running a stage.
pub enum Op<C, R, S> {
    SpawnEmpty,
    Insert(usize, TypeIdNamed, Component<C>),
    Remove(u64, usize),
    Replace(u64, int, Component<C>),
    Clear,
    AddResource(u64, R),
    TakeResource(u64),
    AddSystem(usize, S, &'static str),
}

/// The world after one operation.
pub open spec fn apply<C, R, S>(world: WorldView<C, R, S>, op: Op<C, R, S>) -> WorldView<C, R, S> {
    match op {
        Op::SpawnEmpty => world.spawn_empty(),
        Op::Insert(id, tag, component) => world.insert(id, tag, component),
        Op::Remove(key, id) => world.remove(key, id),
        Op::Replace(key, at, component) => world.replace(key, at, component),
        Op::Clear => world.clear(),
        Op::AddResource(key, value) => world.add_resource(key, value),
        Op::TakeResource(key) => world.take_resource(key),
        Op::AddSystem(stage, system, name) => world.add_system(stage, system, name),
    }
}

/// The world after the operations `ops`, in order.
pub open spec fn apply_all<C, R, S>(world: WorldView<C, R, S>, ops: Seq<Op<C, R, S>>) -> WorldView<
    C,
    R,
    S,
>
    decreases ops.len(),
{
    if ops.len() == 0 {
        world
    } else {
        apply(apply_all(world, ops.drop_last()), ops.last())
    }
}

/// The id that the operation at position `at` of `ops` hands out, when that
/// operation issues an entity: the count of entities issued before it.
pub open spec fn id_issued_at<C, R, S>(
    world: WorldView<C, R, S>,
    ops: Seq<Op<C, R, S>>,
    at: int,
) -> nat {
    apply_all(world, ops.take(at)).spawned
}

/// No operation takes back an entity that was issued: over any operations,
/// the count of issued entities does not fall, and it rises past every id
/// that an operation among them hands out.
pub proof fn lemma_issued_grows<C, R, S>(
    world: WorldView<C, R, S>,
    ops: Seq<Op<C, R, S>>,
    from: int,
    to: int,
)
    requires
        0 <= from <= to <= ops.len(),
    ensures
        id_issued_at(world, ops, from) <= id_issued_at(world, ops, to),
        from < to && ops[from] is SpawnEmpty ==> id_issued_at(world, ops, from) < id_issued_at(
            world,
            ops,
            to,
        ),
    decreases to - from,
{
    if from < to {
        lemma_issued_grows(world, ops, from, to - 1);
        assert(ops.take(to).drop_last() =~= ops.take(to - 1));
        assert(ops.take(to).last() == ops[to - 1]);
    }
}

/// Every entity gets an id of its own: whatever operations a world goes
/// through, two of them that issue an entity hand out different ids.
pub proof fn lemma_spawned_ids_are_unique<C, R, S>(
    world: WorldView<C, R, S>,
    ops: Seq<Op<C, R, S>>,
    first: int,
    second: int,
)
    requires
        0 <= first < second < ops.len(),
        ops[first] is SpawnEmpty,
        ops[second] is SpawnEmpty,
    ensures
        id_issued_at(world, ops, first) != id_issued_at(world, ops, second),
        world.spawned <= id_issued_at(world, ops, first),
{
    lemma_issued_grows(world, ops, first, second);
    lemma_issued_grows(world, ops, 0, first);
    assert(ops.take(0) =~= Seq::empty());
}

/// What may come after what may come after a world may come after that
/// world.
pub proof fn lemma_precedes_in_turn<C, R, S>(
    first: WorldView<C, R, S>,
    second: WorldView<C, R, S>,
    third: WorldView<C, R, S>,
)
    requires
        first.precedes(second),
        second.precedes(third),
    ensures
        first.precedes(third),
{
    assert forall|stage: usize| (#[trigger] first.stage(stage)).is_prefix_of(
        third.stage(stage),
    ) by {
        let a = first.stage(stage);
        let b = second.stage(stage);
        let c = third.stage(stage);
        assert(a.is_prefix_of(b));
        assert(b.is_prefix_of(c));
        assert forall|i: int| 0 <= i < a.len() implies a[i] == c[i] by {
            assert(a[i] == b[i]);
            assert(b[i] == c[i]);
        }
    }
}

/// No operation of a world takes back an entity or a registration.
pub proof fn lemma_operation_keeps<C, R, S>(world: WorldView<C, R, S>, op: Op<C, R, S>)
    ensures
        world.precedes(apply(world, op)),
{
    let after = apply(world, op);
    assert forall|stage: usize| (#[trigger] world.stage(stage)).is_prefix_of(
        after.stage(stage),
    ) by {
        match op {
            Op::AddSystem(at, system, name) => {
                if at == stage {
                    assert(after.stage(stage) =~= world.stage(stage).push((system, name)));
                }
            },
            _ => {},
        }
    }
}

/// A run of a stage takes back no entity and no registration: the world at
/// any point of the run may come after the world at any earlier point.
pub proof fn lemma_run_keeps<C, R, S: System<C, R>>(
    bucket: Seq<(S, &'static str)>,
    trace: Seq<WorldView<C, R, S>>,
    outcomes: Seq<Result<(), String>>,
    from: int,
    upto: int,
)
    requires
        is_run(bucket, trace, outcomes),
        0 <= from <= upto <= bucket.len(),
    ensures
        trace[from].precedes(trace[upto]),
        trace[from].spawned <= trace[upto].spawned,
    decreases upto - from,
{
    if from < upto {
        lemma_run_keeps(bucket, trace, outcomes, from, upto - 1);
        assert(trace[upto - 1].precedes(trace[upto]));
        lemma_precedes_in_turn(trace[from], trace[upto - 1], trace[upto]);
    }
}

/// Every entity gets an id of its own, whatever happens between two
/// spawns: in a history of worlds in which each world may come after the
/// one before it, as it does after every operation of a world and after
/// every run of a stage, two worlds that issue an entity hand out different
/// ids. Where the counter has room for the later spawn, as a spawn asks,
/// the ids differ as the machine integers that the entities carry, and the
/// later id is one that was not issued before.
pub proof fn lemma_ids_are_unique_in_history<C, R, S>(
    history: Seq<WorldView<C, R, S>>,
    first: int,
    second: int,
)
    requires
        forall|k: int| 0 <= k < history.len() - 1 ==> (#[trigger] history[k]).precedes(history[k + 1]),
        0 <= first < second < history.len() - 1,
        history[first + 1] == history[first].spawn_empty(),
        history[second + 1] == history[second].spawn_empty(),
    ensures
        history[first].spawned < history[second].spawned,
        history[first].spawned != history[second].spawned,
        history[second].spawned < usize::MAX ==> history[first].spawned as usize
            != history[second].spawned as usize,
        history[second].spawned < usize::MAX ==> history[second].issued(
            history[first].spawned as usize,
        ) && !history[second].issued(history[second].spawned as usize),
{
    lemma_history_keeps_count(history, first + 1, second);
}

/// An entity that was issued stays issued in every world that may come
/// after.
pub proof fn lemma_issued_stays_issued<C, R, S>(
    earlier: WorldView<C, R, S>,
    later: WorldView<C, R, S>,
    id: usize,
)
    requires
        earlier.precedes(later),
        earlier.issued(id),
    ensures
        later.issued(id),
{
}

/// Over a history of worlds the count of issued entities does not fall.
pub proof fn lemma_history_keeps_count<C, R, S>(
    history: Seq<WorldView<C, R, S>>,
    from: int,
    upto: int,
)
    requires
        forall|k: int| 0 <= k < history.len() - 1 ==> (#[trigger] history[k]).precedes(history[k + 1]),
        0 <= from <= upto < history.len(),
    ensures
        history[from].spawned <= history[upto].spawned,
    decreases upto - from,
{
    if from < upto {
        lemma_history_keeps_count(history, from, upto - 1);
        assert(history[upto - 1].precedes(history[upto]));
    }
}

/// Attaching a component puts one slot at the end of its type's slots and
/// touches no other type, whatever the entity owned before.
pub proof fn lemma_insert_appends<C, R, S>(
    world: WorldView<C, R, S>,
    id: usize,
    tag: TypeIdNamed,
    component: Component<C>,
)
    ensures
        world.insert(id, tag, component).bucket(tag.id) == world.bucket(tag.id).push(
            (id, component),
        ),
        world.insert(id, tag, component).owned(tag.id, id) == world.owned(tag.id, id).push(
            component,
        ),
        forall|other: u64|
            other != tag.id ==> #[trigger] world.insert(id, tag, component).bucket(other)
                == world.bucket(other),
        world.wf() ==> world.insert(id, tag, component).wf(),
{
    let after = world.insert(id, tag, component);
    assert(after.bucket(tag.id) =~= world.bucket(tag.id).push((id, component)));
    world.bucket(tag.id).lemma_filter_push((id, component), owned_by(id));
    assert(world.bucket(tag.id).filter(owned_by(id)).push((id, component)).map_values(
        component_of(),
    ) =~= world.owned(tag.id, id).push(component));
    if world.wf() {
        lemma_insert_keeps_catalogue(world, id, tag, component);
    }
}

/// Attaching a component keeps the list of types in step with the store.
pub proof fn lemma_insert_keeps_catalogue<C, R, S>(
    world: WorldView<C, R, S>,
    id: usize,
    tag: TypeIdNamed,
    component: Component<C>,
)
    requires
        world.wf(),
    ensures
        world.insert(id, tag, component).wf(),
{
    let after = world.insert(id, tag, component);
    assert forall|key: u64| after.components.contains_key(key) <==> crate::model::names(
        after.kinds,
        key,
    ) by {
        if world.components.contains_key(tag.id) {
            assert(crate::model::names(world.kinds, tag.id));
        } else {
            assert(after.kinds[after.kinds.len() - 1].id == tag.id);
            if crate::model::names(world.kinds, key) {
                let i = choose|i: int| 0 <= i < world.kinds.len() && world.kinds[i].id == key;
                assert(after.kinds[i].id == key);
            }
            assert(!crate::model::names(world.kinds, tag.id));
        }
    }
}

/// A component that is attached to an entity which had none of its type is
/// found again: the slots of the type hold the pair once, and the entity
/// owns that component and no other of the type.
pub proof fn lemma_insert_then_get<C, R, S>(
    world: WorldView<C, R, S>,
    id: usize,
    tag: TypeIdNamed,
    component: Component<C>,
)
    requires
        world.owned(tag.id, id).len() == 0,
    ensures
        world.insert(id, tag, component).owned(tag.id, id) == seq![component],
        world.insert(id, tag, component).bucket(tag.id).to_multiset().count((id, component)) == 1,
{
    lemma_insert_appends(world, id, tag, component);
    assert(world.owned(tag.id, id).push(component) =~= seq![component]);
    let before = world.bucket(tag.id);
    if before.contains((id, component)) {
        let i = choose|i: int| 0 <= i < before.len() && before[i] == (id, component);
        before.lemma_filter_contains(owned_by(id), i);
        assert(before.filter(owned_by(id)).len() > 0);
        assert(false);
    }
    before.to_multiset_ensures();
    assert(before.to_multiset().count((id, component)) == 0);
}

/// The component that an entity owns first is the one in its oldest slot:
/// reading it and borrowing it to change it reach the same component.
pub proof fn lemma_first_owned_is_oldest<C>(
    slots: Seq<(usize, Component<C>)>,
    id: usize,
    at: int,
)
    requires
        first_owned_at(slots, id, at),
    ensures
        slots.filter(owned_by(id)).len() > 0,
        slots.filter(owned_by(id)).map_values(component_of())[0] == slots[at].1,
    decreases slots.len(),
{
    reveal(Seq::filter);
    let last = slots.last();
    let rest = slots.drop_last();
    if at == slots.len() - 1 {
        assert(rest.filter(owned_by(id)).len() == 0) by {
            lemma_none_owned(rest, id);
        }
    } else {
        assert(first_owned_at(rest, id, at));
        lemma_first_owned_is_oldest(rest, id, at);
    }
}

/// Where no slot belongs to an entity, it owns nothing.
pub proof fn lemma_none_owned<C>(slots: Seq<(usize, Component<C>)>, id: usize)
    requires
        forall|j: int| 0 <= j < slots.len() ==> (#[trigger] slots[j]).0 != id,
    ensures
        slots.filter(owned_by(id)).len() == 0,
    decreases slots.len(),
{
    reveal(Seq::filter);
    if slots.len() > 0 {
        let rest = slots.drop_last();
        assert forall|j: int| 0 <= j < rest.len() implies (#[trigger] rest[j]).0 != id by {
            assert(rest[j] == slots[j]);
        }
        lemma_none_owned(rest, id);
        assert(slots.last() == slots[slots.len() - 1]);
    }
}

/// Removal takes from an entity every component of the one type and leaves
/// everything else as it was: the components of other entities of that
/// type, in their order, and every other type.
pub proof fn lemma_remove_only_that<C, R, S>(world: WorldView<C, R, S>, key: u64, id: usize)
    ensures
        world.remove(key, id).owned(key, id).len() == 0,
        forall|i: int|
            0 <= i < world.remove(key, id).bucket(key).len() ==> (#[trigger] world.remove(
                key,
                id,
            ).bucket(key)[i]).0 != id,
        forall|other: usize|
            other != id ==> #[trigger] world.remove(key, id).owned(key, other) == world.owned(
                key,
                other,
            ),
        forall|other: u64|
            other != key ==> #[trigger] world.remove(key, id).bucket(other) == world.bucket(other),
        world.remove(key, id).kinds == world.kinds,
        world.remove(key, id).resources == world.resources,
        world.wf() ==> world.remove(key, id).wf(),
{
    let after = world.remove(key, id);
    let before = world.bucket(key);
    let kept = before.filter(not_owned_by(id));
    assert(after.bucket(key) =~= kept) by {
        if !world.components.contains_key(key) {
            reveal(Seq::filter);
        }
    }
    assert forall|i: int| 0 <= i < kept.len() implies (#[trigger] kept[i]).0 != id by {
        before.lemma_filter_pred(not_owned_by(id), i);
    }
    assert(kept.filter(owned_by(id)).len() == 0) by {
        kept.lemma_all_neg_filter_empty(owned_by(id));
    }
    assert forall|other: usize| other != id implies #[trigger] after.owned(key, other)
        == world.owned(key, other) by {
        lemma_filter_twice(before, id, other);
    }
    if world.wf() {
        assert forall|k: u64| after.components.contains_key(k) <==> crate::model::names(
            after.kinds,
            k,
        ) by {}
    }
}

/// Dropping the slots of one entity does not change what another owns.
proof fn lemma_filter_twice<C>(slots: Seq<(usize, Component<C>)>, id: usize, other: usize)
    requires
        other != id,
    ensures
        slots.filter(not_owned_by(id)).filter(owned_by(other)) == slots.filter(owned_by(other)),
    decreases slots.len(),
{
    reveal(Seq::filter);
    if slots.len() > 0 {
        lemma_filter_twice(slots.drop_last(), id, other);
        let last = slots.last();
        if last.0 != id {
            slots.drop_last().filter(not_owned_by(id)).lemma_filter_push(last, owned_by(other));
        }
    }
}

/// The grouping of what an entity owns leaves nothing out: in a world that
/// keeps its invariant, every type of which the entity owns a component has
/// its group, with those components.
pub proof fn lemma_groups_are_complete<C, R, S>(world: WorldView<C, R, S>, id: usize, key: u64)
    requires
        world.wf(),
        world.owned(key, id).len() > 0,
    ensures
        exists|i: int|
            0 <= i < world.groups(id).len() && (#[trigger] world.groups(id)[i]).0.id == key
                && world.groups(id)[i].1 == world.owned(key, id),
{
    assert(world.components.contains_key(key)) by {
        if !world.components.contains_key(key) {
            reveal(Seq::filter);
            assert(world.bucket(key).filter(owned_by(id)) =~= Seq::empty());
        }
    }
    assert(crate::model::names(world.kinds, key));
    let at = choose|at: int| 0 <= at < world.kinds.len() && (#[trigger] world.kinds[at]).id == key;
    let kind = world.kinds[at];
    let kept = world.kinds.filter(world.has_some(id));
    assert(world.has_some(id)(kind));
    assert(kept.contains(kind)) by {
        assert(world.kinds.contains(kind));
        lemma_filter_keeps(world.kinds, world.has_some(id), at);
    }
    let i = choose|i: int| 0 <= i < kept.len() && kept[i] == kind;
    assert(world.groups(id)[i] == (kind, world.owned(kind.id, id)));
}

/// What satisfies the predicate of a filter is in what the filter keeps.
proof fn lemma_filter_keeps<T>(items: Seq<T>, keep: spec_fn(T) -> bool, at: int)
    requires
        0 <= at < items.len(),
        keep(items[at]),
    ensures
        items.filter(keep).contains(items[at]),
    decreases items.len(),
{
    reveal(Seq::filter);
    let rest = items.drop_last();
    if at == items.len() - 1 {
        let kept = rest.filter(keep).push(items.last());
        assert(kept[kept.len() - 1] == items[at]);
    } else {
        lemma_filter_keeps(rest, keep, at);
        let inner = rest.filter(keep);
        let i = choose|i: int| 0 <= i < inner.len() && inner[i] == rest[at];
        if keep(items.last()) {
            assert(inner.push(items.last())[i] == items[at]);
        }
    }
}

/// Whether no two groups are groups of one entity.
pub open spec fn one_group_each(groups: Seq<(u64, Seq<(u64, Seq<u8>)>)>) -> bool {
    forall|i: int, j: int|
        0 <= i < j < groups.len() ==> (#[trigger] groups[i]).0 != (#[trigger] groups[j]).0
}

/// Where a group of an entity is among the groups, a first one is.
proof fn lemma_first_group(groups: Seq<(u64, Seq<(u64, Seq<u8>)>)>, entity: u64, at: int)
    requires
        0 <= at < groups.len(),
        groups[at].0 == entity,
    ensures
        exists|first: int| group_at(groups, entity, first),
    decreases at,
{
    if exists|j: int| 0 <= j < at && (#[trigger] groups[j]).0 == entity {
        let j = choose|j: int| 0 <= j < at && (#[trigger] groups[j]).0 == entity;
        lemma_first_group(groups, entity, j);
    } else {
        assert(group_at(groups, entity, at));
    }
}

/// A scene that is made record by record has one group for each entity: a
/// record joins the group of its entity where there is one.
pub proof fn lemma_one_group_for_each_entity(records: Seq<(usize, u64, Vec<u8>)>)
    ensures
        one_group_each(grouped(records)),
    decreases records.len(),
{
    if records.len() > 0 {
        lemma_one_group_for_each_entity(records.drop_last());
        let before = grouped(records.drop_last());
        let entity = records.last().0 as u64;
        let after = added(before, entity, records.last().1, records.last().2@);
        if exists|at: int| group_at(before, entity, at) {
            let at = choose|at: int| group_at(before, entity, at);
            assert forall|i: int, j: int| 0 <= i < j < after.len() implies (#[trigger] after[i]).0
                != (#[trigger] after[j]).0 by {
                assert(after[i].0 == before[i].0);
                assert(after[j].0 == before[j].0);
            }
        } else {
            assert forall|i: int, j: int| 0 <= i < j < after.len() implies (#[trigger] after[i]).0
                != (#[trigger] after[j]).0 by {
                if j == before.len() {
                    assert(after[i] == before[i]);
                    if before[i].0 == entity {
                        lemma_first_group(before, entity, i);
                    }
                } else {
                    assert(after[i] == before[i]);
                    assert(after[j] == before[j]);
                }
            }
        }
    }
}

/// An entity is found by its label: after a label was attached to an entity,
/// looking the label up finds that entity, unless an older slot holds the
/// same label, and then it finds what it found before.
pub proof fn lemma_label_is_found<C>(
    slots: Seq<(usize, Component<C>)>,
    id: usize,
    label: Component<C>,
    text: Seq<char>,
    before: Option<Entity>,
)
    requires
        label.is_label(text),
        first_labelled(slots, text, before),
    ensures
        first_labelled(
            slots.push((id, label)),
            text,
            match before {
                Some(entity) => Some(entity),
                None => Some(Entity { id }),
            },
        ),
{
    let after = slots.push((id, label));
    match before {
        Some(entity) => {
            let at = choose|at: int| #[trigger]
                labelled_at(slots, text, at) && slots[at].0 == entity.id;
            assert(after[at] == slots[at]);
            assert forall|j: int| 0 <= j < at implies !(#[trigger] after[j]).1.is_label(text) by {
                assert(after[j] == slots[j]);
            }
            assert(labelled_at(after, text, at));
        },
        None => {
            let at = slots.len() as int;
            assert(after[at] == (id, label));
            assert forall|j: int| 0 <= j < at implies !(#[trigger] after[j]).1.is_label(text) by {
                assert(after[j] == slots[j]);
            }
            assert(labelled_at(after, text, at));
        },
    }
}

/// Every warning that is due has been given once it was announced: it was
/// given before, or it is among the new ones.
pub proof fn lemma_announced_is_given(seen: Seq<Warning>, due: Seq<Warning>, at: int)
    requires
        0 <= at < due.len(),
    ensures
        seen.contains(due[at]) || fresh(seen, due).contains(due[at]),
    decreases due.len(),
{
    let earlier = fresh(seen, due.drop_last());
    if at == due.len() - 1 {
        if !(seen.contains(due.last()) || earlier.contains(due.last())) {
            assert(earlier.push(due.last())[earlier.len() as int] == due[at]);
        }
    } else {
        lemma_announced_is_given(seen, due.drop_last(), at);
        assert(due.drop_last()[at] == due[at]);
        if earlier.contains(due[at]) {
            let i = choose|i: int| 0 <= i < earlier.len() && earlier[i] == due[at];
            if !(seen.contains(due.last()) || earlier.contains(due.last())) {
                assert(earlier.push(due.last())[i] == due[at]);
            }
        }
    }
}

/// A warning is given once: where every warning that is due was given
/// before, none is new.
pub proof fn lemma_given_warnings_are_silent(seen: Seq<Warning>, due: Seq<Warning>)
    requires
        forall|i: int| 0 <= i < due.len() ==> seen.contains(#[trigger] due[i]),
    ensures
        fresh(seen, due) == Seq::<Warning>::empty(),
    decreases due.len(),
{
    if due.len() > 0 {
        assert forall|i: int| 0 <= i < due.drop_last().len() implies seen.contains(
            #[trigger] due.drop_last()[i],
        ) by {
            assert(due.drop_last()[i] == due[i]);
        }
        lemma_given_warnings_are_silent(seen, due.drop_last());
        assert(seen.contains(due[due.len() - 1]));
    }
}

/// The same causes announced a second time give no warning.
pub proof fn lemma_second_announcement_is_silent(seen: Seq<Warning>, due: Seq<Warning>)
    ensures
        fresh(seen + fresh(seen, due), due) == Seq::<Warning>::empty(),
{
    let given = seen + fresh(seen, due);
    assert forall|i: int| 0 <= i < due.len() implies given.contains(#[trigger] due[i]) by {
        lemma_announced_is_given(seen, due, i);
        if seen.contains(due[i]) {
            let j = choose|j: int| 0 <= j < seen.len() && seen[j] == due[i];
            assert(given[j] == due[i]);
        } else {
            let news = fresh(seen, due);
            let j = choose|j: int| 0 <= j < news.len() && news[j] == due[i];
            assert(given[seen.len() + j] == due[i]);
        }
    }
    lemma_given_warnings_are_silent(given, due);
}

/// A resource that is added twice is there once, with the later value; no
/// other resource changes.
pub proof fn lemma_resource_overwrite<C, R, S>(
    world: WorldView<C, R, S>,
    key: u64,
    first: R,
    second: R,
)
    ensures
        world.add_resource(key, first).add_resource(key, second) == world.add_resource(
            key,
            second,
        ),
        world.add_resource(key, first).add_resource(key, second).resources[key] == second,
        world.add_resource(key, first).add_resource(key, second).resources.dom()
            == world.resources.dom().insert(key),
{
    assert(world.resources.insert(key, first).insert(key, second) =~= world.resources.insert(
        key,
        second,
    ));
    assert(world.resources.insert(key, second).dom() =~= world.resources.dom().insert(key));
}

/// A resource that was taken is gone, and only that one.
pub proof fn lemma_taken_resource_is_gone<C, R, S>(world: WorldView<C, R, S>, key: u64)
    ensures
        !world.take_resource(key).resources.contains_key(key),
        forall|other: u64|
            other != key ==> (#[trigger] world.take_resource(key).resources.contains_key(other)
                <==> world.resources.contains_key(other)),
        forall|other: u64|
            other != key && world.resources.contains_key(other) ==> #[trigger] world.take_resource(
                key,
            ).resources[other] == world.resources[other],
        world.take_resource(key).components == world.components,
{
}

/// Systems run in the order of their registration: a system that was
/// registered later stands later in its stage.
pub proof fn lemma_registration_order<C, R, S>(
    world: WorldView<C, R, S>,
    stage: usize,
    first: (S, &'static str),
    second: (S, &'static str),
)
    ensures
        world.add_system(stage, first.0, first.1).add_system(stage, second.0, second.1).stage(stage)
            == world.stage(stage).push(first).push(second),
        forall|other: usize|
            other != stage ==> #[trigger] world.add_system(stage, first.0, first.1).add_system(
                stage,
                second.0,
                second.1,
            ).stage(other) == world.stage(other),
{
    let once = world.add_system(stage, first.0, first.1);
    assert(once.stage(stage) =~= world.stage(stage).push(first));
    assert(once.add_system(stage, second.0, second.1).stage(stage) =~= once.stage(stage).push(
        second,
    ));
}

/// In a run of a stage each system starts on the world that the system
/// before it left, and the first starts on the world that the run started
/// on. So of two systems in one stage the earlier has returned before the
/// later is called: the later starts on the world that the earlier left, or
/// on one that came after it.
pub proof fn lemma_run_is_sequential<C, R, S: System<C, R>>(
    bucket: Seq<(S, &'static str)>,
    trace: Seq<WorldView<C, R, S>>,
    outcomes: Seq<Result<(), String>>,
    earlier: int,
    later: int,
)
    requires
        is_run(bucket, trace, outcomes),
        0 <= earlier < later < bucket.len(),
    ensures
        bucket[earlier].0.step(trace[earlier], trace[earlier + 1], outcomes[earlier]),
        bucket[later].0.step(trace[later], trace[later + 1], outcomes[later]),
        trace[earlier + 1].precedes(trace[later]),
{
    lemma_run_keeps(bucket, trace, outcomes, earlier + 1, later);
}

/// A stage of two systems runs the first, then the second on what the first
/// left.
pub proof fn lemma_run_of_two<C, R, S: System<C, R>>(
    bucket: Seq<(S, &'static str)>,
    pre: WorldView<C, R, S>,
    post: WorldView<C, R, S>,
    errors: Seq<SystemError>,
)
    requires
        bucket.len() == 2,
        runs_to(bucket, pre, post, errors),
    ensures
        exists|between: WorldView<C, R, S>, first: Result<(), String>, second: Result<(), String>|
            #![trigger bucket[0].0.step(pre, between, first), bucket[1].0.step(between, post, second)]
            bucket[0].0.step(pre, between, first) && bucket[1].0.step(between, post, second),
{
    let (trace, outcomes) = choose|
        trace: Seq<WorldView<C, R, S>>,
        outcomes: Seq<Result<(), String>>,
    |
        {
            &&& #[trigger] is_run(bucket, trace, outcomes)
            &&& trace[0] == pre
            &&& trace[bucket.len() as int] == post
            &&& errors == failures(bucket, outcomes)
        };
    assert(bucket[0].0.step(trace[0], trace[1], outcomes[0]));
    assert(bucket[1].0.step(trace[1], trace[2], outcomes[1]));
}

/// A failure stops nothing: in a run of a stage, a system that comes after
/// one that failed is called all the same, on the world that the system
/// before it left, and the run goes on to the end of the stage.
pub proof fn lemma_failure_is_isolated<C, R, S: System<C, R>>(
    bucket: Seq<(S, &'static str)>,
    trace: Seq<WorldView<C, R, S>>,
    outcomes: Seq<Result<(), String>>,
    failed: int,
    later: int,
)
    requires
        is_run(bucket, trace, outcomes),
        0 <= failed < later < bucket.len(),
        outcomes[failed] is Err,
    ensures
        bucket[later].0.step(trace[later], trace[later + 1], outcomes[later]),
        outcomes.len() == bucket.len(),
        failures(bucket, outcomes).len() >= 1,
{
    lemma_failures_counted(bucket, outcomes);
}

/// A run of a stage calls every system of the stage: behind every run there
/// is a trace in which each system has its call, whatever was reported.
pub proof fn lemma_run_calls_every_system<C, R, S: System<C, R>>(
    bucket: Seq<(S, &'static str)>,
    pre: WorldView<C, R, S>,
    post: WorldView<C, R, S>,
    errors: Seq<SystemError>,
)
    requires
        runs_to(bucket, pre, post, errors),
    ensures
        errors.len() <= bucket.len(),
        exists|trace: Seq<WorldView<C, R, S>>, outcomes: Seq<Result<(), String>>|
            {
                &&& #[trigger] is_run(bucket, trace, outcomes)
                &&& trace[0] == pre
                &&& trace[bucket.len() as int] == post
                &&& forall|at: int|
                    0 <= at < bucket.len() ==> (#[trigger] bucket[at]).0.step(
                        trace[at],
                        trace[at + 1],
                        outcomes[at],
                    )
            },
{
    let (trace, outcomes) = choose|
        trace: Seq<WorldView<C, R, S>>,
        outcomes: Seq<Result<(), String>>,
    |
        {
            &&& #[trigger] is_run(bucket, trace, outcomes)
            &&& trace[0] == pre
            &&& trace[bucket.len() as int] == post
            &&& errors == failures(bucket, outcomes)
        };
    lemma_failures_counted(bucket, outcomes);
}

/// There is one report for each system that failed, in the order of the
/// stage, and none for one that succeeded.
pub proof fn lemma_failures_counted<S>(
    bucket: Seq<(S, &'static str)>,
    outcomes: Seq<Result<(), String>>,
)
    ensures
        failures(bucket, outcomes).len() <= outcomes.len(),
        (forall|i: int| 0 <= i < outcomes.len() ==> outcomes[i] is Ok) <==> failures(
            bucket,
            outcomes,
        ).len() == 0,
    decreases outcomes.len(),
{
    if outcomes.len() > 0 {
        lemma_failures_counted(bucket, outcomes.drop_last());
        let earlier = outcomes.drop_last();
        if failures(bucket, outcomes).len() == 0 {
            assert forall|i: int| 0 <= i < outcomes.len() implies outcomes[i] is Ok by {
                if i < outcomes.len() - 1 {
                    assert(earlier[i] is Ok);
                }
            }
        }
        if forall|i: int| 0 <= i < outcomes.len() ==> outcomes[i] is Ok {
            assert forall|i: int| 0 <= i < earlier.len() implies earlier[i] is Ok by {
                assert(outcomes[i] is Ok);
            }
        }
    }
}

/// What a stage holds is still registered after it ran, whatever its
/// systems returned, and so runs again the next time, in the same order and
/// before any system that was registered in between.
pub proof fn lemma_stage_survives_run<C, R, S: System<C, R>>(
    pre: WorldView<C, R, S>,
    post: WorldView<C, R, S>,
    errors: Seq<SystemError>,
    stage: usize,
)
    requires
        runs_to(pre.stage(stage), pre, post, errors),
    ensures
        pre.stage(stage).is_prefix_of(post.stage(stage)),
        pre.precedes(post),
{
    let bucket = pre.stage(stage);
    let (trace, outcomes) = choose|
        trace: Seq<WorldView<C, R, S>>,
        outcomes: Seq<Result<(), String>>,
    |
        {
            &&& #[trigger] is_run(bucket, trace, outcomes)
            &&& trace[0] == pre
            &&& trace[bucket.len() as int] == post
            &&& errors == failures(bucket, outcomes)
        };
    lemma_run_keeps(bucket, trace, outcomes, 0, bucket.len() as int);
}

} // verus!
