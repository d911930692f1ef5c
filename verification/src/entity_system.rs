//! The entity registry: the things that stand on the map.
//!
//! Entities are kept by ascending id.  A new entity gets an id one above the
//! largest in the registry, so appending it keeps that order, and an entity is
//! found by halving the list.

use crate::ids::{lemma_no_index, lemma_only_index};
use crate::sprite_system::{SpriteFactory, SpriteFactoryView, TSpriteID};
use std::time::{Duration, Instant};
use vstd::prelude::*;

verus! {

/// Names an entity among all entities.
pub type TEntityID = u16;

/// The time, in milliseconds, after which a new entity first asks for an
/// update of its sprite, and then asks again.
pub const SPRITE_UPDATE_INTERVAL: u128 = 24000;

/// Why a request to the entity registry was refused.
#[derive(Debug, PartialEq, Eq, Structural, Clone, Copy)]
pub enum EntityError {
    /// No entity goes by that id: it was never there, or it was removed.
    NotFound,
    /// Every id up to the largest is taken.
    IdsExhausted,
}

impl EntityError {
    /// The text of [`EntityError::message`].
    pub open spec fn text(self) -> Seq<char> {
        match self {
            EntityError::NotFound => "entity is not in the registry, or already deleted"@,
            EntityError::IdsExhausted => "no entity id is left"@,
        }
    }

    /// A sentence that describes the error, for logs and for people.
    pub fn message(&self) -> (s: String)
        ensures
            s@ == self.text(),
    {
        match self {
            EntityError::NotFound => "entity is not in the registry, or already deleted".to_owned(),
            EntityError::IdsExhausted => "no entity id is left".to_owned(),
        }
    }
}

/// How an entity meets others.
#[derive(Debug, PartialEq, Eq, Structural, Clone, Copy)]
pub enum PhysicsObjectCollisionTypes {
    /// Nothing ever touches it: smoke, vapour and the like.
    NotCollidable,
}

/// How an entity moves.  Velocities are in cells per second.
#[derive(Debug, PartialEq, Eq, Structural, Clone, Copy)]
pub struct PhysicsObject {
    pub collision_type: PhysicsObjectCollisionTypes,
    pub max_velocity: u8,
    pub max_acceleration: u8,
    pub current_velocity_x: i16,
    pub current_velocity_y: i16,
    pub current_acceleration_x: i8,
    pub current_acceleration_y: i8,
}

impl PhysicsObject {
    /// The physics of a thing at rest that nothing touches.
    pub open spec fn at_rest() -> PhysicsObject {
        PhysicsObject {
            collision_type: PhysicsObjectCollisionTypes::NotCollidable,
            max_velocity: 0,
            max_acceleration: 0,
            current_velocity_x: 0,
            current_velocity_y: 0,
            current_acceleration_x: 0,
            current_acceleration_y: 0,
        }
    }

    /// The physics of a new entity.
    pub fn new() -> (physics: PhysicsObject)
        ensures
            physics == PhysicsObject::at_rest(),
    {
        PhysicsObject {
            collision_type: PhysicsObjectCollisionTypes::NotCollidable,
            max_velocity: 0,
            max_acceleration: 0,
            current_velocity_x: 0,
            current_velocity_y: 0,
            current_acceleration_x: 0,
            current_acceleration_y: 0,
        }
    }

    /// Whether other things can touch this one.
    pub fn is_collidable(&self) -> (collidable: bool)
        ensures
            collidable == (self.collision_type != PhysicsObjectCollisionTypes::NotCollidable),
    {
        match self.collision_type {
            PhysicsObjectCollisionTypes::NotCollidable => false,
        }
    }
}

/// A thing on the map.
///
/// `layer_weight` says how entities stack where several share a cell: the
/// lighter one comes out on top (0 is lightest).  `last_sprite_update_millis`
/// counts down to the next update of the sprite and starts again from
/// `sprite_update_interval_reset`.
#[derive(Debug, PartialEq, Eq, Structural, Clone, Copy)]
pub struct Entity {
    pub id: TEntityID,
    pub sprite_id: TSpriteID,
    pub layer_weight: u8,
    pub current_sprite_index: u8,
    pub sprite_update_interval_reset: u128,
    pub last_sprite_update_millis: u128,
    pub health_points: u16,
    pub mana_points: u16,
    pub physics_info: PhysicsObject,
}

impl Entity {
    /// The entity that [`add`] makes: at rest, without health or mana, with
    /// its timer at 0, so that its sprite is updated when time first passes.
    pub open spec fn fresh(id: TEntityID, sprite_id: TSpriteID, layer_weight: u8) -> Entity {
        Entity {
            id,
            sprite_id,
            layer_weight,
            current_sprite_index: 0,
            sprite_update_interval_reset: SPRITE_UPDATE_INTERVAL,
            last_sprite_update_millis: 0,
            health_points: 0,
            mana_points: 0,
            physics_info: PhysicsObject::at_rest(),
        }
    }

    /// Whether the timer of the entity runs out within `elapsed`
    /// milliseconds.
    pub open spec fn timer_runs_out(self, elapsed: u128) -> bool {
        self.last_sprite_update_millis <= elapsed
    }

    /// The entity after `elapsed` milliseconds: its timer has run down by
    /// that much, or, where it ran out, starts again from the interval of
    /// the entity.
    pub open spec fn aged(self, elapsed: u128) -> Entity {
        Entity {
            last_sprite_update_millis: if self.timer_runs_out(elapsed) {
                self.sprite_update_interval_reset
            } else {
                (self.last_sprite_update_millis - elapsed) as u128
            },
            ..self
        }
    }

    /// Lets `last_frame_delta_millis` milliseconds pass for the entity; see
    /// [`Entity::aged`].  Where its timer runs out, its sprite is noted in
    /// `sprites` as due an update.
    pub fn update(&mut self, last_frame_delta_millis: u128, sprites: &mut SpriteFactory)
        ensures
            *final(self) == old(self).aged(last_frame_delta_millis),
            final(sprites)@ == marked(
                old(sprites)@,
                *old(self),
                last_frame_delta_millis,
            ),
    {
        if self.last_sprite_update_millis > last_frame_delta_millis {
            self.last_sprite_update_millis = self.last_sprite_update_millis
                - last_frame_delta_millis;
        } else {
            crate::sprite_system::add_sprite_for_update(sprites, self.sprite_id);
            self.last_sprite_update_millis = self.sprite_update_interval_reset;
        }
        assert(sprites@ =~= marked(old(sprites)@, *old(self), last_frame_delta_millis));
    }
}

/// The sprite registry after `elapsed` milliseconds passed for `entity`: the
/// sprite of the entity is due an update if the timer of the entity ran out.
pub open spec fn marked(
    sprites: SpriteFactoryView,
    entity: Entity,
    elapsed: u128,
) -> SpriteFactoryView {
    if entity.timer_runs_out(elapsed) {
        SpriteFactoryView { pending: sprites.pending.insert(entity.sprite_id), ..sprites }
    } else {
        sprites
    }
}

/// The ids of the entities, in the order of the entities.
pub open spec fn entity_ids(entities: Seq<Entity>) -> Seq<TEntityID> {
    entities.map_values(|entity: Entity| entity.id)
}

/// The ids grow from each entity to the next.
pub open spec fn entity_ids_ascend(entities: Seq<Entity>) -> bool {
    forall|i: int, j: int|
        0 <= i < j < entities.len() ==> (#[trigger] entities[i]).id < (#[trigger] entities[j]).id
}

/// The largest id among the entities, and 0 where there are none.
pub open spec fn largest_id(entities: Seq<Entity>) -> int {
    if entities.len() == 0 {
        0
    } else {
        entities.last().id as int
    }
}

/// The entity that goes by `id`, if there is one.
pub open spec fn entity_with_id(entities: Seq<Entity>, id: TEntityID) -> Option<Entity> {
    match entity_ids(entities).index_of_first(id) {
        Some(index) => Some(entities[index]),
        None => None,
    }
}

/// What an [`EntityFactory`] holds: the entities, by ascending id, and the
/// place in that list at which the next [`update`] is to go on.
pub struct EntityFactoryView {
    pub entities: Seq<Entity>,
    pub next_entity_to_update: usize,
}

/// The registry of entities.
pub struct EntityFactory {
    entities: Vec<Entity>,
    next_entity_to_update: usize,
}

impl View for EntityFactory {
    type V = EntityFactoryView;

    closed spec fn view(&self) -> EntityFactoryView {
        EntityFactoryView {
            entities: self.entities@,
            next_entity_to_update: self.next_entity_to_update,
        }
    }
}

impl EntityFactory {
    /// What every registry that this library hands out satisfies, and what
    /// its operations rely on: the entities stand by ascending id.
    pub open spec fn wf(&self) -> bool {
        entity_ids_ascend(self@.entities)
    }

    /// A registry without entities.
    pub fn new() -> (factory: EntityFactory)
        ensures
            factory.wf(),
            factory@.entities == Seq::<Entity>::empty(),
            factory@.next_entity_to_update == 0,
    {
        EntityFactory { entities: Vec::new(), next_entity_to_update: 0 }
    }
}

/// Where the entity that goes by `id` stands in the list.
fn find_entity(entities: &Vec<Entity>, id: TEntityID) -> (found: Option<usize>)
    requires
        entity_ids_ascend(entities@),
    ensures
        match found {
            Some(index) => entity_ids(entities@).index_of_first(id) == Some(index as int) && index
                < entities@.len(),
            None => entity_ids(entities@).index_of_first(id) is None,
        },
{
    let ghost ids = entity_ids(entities@);
    let mut low: usize = 0;
    let mut high: usize = entities.len();
    while low < high
        invariant
            low <= high <= entities@.len(),
            entity_ids_ascend(entities@),
            ids == entity_ids(entities@),
            forall|k: int| 0 <= k < low ==> ids[k] < id,
            forall|k: int| high <= k < ids.len() ==> ids[k] > id,
        decreases high - low,
    {
        let middle: usize = low + (high - low) / 2;
        let here: TEntityID = entities[middle].id;
        if here == id {
            proof {
                assert forall|i: int, j: int| 0 <= i < j < ids.len() implies ids[i] < ids[j] by {
                    assert(entities@[i].id < entities@[j].id);
                }
                lemma_only_index(ids, id, middle as int);
            }
            return Some(middle);
        } else if here < id {
            assert forall|k: int| 0 <= k < middle + 1 implies ids[k] < id by {
                if k < middle {
                    assert(entities@[k].id < entities@[middle as int].id);
                }
            }
            low = middle + 1;
        } else {
            assert forall|k: int| middle <= k < ids.len() implies ids[k] > id by {
                if k > middle {
                    assert(entities@[middle as int].id < entities@[k].id);
                }
            }
            high = middle;
        }
    }
    proof {
        lemma_no_index(ids, id);
    }
    None
}

/// Makes an entity that shows the sprite `sprite_id` and puts it at the end
/// of the registry.  Its id is one more than the largest id in the registry,
/// and 1 in an empty registry.  Where the largest id there can be is taken,
/// the registry stays as it was.
pub fn add(factory: &mut EntityFactory, sprite_id: TSpriteID, layer_weight: u8) -> (r: Result<
    TEntityID,
    EntityError,
>)
    requires
        old(factory).wf(),
    ensures
        final(factory).wf(),
        final(factory)@.next_entity_to_update == old(factory)@.next_entity_to_update,
        entity_ids(final(factory)@.entities) == ids_after_step(
            entity_ids(old(factory)@.entities),
            RegistryStep::Add,
        ),
        largest_id(old(factory)@.entities) == u16::MAX ==> r == Err::<TEntityID, EntityError>(
            EntityError::IdsExhausted,
        ) && final(factory)@ == old(factory)@,
        largest_id(old(factory)@.entities) < u16::MAX ==> r == Ok::<TEntityID, EntityError>(
            (largest_id(old(factory)@.entities) + 1) as u16,
        ) && final(factory)@.entities == old(factory)@.entities.push(
            Entity::fresh(r->Ok_0, sprite_id, layer_weight),
        ),
{
    let count: usize = factory.entities.len();
    let max_id: TEntityID = if count == 0 {
        0
    } else {
        factory.entities[count - 1].id
    };
    assert(largest_of(entity_ids(factory@.entities)) == largest_id(factory@.entities));
    if max_id == u16::MAX {
        return Err(EntityError::IdsExhausted);
    }
    let new_entity = Entity {
        id: max_id + 1,
        sprite_id: sprite_id,
        layer_weight: layer_weight,
        current_sprite_index: 0,
        sprite_update_interval_reset: SPRITE_UPDATE_INTERVAL,
        last_sprite_update_millis: 0,
        health_points: 0,
        mana_points: 0,
        physics_info: PhysicsObject::new(),
    };
    factory.entities.push(new_entity);
    assert(entity_ids_ascend(factory@.entities)) by {
        assert forall|i: int, j: int| 0 <= i < j < factory@.entities.len() implies (
        #[trigger] factory@.entities[i]).id < (#[trigger] factory@.entities[j]).id by {
            if j < count {
                assert(old(factory)@.entities[i].id < old(factory)@.entities[j].id);
            } else if i < count - 1 {
                assert(old(factory)@.entities[i].id < old(factory)@.entities[count - 1].id);
            }
        }
    }
    assert(entity_ids(factory@.entities) =~= entity_ids(old(factory)@.entities).push(
        new_entity.id,
    ));
    Ok(new_entity.id)
}

/// Takes the entity that goes by `entity_id` out of the registry and says
/// which sprite it showed.  The other entities keep their order.
pub fn remove(factory: &mut EntityFactory, entity_id: TEntityID) -> (r: Result<
    TSpriteID,
    EntityError,
>)
    requires
        old(factory).wf(),
    ensures
        final(factory).wf(),
        final(factory)@.next_entity_to_update == old(factory)@.next_entity_to_update,
        entity_ids(final(factory)@.entities) == ids_after_step(
            entity_ids(old(factory)@.entities),
            RegistryStep::Remove(entity_id),
        ),
        match entity_ids(old(factory)@.entities).index_of_first(entity_id) {
            Some(index) => r == Ok::<TSpriteID, EntityError>(
                old(factory)@.entities[index].sprite_id,
            ) && final(factory)@.entities == old(factory)@.entities.remove(index),
            None => r == Err::<TSpriteID, EntityError>(EntityError::NotFound) && final(factory)@
                == old(factory)@,
        },
{
    match find_entity(&factory.entities, entity_id) {
        Some(i) => {
            let x = factory.entities.remove(i);
            assert(entity_ids_ascend(factory@.entities)) by {
                assert forall|a: int, b: int| 0 <= a < b < factory@.entities.len() implies (
                #[trigger] factory@.entities[a]).id < (#[trigger] factory@.entities[b]).id by {
                    let from_a = if a < i {
                        a
                    } else {
                        a + 1
                    };
                    let from_b = if b < i {
                        b
                    } else {
                        b + 1
                    };
                    assert(old(factory)@.entities[from_a].id < old(factory)@.entities[from_b].id);
                }
            }
            assert(entity_ids(factory@.entities) =~= entity_ids(old(factory)@.entities).remove(
                i as int,
            ));
            Ok(x.sprite_id)
        },
        None => Err(EntityError::NotFound),
    }
}

/// Looks an entity up by its id.  `factory` is the registry if it could be
/// had without waiting, and `None` if it is busy: a busy registry answers
/// like one that does not hold the entity, so that a caller who already works
/// on the registry is never kept waiting for itself.  `None` from this
/// function therefore does not prove that there is no such entity.
pub fn try_get(factory: Option<&EntityFactory>, entity_id: TEntityID) -> (found: Option<Entity>)
    requires
        factory matches Some(registry) ==> registry.wf(),
    ensures
        found == match factory {
            Some(registry) => entity_with_id(registry@.entities, entity_id),
            None => None,
        },
{
    match factory {
        Some(registry) => match find_entity(&registry.entities, entity_id) {
            Some(entity_index) => Some(registry.entities[entity_index]),
            None => None,
        },
        None => None,
    }
}

/// Whether the entity at place `i` of `count` is among the `visits` entities
/// that a pass from place `start` on comes by.  A pass goes from each place
/// to the next and from the last to the first.
pub open spec fn visited(count: int, start: int, visits: int, i: int) -> bool {
    if start <= i {
        i - start < visits
    } else {
        i + count - start < visits
    }
}

/// The place that a pass over `count` entities from place `start` on stands
/// at after `visits` entities.
pub open spec fn place_after(count: int, start: int, visits: int) -> int {
    if start + visits < count {
        start + visits
    } else {
        start + visits - count
    }
}

/// The place at which a pass over `count` entities starts, given where the
/// pass before it stopped.
pub open spec fn start_of_pass(count: int, next_entity_to_update: int) -> int {
    if count == 0 {
        0
    } else {
        next_entity_to_update % count
    }
}

/// The entities after those that a pass of `visits` entities from place
/// `start` on came by have aged by `elapsed` milliseconds.
pub open spec fn entities_after_pass(
    entities: Seq<Entity>,
    start: int,
    visits: int,
    elapsed: u128,
) -> Seq<Entity> {
    Seq::new(
        entities.len(),
        |i: int|
            if visited(entities.len() as int, start, visits, i) {
                entities[i].aged(elapsed)
            } else {
                entities[i]
            },
    )
}

/// The sprites that are due an update after a pass of `visits` entities from
/// place `start` on: those that were due one before, and those of the
/// entities that the pass came by and whose timer ran out.
pub open spec fn pending_after_pass(
    pending: Set<TSpriteID>,
    entities: Seq<Entity>,
    start: int,
    visits: int,
    elapsed: u128,
) -> Set<TSpriteID> {
    Set::new(
        |sprite_id: TSpriteID|
            pending.contains(sprite_id) || exists|i: int|
                0 <= i < entities.len() && visited(entities.len() as int, start, visits, i)
                    && (#[trigger] entities[i]).timer_runs_out(elapsed) && entities[i].sprite_id
                    == sprite_id,
    )
}

/// The two registries after a pass of `visits` entities; see [`update`].
pub open spec fn pass_made(
    before: EntityFactoryView,
    sprites_before: SpriteFactoryView,
    elapsed: u128,
    visits: int,
    after: EntityFactoryView,
    sprites_after: SpriteFactoryView,
) -> bool {
    let count = before.entities.len() as int;
    let start = start_of_pass(count, before.next_entity_to_update as int);
    &&& after.entities == entities_after_pass(before.entities, start, visits, elapsed)
    &&& count > 0 ==> after.next_entity_to_update == place_after(count, start, visits)
    &&& count == 0 ==> after.next_entity_to_update == before.next_entity_to_update
    &&& sprites_after.sprites == sprites_before.sprites
    &&& sprites_after.pending == pending_after_pass(
        sprites_before.pending,
        before.entities,
        start,
        visits,
        elapsed,
    )
}

/// Whether a pass that has taken `elapsed` milliseconds has used up a time
/// slice of `max_time_slice` milliseconds.  A time slice of 0 is never used
/// up.
pub fn slice_used_up(elapsed: u128, max_time_slice: u128) -> (used_up: bool)
    ensures
        used_up == (max_time_slice > 0 && elapsed >= max_time_slice),
{
    max_time_slice > 0 && elapsed >= max_time_slice
}

/// Lets `last_frame_delta_millis` milliseconds pass for the entity at which
/// the pass stands, and moves the pass on by one place: what [`update`] does
/// for each entity that it comes by.
pub fn visit_next(
    factory: &mut EntityFactory,
    sprites: &mut SpriteFactory,
    last_frame_delta_millis: u128,
)
    requires
        old(factory).wf(),
        old(factory)@.entities.len() > 0,
    ensures
        final(factory).wf(),
        pass_made(
            old(factory)@,
            old(sprites)@,
            last_frame_delta_millis,
            1,
            final(factory)@,
            final(sprites)@,
        ),
{
    let count: usize = factory.entities.len();
    let entity_index: usize = factory.next_entity_to_update % count;
    let mut entity = factory.entities[entity_index];
    entity.update(last_frame_delta_millis, sprites);
    factory.entities[entity_index] = entity;
    if entity.physics_info.is_collidable() {
        let _partners = collision_partners(&factory.entities, entity_index);
    }
    factory.next_entity_to_update = if entity_index + 1 >= count {
        0
    } else {
        entity_index + 1
    };
    proof {
        let before = old(factory)@.entities;
        assert(factory@.entities =~= entities_after_pass(
            before,
            entity_index as int,
            1,
            last_frame_delta_millis,
        ));
        assert(entity_ids_ascend(factory@.entities)) by {
            assert forall|i: int, j: int| 0 <= i < j < factory@.entities.len() implies (
            #[trigger] factory@.entities[i]).id < (#[trigger] factory@.entities[j]).id by {
                assert(before[i].id < before[j].id);
            }
        }
        assert(sprites@.pending =~= pending_after_pass(
            old(sprites)@.pending,
            before,
            entity_index as int,
            1,
            last_frame_delta_millis,
        )) by {
            assert(visited(count as int, entity_index as int, 1, entity_index as int));
            assert(before[entity_index as int].sprite_id == entity.sprite_id);
        }
    }
}

/// Selects the places of the entities that the entity at `index` can touch:
/// every other entity that can be touched at all.
pub open spec fn touched_by(entities: Seq<Entity>, index: int) -> spec_fn(usize) -> bool {
    |other: usize|
        entities[other as int].id != entities[index].id
            && entities[other as int].physics_info.collision_type
            != PhysicsObjectCollisionTypes::NotCollidable
}

/// The places `0`, `1`, and so on, up to `count`.
pub open spec fn places(count: nat) -> Seq<usize> {
    Seq::new(count, |place: int| place as usize)
}

/// The places of the entities that the entity at `index` can touch, in
/// their order: all of the registry is looked at, not only what a pass came
/// by.
fn collision_partners(entities: &Vec<Entity>, index: usize) -> (partners: Vec<usize>)
    requires
        index < entities@.len(),
    ensures
        partners@ == places(entities@.len()).filter(touched_by(entities@, index as int)),
{
    let mut partners: Vec<usize> = Vec::new();
    let mut other: usize = 0;
    while other < entities.len()
        invariant
            index < entities@.len(),
            other <= entities@.len(),
            partners@ == places(other as nat).filter(touched_by(entities@, index as int)),
        decreases entities@.len() - other,
    {
        proof {
            assert(places((other + 1) as nat) =~= places(other as nat).push(other));
            places(other as nat).lemma_filter_push(other, touched_by(entities@, index as int));
        }
        if entities[other].id != entities[index].id && entities[other].physics_info.is_collidable() {
            partners.push(other);
        }
        other += 1;
    }
    partners
}

/// Lets `last_frame_delta_millis` milliseconds pass for the entities, as many
/// of them as the time slice allows.
///
/// The pass goes on where the pass before it stopped, from each entity to
/// the next and from the last to the first, and ages each entity that it
/// comes by; see [`Entity::update`].  It stops when it has come by every
/// entity once.  With `max_time_slice` above 0 it also stops, after any
/// entity, once it has taken that many milliseconds; it always comes by one
/// entity at least.  In an empty registry nothing happens.
pub fn update(
    factory: &mut EntityFactory,
    sprites: &mut SpriteFactory,
    last_frame_delta_millis: u128,
    max_time_slice: u128,
)
    requires
        old(factory).wf(),
    ensures
        final(factory).wf(),
        exists|visits: int|
            {
                &&& 0 <= visits <= old(factory)@.entities.len()
                &&& old(factory)@.entities.len() > 0 ==> visits >= 1
                &&& max_time_slice == 0 ==> visits == old(factory)@.entities.len()
                &&& #[trigger] pass_made(
                    old(factory)@,
                    old(sprites)@,
                    last_frame_delta_millis,
                    visits,
                    final(factory)@,
                    final(sprites)@,
                )
            },
{
    let start_time_now = Instant::now();
    let count: usize = factory.entities.len();
    if count == 0 {
        proof {
            assert(factory@.entities =~= entities_after_pass(
                factory@.entities,
                0,
                0,
                last_frame_delta_millis,
            ));
            assert(sprites@.pending =~= pending_after_pass(
                sprites@.pending,
                factory@.entities,
                0,
                0,
                last_frame_delta_millis,
            ));
            assert(pass_made(
                old(factory)@,
                old(sprites)@,
                last_frame_delta_millis,
                0,
                factory@,
                sprites@,
            ));
        }
        return ;
    }
    let ghost before = factory@;
    let ghost sprites_before = sprites@;
    let ghost start = start_of_pass(count as int, before.next_entity_to_update as int);
    let mut processed_entity_count: usize = 0;
    loop
        invariant_except_break
            processed_entity_count < count,
        invariant
            factory.wf(),
            before == old(factory)@,
            sprites_before == old(sprites)@,
            count == before.entities.len(),
            count > 0,
            start == start_of_pass(count as int, before.next_entity_to_update as int),
            0 <= processed_entity_count <= count,
            pass_made(
                before,
                sprites_before,
                last_frame_delta_millis,
                processed_entity_count as int,
                factory@,
                sprites@,
            ) || (processed_entity_count == 0 && factory@ == before && sprites@ == sprites_before),
        ensures
            processed_entity_count >= 1,
            max_time_slice == 0 ==> processed_entity_count == count,
            pass_made(
                before,
                sprites_before,
                last_frame_delta_millis,
                processed_entity_count as int,
                factory@,
                sprites@,
            ),
        decreases count - processed_entity_count,
    {
        let ghost midway = factory@;
        let ghost sprites_midway = sprites@;
        visit_next(factory, sprites, last_frame_delta_millis);
        proof {
            lemma_pass_goes_on(
                before,
                sprites_before,
                last_frame_delta_millis,
                processed_entity_count as int,
                midway,
                sprites_midway,
                factory@,
                sprites@,
            );
        }
        processed_entity_count += 1;
        if slice_used_up(start_time_now.elapsed().as_millis(), max_time_slice) {
            break ;
        }
        if processed_entity_count >= count {
            break ;
        }
    }
}

/// A pass of `visits` entities followed by one more entity is a pass of
/// `visits + 1` entities.
proof fn lemma_pass_goes_on(
    before: EntityFactoryView,
    sprites_before: SpriteFactoryView,
    elapsed: u128,
    visits: int,
    midway: EntityFactoryView,
    sprites_midway: SpriteFactoryView,
    after: EntityFactoryView,
    sprites_after: SpriteFactoryView,
)
    requires
        before.entities.len() > 0,
        0 <= visits < before.entities.len(),
        pass_made(before, sprites_before, elapsed, visits, midway, sprites_midway) || (visits == 0
            && midway == before && sprites_midway == sprites_before),
        pass_made(midway, sprites_midway, elapsed, 1, after, sprites_after),
    ensures
        pass_made(before, sprites_before, elapsed, visits + 1, after, sprites_after),
{
    let count = before.entities.len() as int;
    let start = start_of_pass(count, before.next_entity_to_update as int);
    let here = start_of_pass(count, midway.next_entity_to_update as int);
    assert(midway.entities.len() == count);
    assert(0 <= start < count);
    assert(here == place_after(count, start, visits)) by {
        if visits == 0 && midway == before {
        } else {
            vstd::arithmetic::div_mod::lemma_small_mod(
                place_after(count, start, visits) as nat,
                count as nat,
            );
        }
    }
    assert(forall|i: int|
        0 <= i < count ==> (visited(count, start, visits + 1, i) <==> (visited(
            count,
            start,
            visits,
            i,
        ) || i == here)));
    assert(forall|i: int| 0 <= i < count ==> (visited(count, here, 1, i) <==> i == here));
    assert(!visited(count, start, visits, here));
    assert forall|i: int| 0 <= i < count implies midway.entities[i] == (if visited(
        count,
        start,
        visits,
        i,
    ) {
        before.entities[i].aged(elapsed)
    } else {
        before.entities[i]
    }) by {
        if visits == 0 && midway == before {
        }
    }
    assert(after.entities =~= entities_after_pass(before.entities, start, visits + 1, elapsed));
    assert(after.next_entity_to_update == place_after(count, start, visits + 1));
    assert(sprites_midway.pending =~= pending_after_pass(
        sprites_before.pending,
        before.entities,
        start,
        visits,
        elapsed,
    ));
    assert(sprites_after.pending =~= pending_after_pass(
        sprites_before.pending,
        before.entities,
        start,
        visits + 1,
        elapsed,
    )) by {
        assert(midway.entities[here] == before.entities[here]);
        assert forall|sprite_id: TSpriteID|
            sprites_after.pending.contains(sprite_id) <==> pending_after_pass(
                sprites_before.pending,
                before.entities,
                start,
                visits + 1,
                elapsed,
            ).contains(sprite_id) by {
            if sprites_after.pending.contains(sprite_id) {
                if sprites_midway.pending.contains(sprite_id) {
                    if !sprites_before.pending.contains(sprite_id) {
                        let i = choose|i: int|
                            0 <= i < count && visited(count, start, visits, i) && (
                            #[trigger] before.entities[i]).timer_runs_out(elapsed)
                                && before.entities[i].sprite_id == sprite_id;
                        assert(visited(count, start, visits + 1, i));
                    }
                } else {
                    let i = choose|i: int|
                        0 <= i < count && visited(count, here, 1, i) && (
                        #[trigger] midway.entities[i]).timer_runs_out(elapsed)
                            && midway.entities[i].sprite_id == sprite_id;
                    assert(i == here);
                    assert(visited(count, start, visits + 1, here));
                    assert(before.entities[here].timer_runs_out(elapsed));
                }
            }
            if pending_after_pass(
                sprites_before.pending,
                before.entities,
                start,
                visits + 1,
                elapsed,
            ).contains(sprite_id) {
                if !sprites_before.pending.contains(sprite_id) {
                    let i = choose|i: int|
                        0 <= i < count && visited(count, start, visits + 1, i) && (
                        #[trigger] before.entities[i]).timer_runs_out(elapsed)
                            && before.entities[i].sprite_id == sprite_id;
                    if i == here {
                        assert(visited(count, here, 1, here));
                        assert(midway.entities[here].timer_runs_out(elapsed));
                    } else {
                        assert(visited(count, start, visits, i));
                    }
                }
            }
        }
    }
}

/// Empties the registry of its entities.
pub fn reset(factory: &mut EntityFactory)
    requires
        old(factory).wf(),
    ensures
        final(factory).wf(),
        final(factory)@.entities == Seq::<Entity>::empty(),
        final(factory)@.next_entity_to_update == old(factory)@.next_entity_to_update,
{
    factory.entities.clear();
}

/// One step in the life of a registry: an entity is added, or the entity
/// that goes by an id is removed.
pub enum RegistryStep {
    Add,
    Remove(TEntityID),
}

/// The largest of ids that grow from each to the next, and 0 where there are
/// none.
pub open spec fn largest_of(ids: Seq<TEntityID>) -> int {
    if ids.len() == 0 {
        0
    } else {
        ids.last() as int
    }
}

/// The ids in a registry that held `ids` and went through `step`: what
/// [`add`] and [`remove`] do to the ids of the entities.
pub open spec fn ids_after_step(ids: Seq<TEntityID>, step: RegistryStep) -> Seq<TEntityID> {
    match step {
        RegistryStep::Add => if largest_of(ids) < u16::MAX {
            ids.push((largest_of(ids) + 1) as u16)
        } else {
            ids
        },
        RegistryStep::Remove(id) => match ids.index_of_first(id) {
            Some(index) => ids.remove(index),
            None => ids,
        },
    }
}

/// The ids in a registry that was empty and went through `steps`.
pub open spec fn ids_after(steps: Seq<RegistryStep>) -> Seq<TEntityID>
    decreases steps.len(),
{
    if steps.len() == 0 {
        Seq::<TEntityID>::empty()
    } else {
        ids_after_step(ids_after(steps.drop_last()), steps.last())
    }
}

/// The id that step `k` of `steps` gave out, if it gave one out.
pub open spec fn issued(steps: Seq<RegistryStep>, k: int) -> Option<TEntityID> {
    let before = ids_after(steps.take(k));
    match steps[k] {
        RegistryStep::Add => if largest_of(before) < u16::MAX {
            Some((largest_of(before) + 1) as u16)
        } else {
            None
        },
        RegistryStep::Remove(_) => None,
    }
}

/// None of `steps` removes the entity that has the largest id at the time.
pub open spec fn keeps_largest(steps: Seq<RegistryStep>) -> bool {
    forall|k: int|
        0 <= k < steps.len() ==> (#[trigger] steps[k] matches RegistryStep::Remove(id) ==> id
            != largest_of(ids_after(steps.take(k))))
}

/// The ids of the entities grow from each to the next.
pub open spec fn ids_ascend(ids: Seq<TEntityID>) -> bool {
    forall|i: int, j: int| 0 <= i < j < ids.len() ==> ids[i] < ids[j]
}

/// Whatever a registry goes through, its ids grow from each to the next.
pub proof fn lemma_ids_after_ascend(steps: Seq<RegistryStep>)
    ensures
        ids_ascend(ids_after(steps)),
    decreases steps.len(),
{
    if steps.len() > 0 {
        lemma_ids_after_ascend(steps.drop_last());
        let before = ids_after(steps.drop_last());
        match steps.last() {
            RegistryStep::Add => {},
            RegistryStep::Remove(id) => {
                before.index_of_first_ensures(id);
            },
        }
    }
}

/// As long as the entity with the largest id is never removed, no id that
/// was given out is larger than the largest id in the registry.
pub proof fn lemma_largest_is_high_water(steps: Seq<RegistryStep>, earlier: int)
    requires
        0 <= earlier < steps.len(),
        keeps_largest(steps),
    ensures
        issued(steps, earlier) matches Some(id) ==> id <= largest_of(ids_after(steps)),
    decreases steps.len(),
{
    let before = steps.drop_last();
    let last = steps.len() - 1;
    assert(steps.take(last) == before);
    lemma_ids_after_ascend(before);
    let ids = ids_after(before);
    assert(largest_of(ids) <= largest_of(ids_after(steps))) by {
        match steps.last() {
            RegistryStep::Add => {},
            RegistryStep::Remove(id) => {
                ids.index_of_first_ensures(id);
                assert(steps[last] matches RegistryStep::Remove(id) && id != largest_of(ids));
            },
        }
    }
    if earlier < last {
        assert(keeps_largest(before)) by {
            assert forall|k: int| 0 <= k < before.len() implies (
            #[trigger] before[k] matches RegistryStep::Remove(id) ==> id != largest_of(
                ids_after(before.take(k)),
            )) by {
                assert(before.take(k) == steps.take(k));
                assert(before[k] == steps[k]);
            }
        }
        assert(before.take(earlier) == steps.take(earlier));
        assert(issued(before, earlier) == issued(steps, earlier));
        lemma_largest_is_high_water(before, earlier);
    }
}

/// An id that [`add`] gives out is larger than every id that the registry
/// gave out before, as long as the entity with the largest id was never
/// removed.  (After such a removal the next entity gets the id of the
/// removed one or a lower one: [`add`] goes by the ids that are in the
/// registry, and keeps no count of those that have left.)
pub proof fn lemma_new_id_is_largest_so_far(steps: Seq<RegistryStep>, earlier: int, later: int)
    requires
        0 <= earlier < later < steps.len(),
        keeps_largest(steps.take(later)),
    ensures
        issued(steps, earlier) matches Some(old_id) ==> (issued(steps, later) matches Some(new_id)
            ==> old_id < new_id),
{
    let before = steps.take(later);
    assert(before.take(earlier) == steps.take(earlier));
    assert(issued(before, earlier) == issued(steps, earlier));
    lemma_largest_is_high_water(before, earlier);
}

/// The id that [`add`] gives out is larger than every id in the registry.
pub proof fn lemma_new_id_is_unused(entities: Seq<Entity>, i: int)
    requires
        entity_ids_ascend(entities),
        0 <= i < entities.len(),
    ensures
        entities[i].id < largest_id(entities) + 1,
{
    if i < entities.len() - 1 {
        assert(entities[i].id < entities[entities.len() - 1].id);
    }
}

/// An entity that was removed is gone: to remove it once more gives
/// [`EntityError::NotFound`].
pub proof fn lemma_removed_is_gone(entities: Seq<Entity>, id: TEntityID)
    requires
        entity_ids_ascend(entities),
        entity_ids(entities).index_of_first(id) is Some,
    ensures
        entity_ids(entities.remove(entity_ids(entities).index_of_first(id).unwrap())).index_of_first(
            id,
        ) is None,
        entity_ids_ascend(entities.remove(entity_ids(entities).index_of_first(id).unwrap())),
{
    let ids = entity_ids(entities);
    ids.index_of_first_ensures(id);
    let index = ids.index_of_first(id).unwrap();
    let left = entities.remove(index);
    assert forall|a: int, b: int| 0 <= a < b < left.len() implies (#[trigger] left[a]).id < (
    #[trigger] left[b]).id by {
        let from_a = if a < index {
            a
        } else {
            a + 1
        };
        let from_b = if b < index {
            b
        } else {
            b + 1
        };
        assert(entities[from_a].id < entities[from_b].id);
    }
    assert forall|j: int| 0 <= j < left.len() implies entity_ids(left)[j] != id by {
        let from = if j < index {
            j
        } else {
            j + 1
        };
        assert(left[j] == entities[from]);
        if from < index {
            assert(entities[from].id < entities[index].id);
        } else {
            assert(entities[index].id < entities[from].id);
        }
    }
    lemma_no_index(entity_ids(left), id);
}

/// `std::time::Instant::now`: the present moment.  Nothing is claimed of it.
pub assume_specification[ Instant::now ]() -> (now: Instant)
;

/// `std::time::Instant::elapsed`: the time that has passed since `start`.
/// Nothing is claimed of it: it differs from call to call.
pub assume_specification[ Instant::elapsed ](start: &Instant) -> (elapsed: Duration)
;

/// `std::time::Duration::as_millis`: the whole milliseconds in `duration`.
/// Nothing is claimed of the number.
pub assume_specification[ Duration::as_millis ](duration: &Duration) -> (millis: u128)
;

/// `std::time::Instant`, a moment on a clock that never runs backwards.  Its
/// value is of no concern here: it is only carried from one call to another.
#[verifier::external_type_specification]
#[verifier::external_body]
pub struct ExInstant(Instant);

} // verus!
