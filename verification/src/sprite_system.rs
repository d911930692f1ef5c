//! The sprite registry: what the sprites of each resource look like.
//!
//! A resource is a group of sprites (say, all sprites of an ogre), a subgroup
//! is one animation of the group (the ogre walking), and the sprites of a
//! subgroup, taken by ascending sub-id, are the frames of that animation.  The
//! registry keeps all sprites in one flat list, so that removing a sprite never
//! leaves a group or a subgroup to tidy up.
//!
//! The registry does not know any image format: whoever registers a group
//! hands in the decoder that turns the resource into sprites.

use crate::ids::{lemma_first_index, lemma_no_index};
use crate::resource_system::TResourceID;
use std::collections::HashSet;
use vstd::prelude::*;
use vstd::std_specs::hash::group_hash_axioms;

verus! {

/// Names a subgroup within its group, from 0 on.
pub type TSpriteSubGroupID = u8;

/// Names a sprite within the sprites that were registered with it, from 0 on.
pub type TSubSpriteID = u8;

/// Names a sprite among all sprites.
pub type TSpriteID = u16;

/// A group can number this many sprites: each gets a sub-id of its own.
pub const MAX_SPRITES_PER_GROUP: usize = 256;

/// Why a request to the sprite registry was refused.
#[derive(Debug, PartialEq, Eq, Structural, Clone, Copy)]
pub enum SpriteError {
    /// No sprite goes by that id, or no sprite belongs to that group.
    NotFound,
    /// The decoder made more than [`MAX_SPRITES_PER_GROUP`] sprites of one
    /// resource.
    GroupTooLarge,
}

impl SpriteError {
    /// The text of [`SpriteError::message`].
    pub open spec fn text(self) -> Seq<char> {
        match self {
            SpriteError::NotFound => "Unable to locate the sprite in current sprite collection"@,
            SpriteError::GroupTooLarge => "Sprite group holds more than 256 sprites"@,
        }
    }

    /// A sentence that describes the error, for logs and for people.
    pub fn message(&self) -> (s: String)
        ensures
            s@ == self.text(),
    {
        match self {
            SpriteError::NotFound =>
                "Unable to locate the sprite in current sprite collection".to_owned(),
            SpriteError::GroupTooLarge => "Sprite group holds more than 256 sprites".to_owned(),
        }
    }
}

/// What a sprite looks like: its size, the point by which it is placed and
/// the rectangle with which it collides.  The hotpoint and the collision
/// rectangle are measured from the upper left corner of the sprite.
#[derive(Debug, PartialEq, Eq, Structural, Clone, Copy)]
pub struct Sprite {
    pub id: TSpriteID,
    pub group_id: TResourceID,
    pub subgroup_id: TSpriteSubGroupID,
    pub sub_id: TSubSpriteID,
    pub width: u16,
    pub height: u16,
    pub hotpoint_x: i16,
    pub hotpoint_y: i16,
    pub collision_rect_upper_left_x: i16,
    pub collision_rect_upper_left_y: i16,
    pub collision_rect_width: u16,
    pub collision_rect_height: u16,
}

impl Sprite {
    /// A sprite of no size, for a decoder to fill in.
    pub fn new() -> (sprite: Sprite)
        ensures
            sprite == Sprite::blank(),
    {
        Sprite {
            id: 0,
            group_id: 0,
            subgroup_id: 0,
            sub_id: 0,
            width: 0,
            height: 0,
            hotpoint_x: 0,
            hotpoint_y: 0,
            collision_rect_upper_left_x: 0,
            collision_rect_upper_left_y: 0,
            collision_rect_width: 0,
            collision_rect_height: 0,
        }
    }

    /// The sprite whose every field is 0.
    pub open spec fn blank() -> Sprite {
        Sprite {
            id: 0,
            group_id: 0,
            subgroup_id: 0,
            sub_id: 0,
            width: 0,
            height: 0,
            hotpoint_x: 0,
            hotpoint_y: 0,
            collision_rect_upper_left_x: 0,
            collision_rect_upper_left_y: 0,
            collision_rect_width: 0,
            collision_rect_height: 0,
        }
    }

    /// Brings the sprite up to date.  A sprite only describes a picture, so
    /// there is nothing in it that could go out of date.
    pub fn update(&self) {
    }
}

/// Selects the sprites of group `group_id`.
pub open spec fn in_group(group_id: TResourceID) -> spec_fn(Sprite) -> bool {
    |sprite: Sprite| sprite.group_id == group_id
}

/// Selects the sprites of all groups but `group_id`.
pub open spec fn outside_group(group_id: TResourceID) -> spec_fn(Sprite) -> bool {
    |sprite: Sprite| sprite.group_id != group_id
}

/// Selects the sprites of the subgroups that go by `subgroup_id`.
pub open spec fn in_subgroup(subgroup_id: TSpriteSubGroupID) -> spec_fn(Sprite) -> bool {
    |sprite: Sprite| sprite.subgroup_id == subgroup_id
}

/// The ids of the sprites, in the order of the sprites.
pub open spec fn sprite_ids(sprites: Seq<Sprite>) -> Seq<TSpriteID> {
    sprites.map_values(|sprite: Sprite| sprite.id)
}

/// The subgroups of the sprites, in the order of the sprites.
pub open spec fn subgroup_ids(sprites: Seq<Sprite>) -> Seq<TSpriteSubGroupID> {
    sprites.map_values(|sprite: Sprite| sprite.subgroup_id)
}

/// The sub-ids of the sprites, in the order of the sprites.
pub open spec fn sub_ids(sprites: Seq<Sprite>) -> Seq<TSubSpriteID> {
    sprites.map_values(|sprite: Sprite| sprite.sub_id)
}

/// The first sprite that goes by `id`, if there is one.
pub open spec fn sprite_with_id(sprites: Seq<Sprite>, id: TSpriteID) -> Option<Sprite> {
    match sprite_ids(sprites).index_of_first(id) {
        Some(index) => Some(sprites[index]),
        None => None,
    }
}

/// The sprites as a decoder made them, each with its place in the list as its
/// sub-id.
pub open spec fn numbered(decoded: Seq<Sprite>) -> Seq<Sprite> {
    Seq::new(decoded.len(), |i: int| Sprite { sub_id: i as u8, ..decoded[i] })
}

/// What a [`SpriteFactory`] holds: the sprites, in the order in which they
/// were registered, and the ids of the sprites that wait for an update.
pub struct SpriteFactoryView {
    pub sprites: Seq<Sprite>,
    pub pending: Set<TSpriteID>,
}

/// The registry of sprites.
pub struct SpriteFactory {
    sprites: Vec<Sprite>,
    updates: HashSet<TSpriteID>,
}

impl View for SpriteFactory {
    type V = SpriteFactoryView;

    closed spec fn view(&self) -> SpriteFactoryView {
        SpriteFactoryView { sprites: self.sprites@, pending: self.updates@ }
    }
}

impl SpriteFactory {
    /// A registry without sprites.
    pub fn new() -> (factory: SpriteFactory)
        ensures
            factory@.sprites == Seq::<Sprite>::empty(),
            factory@.pending == Set::<TSpriteID>::empty(),
    {
        SpriteFactory { sprites: Vec::new(), updates: HashSet::new() }
    }
}

/// The decoder of a resource that holds no sprites.
pub fn default_deserialize_sprite(_temp_sprite_resource_id: &TResourceID) -> (sprites: Vec<Sprite>)
    ensures
        sprites@ == Seq::<Sprite>::empty(),
{
    Vec::new()
}

/// Where the first sprite that goes by `id` stands in the list.
fn find_sprite(sprites: &Vec<Sprite>, id: TSpriteID) -> (found: Option<usize>)
    ensures
        match found {
            Some(index) => sprite_ids(sprites@).index_of_first(id) == Some(index as int) && index
                < sprites@.len(),
            None => sprite_ids(sprites@).index_of_first(id) is None,
        },
{
    let mut i: usize = 0;
    while i < sprites.len()
        invariant
            i <= sprites@.len(),
            forall|j: int| 0 <= j < i ==> sprite_ids(sprites@)[j] != id,
        decreases sprites@.len() - i,
    {
        if sprites[i].id == id {
            proof {
                lemma_first_index(sprite_ids(sprites@), id, i as int);
            }
            return Some(i);
        }
        i += 1;
    }
    proof {
        lemma_no_index(sprite_ids(sprites@), id);
    }
    None
}

/// Looks a sprite up by its id.  `factory` is the registry if it could be had
/// without waiting, and `None` if it is busy: a busy registry answers like one
/// that does not hold the sprite, so that a caller who already works on the
/// registry is never kept waiting for itself.  `None` from this function
/// therefore does not prove that there is no such sprite.
pub fn try_get(factory: Option<&SpriteFactory>, internal_sprite_id: &TSpriteID) -> (found: Option<
    Sprite,
>)
    ensures
        found == match factory {
            Some(registry) => sprite_with_id(registry@.sprites, *internal_sprite_id),
            None => None,
        },
{
    match factory {
        Some(registry) => match find_sprite(&registry.sprites, *internal_sprite_id) {
            Some(index) => Some(registry.sprites[index]),
            None => None,
        },
        None => None,
    }
}

/// The subgroups of the list, each once, in the order in which they first
/// occur.
pub open spec fn once_each(subgroups: Seq<TSpriteSubGroupID>) -> Seq<TSpriteSubGroupID>
    decreases subgroups.len(),
{
    if subgroups.len() == 0 {
        subgroups
    } else {
        let before = once_each(subgroups.drop_last());
        if before.contains(subgroups.last()) {
            before
        } else {
            before.push(subgroups.last())
        }
    }
}

/// The set of a list with one more item is the set of the list with that
/// item.
proof fn lemma_push_to_set(list: Seq<TSpriteSubGroupID>, item: TSpriteSubGroupID)
    ensures
        list.push(item).to_set() == list.to_set().insert(item),
{
    let longer = list.push(item);
    assert forall|g: TSpriteSubGroupID| longer.to_set().contains(g) implies list.to_set().insert(
        item,
    ).contains(g) by {
        let k = choose|k: int| 0 <= k < longer.len() && longer[k] == g;
        if k < list.len() {
            assert(list[k] == g);
        }
    }
    assert forall|g: TSpriteSubGroupID| list.to_set().insert(item).contains(
        g,
    ) implies longer.to_set().contains(g) by {
        if g == item {
            assert(longer[list.len() as int] == g);
        } else {
            let k = choose|k: int| 0 <= k < list.len() && list[k] == g;
            assert(longer[k] == g);
        }
    }
    assert(longer.to_set() =~= list.to_set().insert(item));
}

/// A list with each of its subgroups once holds no subgroup twice, holds
/// the subgroups of the list and no others, and is empty only where the
/// list is.
pub proof fn lemma_once_each(subgroups: Seq<TSpriteSubGroupID>)
    ensures
        once_each(subgroups).no_duplicates(),
        once_each(subgroups).to_set() == subgroups.to_set(),
        (once_each(subgroups).len() == 0) == (subgroups.len() == 0),
    decreases subgroups.len(),
{
    if subgroups.len() == 0 {
    } else {
        let shorter = subgroups.drop_last();
        let item = subgroups.last();
        let before = once_each(shorter);
        lemma_once_each(shorter);
        assert(shorter.push(item) =~= subgroups);
        lemma_push_to_set(shorter, item);
        if before.contains(item) {
            assert(before.to_set().contains(item));
            assert(shorter.to_set().insert(item) =~= shorter.to_set());
        } else {
            lemma_push_to_set(before, item);
            assert forall|i: int, j: int|
                0 <= i < before.push(item).len() && 0 <= j < before.push(item).len() && i
                    != j implies before.push(item)[i] != before.push(item)[j] by {
                if i < before.len() && j < before.len() {
                    assert(before[i] != before[j]);
                } else if i < before.len() {
                    assert(before[i] != item);
                } else {
                    assert(before[j] != item);
                }
            }
        }
    }
}

/// Whether `subgroup` is among `subgroups`.
fn holds_subgroup(subgroups: &Vec<TSpriteSubGroupID>, subgroup: TSpriteSubGroupID) -> (held: bool)
    ensures
        held == subgroups@.contains(subgroup),
{
    let mut i: usize = 0;
    while i < subgroups.len()
        invariant
            i <= subgroups@.len(),
            forall|j: int| 0 <= j < i ==> subgroups@[j] != subgroup,
        decreases subgroups@.len() - i,
    {
        if subgroups[i] == subgroup {
            return true;
        }
        i += 1;
    }
    false
}

/// The subgroups that hold a sprite of group `resource_id`: each subgroup
/// once, in the order in which their first sprites were registered.  A busy
/// registry (`None`) answers like one without such sprites.
pub fn try_get_sub_groups(factory: Option<&SpriteFactory>, resource_id: &TResourceID) -> (found:
    Vec<TSpriteSubGroupID>)
    ensures
        found@ == match factory {
            Some(registry) => once_each(
                subgroup_ids(registry@.sprites.filter(in_group(*resource_id))),
            ),
            None => Seq::<TSpriteSubGroupID>::empty(),
        },
        found@.no_duplicates(),
        found@.to_set() == match factory {
            Some(registry) => subgroups_of(registry@.sprites, *resource_id),
            None => Set::<TSpriteSubGroupID>::empty(),
        },
{
    let mut found: Vec<TSpriteSubGroupID> = Vec::new();
    if let Some(registry) = factory {
        let mut i: usize = 0;
        while i < registry.sprites.len()
            invariant
                i <= registry.sprites@.len(),
                found@ == once_each(
                    subgroup_ids(registry.sprites@.take(i as int).filter(in_group(*resource_id))),
                ),
            decreases registry.sprites@.len() - i,
        {
            let sprite = registry.sprites[i];
            proof {
                let seen = registry.sprites@.take(i as int);
                let of_group = seen.filter(in_group(*resource_id));
                assert(registry.sprites@.take(i + 1) == seen.push(sprite));
                seen.lemma_filter_push(sprite, in_group(*resource_id));
                assert(subgroup_ids(of_group.push(sprite)).drop_last() =~= subgroup_ids(of_group));
            }
            if sprite.group_id == *resource_id && !holds_subgroup(&found, sprite.subgroup_id) {
                found.push(sprite.subgroup_id);
            }
            i += 1;
        }
        proof {
            assert(registry.sprites@.take(i as int) == registry.sprites@);
            lemma_once_each(subgroup_ids(registry@.sprites.filter(in_group(*resource_id))));
        }
    } else {
        assert(found@.to_set() =~= Set::<TSpriteSubGroupID>::empty());
    }
    found
}

/// The sprites of the subgroups that go by `sub_group_id`, whatever their
/// group, in the order in which they were registered.  A busy registry
/// (`None`) answers like one without such sprites.
pub fn try_get_sprites(factory: Option<&SpriteFactory>, sub_group_id: &TSpriteSubGroupID) -> (found:
    Vec<Sprite>)
    ensures
        found@ == match factory {
            Some(registry) => registry@.sprites.filter(in_subgroup(*sub_group_id)),
            None => Seq::<Sprite>::empty(),
        },
{
    let mut found: Vec<Sprite> = Vec::new();
    if let Some(registry) = factory {
        let mut i: usize = 0;
        while i < registry.sprites.len()
            invariant
                i <= registry.sprites@.len(),
                found@ == registry.sprites@.take(i as int).filter(in_subgroup(*sub_group_id)),
            decreases registry.sprites@.len() - i,
        {
            let sprite = registry.sprites[i];
            proof {
                let seen = registry.sprites@.take(i as int);
                assert(registry.sprites@.take(i + 1) == seen.push(sprite));
                seen.lemma_filter_push(sprite, in_subgroup(*sub_group_id));
            }
            if sprite.subgroup_id == *sub_group_id {
                found.push(sprite);
            }
            i += 1;
        }
        assert(registry.sprites@.take(i as int) == registry.sprites@);
    }
    found
}

/// The set of the given subgroups.
fn subgroup_set(subgroups: &Vec<TSpriteSubGroupID>) -> (set: HashSet<TSpriteSubGroupID>)
    ensures
        set@ == subgroups@.to_set(),
{
    broadcast use group_hash_axioms;

    let mut set: HashSet<TSpriteSubGroupID> = HashSet::new();
    let mut i: usize = 0;
    while i < subgroups.len()
        invariant
            i <= subgroups@.len(),
            set@ == subgroups@.take(i as int).to_set(),
        decreases subgroups@.len() - i,
    {
        proof {
            let seen = subgroups@.take(i as int);
            assert(subgroups@.take(i + 1) == seen.push(subgroups@[i as int]));
            lemma_push_to_set(seen, subgroups@[i as int]);
        }
        set.insert(subgroups[i]);
        i += 1;
    }
    assert(subgroups@.take(i as int) == subgroups@);
    set
}

/// The subgroups that hold a sprite of group `resource_id`.
pub open spec fn subgroups_of(sprites: Seq<Sprite>, resource_id: TResourceID) -> Set<
    TSpriteSubGroupID,
> {
    subgroup_ids(sprites.filter(in_group(resource_id))).to_set()
}

/// Registers the sprites of resource `resource_id`.
///
/// Where the registry already holds sprites of that group, nothing is
/// decoded and nothing changes: the subgroups of those sprites are returned,
/// so that registering a group twice does no harm.  The decoder is then not
/// called, and need not be one that could be.  Otherwise
/// `func_deserialize_sprites` is called once, on `resource_id`, and what it
/// returns is taken in as [`insert_group`] says.
pub fn add(
    factory: &mut SpriteFactory,
    resource_id: &TResourceID,
    func_deserialize_sprites: impl Fn(&TResourceID) -> Vec<Sprite>,
) -> (r: Result<HashSet<TSpriteSubGroupID>, SpriteError>)
    requires
        old(factory)@.sprites.filter(in_group(*resource_id)).len() == 0 ==> call_requires(
            func_deserialize_sprites,
            (resource_id,),
        ),
    ensures
        old(factory)@.sprites.filter(in_group(*resource_id)).len() > 0 ==> r is Ok && r->Ok_0@
            == subgroups_of(old(factory)@.sprites, *resource_id) && final(factory)@ == old(factory)@,
        old(factory)@.sprites.filter(in_group(*resource_id)).len() == 0 ==> exists|
            decoded: Vec<Sprite>,
        |
            {
                &&& call_ensures(func_deserialize_sprites, (resource_id,), decoded)
                &&& group_inserted(old(factory)@, decoded@, r, final(factory)@)
            },
{
    let known = try_get_sub_groups(Some(&*factory), resource_id);
    proof {
        lemma_once_each(subgroup_ids(factory@.sprites.filter(in_group(*resource_id))));
    }
    if known.len() > 0 {
        return Ok(subgroup_set(&known));
    }
    let decoded = func_deserialize_sprites(resource_id);
    let ghost handed_in = decoded;
    let r = insert_group(factory, decoded);
    assert(group_inserted(old(factory)@, handed_in@, r, factory@));
    r
}

/// What [`insert_group`] makes of a registry and of the sprites `decoded`: the
/// registry after it and what it returns.
pub open spec fn group_inserted(
    before: SpriteFactoryView,
    decoded: Seq<Sprite>,
    r: Result<HashSet<TSpriteSubGroupID>, SpriteError>,
    after: SpriteFactoryView,
) -> bool {
    if decoded.len() > MAX_SPRITES_PER_GROUP {
        r == Err::<HashSet<TSpriteSubGroupID>, SpriteError>(SpriteError::GroupTooLarge) && after
            == before
    } else {
        &&& r is Ok
        &&& r->Ok_0@ == subgroup_ids(decoded).to_set()
        &&& after.sprites == before.sprites + numbered(decoded)
        &&& after.pending == before.pending
    }
}

/// Takes in the sprites that a decoder made of one resource.
///
/// The sprites go to the end of the registry in the order in which they
/// come, and each gets its place in `decoded`, from 0 on, as its sub-id.
/// Returned are the subgroups of the new sprites.  More than
/// [`MAX_SPRITES_PER_GROUP`] sprites are refused, and the registry stays as
/// it was.
pub fn insert_group(factory: &mut SpriteFactory, decoded: Vec<Sprite>) -> (r: Result<
    HashSet<TSpriteSubGroupID>,
    SpriteError,
>)
    ensures
        group_inserted(old(factory)@, decoded@, r, final(factory)@),
{
    if decoded.len() > MAX_SPRITES_PER_GROUP {
        return Err(SpriteError::GroupTooLarge);
    }
    let mut subgroups: Vec<TSpriteSubGroupID> = Vec::new();
    let mut index: usize = 0;
    while index < decoded.len()
        invariant
            index <= decoded@.len() <= MAX_SPRITES_PER_GROUP,
            subgroups@ == subgroup_ids(decoded@.take(index as int)),
            factory.sprites@ == old(factory).sprites@ + numbered(decoded@).take(index as int),
            factory.updates == old(factory).updates,
        decreases decoded@.len() - index,
    {
        let mut sprite = decoded[index];
        sprite.sub_id = index as u8;
        assert(sprite == numbered(decoded@)[index as int]);
        factory.sprites.push(sprite);
        subgroups.push(sprite.subgroup_id);
        index += 1;
    }
    assert(decoded@.take(index as int) == decoded@);
    assert(numbered(decoded@).take(index as int) == numbered(decoded@));
    Ok(subgroup_set(&subgroups))
}

/// Takes the first sprite that goes by `sprite_id` out of the registry and
/// says which subgroup of which group it belonged to.
pub fn remove(factory: &mut SpriteFactory, sprite_id: TSpriteID) -> (r: Result<
    (TSpriteSubGroupID, TResourceID),
    SpriteError,
>)
    ensures
        final(factory)@.pending == old(factory)@.pending,
        match sprite_ids(old(factory)@.sprites).index_of_first(sprite_id) {
            Some(index) => r == Ok::<(TSpriteSubGroupID, TResourceID), SpriteError>(
                (
                    old(factory)@.sprites[index].subgroup_id,
                    old(factory)@.sprites[index].group_id,
                ),
            ) && final(factory)@.sprites == old(factory)@.sprites.remove(index),
            None => r == Err::<(TSpriteSubGroupID, TResourceID), SpriteError>(
                SpriteError::NotFound,
            ) && final(factory)@ == old(factory)@,
        },
{
    match find_sprite(&factory.sprites, sprite_id) {
        Some(index) => {
            let removed = factory.sprites.remove(index);
            Ok((removed.subgroup_id, removed.group_id))
        },
        None => Err(SpriteError::NotFound),
    }
}

/// Takes every sprite of group `resource_id` out of the registry and returns
/// their sub-ids, in the order in which the sprites stood.  The other sprites
/// keep their order.
pub fn remove_group(factory: &mut SpriteFactory, resource_id: TResourceID) -> (r: Result<
    Vec<TSubSpriteID>,
    SpriteError,
>)
    ensures
        final(factory)@.pending == old(factory)@.pending,
        old(factory)@.sprites.filter(in_group(resource_id)).len() == 0 ==> r == Err::<
            Vec<TSubSpriteID>,
            SpriteError,
        >(SpriteError::NotFound) && final(factory)@ == old(factory)@,
        old(factory)@.sprites.filter(in_group(resource_id)).len() > 0 ==> r is Ok && r->Ok_0@
            == sub_ids(old(factory)@.sprites.filter(in_group(resource_id))) && final(factory)@.sprites == old(factory)@.sprites.filter(outside_group(resource_id)),
{
    let mut found_sprites: Vec<TSubSpriteID> = Vec::new();
    let mut new_list: Vec<Sprite> = Vec::new();
    let mut i: usize = 0;
    while i < factory.sprites.len()
        invariant
            i <= factory.sprites@.len(),
            factory.sprites@ == old(factory).sprites@,
            factory.updates == old(factory).updates,
            found_sprites@ == sub_ids(factory.sprites@.take(i as int).filter(in_group(resource_id))),
            new_list@ == factory.sprites@.take(i as int).filter(outside_group(resource_id)),
        decreases factory.sprites@.len() - i,
    {
        let sprite = factory.sprites[i];
        proof {
            let seen = factory.sprites@.take(i as int);
            assert(factory.sprites@.take(i + 1) == seen.push(sprite));
            seen.lemma_filter_push(sprite, in_group(resource_id));
            seen.lemma_filter_push(sprite, outside_group(resource_id));
        }
        if sprite.group_id == resource_id {
            found_sprites.push(sprite.sub_id);
        } else {
            new_list.push(sprite);
        }
        i += 1;
    }
    assert(factory.sprites@.take(i as int) == factory.sprites@);
    if found_sprites.len() == 0 {
        return Err(SpriteError::NotFound);
    }
    factory.sprites = new_list;
    Ok(found_sprites)
}

/// Notes that the sprite `sprite_id` is due an update at the next
/// [`update_sprites`].  Returns whether it was not noted already.
pub fn add_sprite_for_update(factory: &mut SpriteFactory, sprite_id: TSpriteID) -> (newly: bool)
    ensures
        newly == !old(factory)@.pending.contains(sprite_id),
        final(factory)@.pending == old(factory)@.pending.insert(sprite_id),
        final(factory)@.sprites == old(factory)@.sprites,
{
    broadcast use group_hash_axioms;

    factory.updates.insert(sprite_id)
}

/// Updates every sprite that was noted by [`add_sprite_for_update`], then
/// forgets the notes.
pub fn update_sprites(factory: &mut SpriteFactory)
    ensures
        final(factory)@.pending == Set::<TSpriteID>::empty(),
        final(factory)@.sprites == old(factory)@.sprites,
{
    broadcast use group_hash_axioms;

    let mut i: usize = 0;
    while i < factory.sprites.len()
        invariant
            factory.sprites@ == old(factory).sprites@,
        decreases factory.sprites@.len() - i,
    {
        if factory.updates.contains(&factory.sprites[i].id) {
            factory.sprites[i].update();
        }
        i += 1;
    }
    factory.updates.clear();
}

/// Empties the registry: no sprite stays, and none waits for an update.
pub fn reset_sprites(factory: &mut SpriteFactory)
    ensures
        final(factory)@.sprites == Seq::<Sprite>::empty(),
        final(factory)@.pending == Set::<TSpriteID>::empty(),
{
    factory.sprites.clear();
    factory.updates.clear();
}

} // verus!
