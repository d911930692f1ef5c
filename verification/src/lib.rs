//! State of a two-dimensional tile world and the registries that populate it.
//!
//! A [`map::WorldMap`] is a bounded grid of cells; each cell stacks a few layers,
//! and each layer names an entity.  Entities live in an
//! [`entity_system::EntityFactory`], the sprites they show in a
//! [`sprite_system::SpriteFactory`], and the byte buffers that sprites and maps
//! are loaded from in a [`resource_system::ResourceFactory`].
//!
//! Every registry is an ordinary value: whoever owns the world decides where it
//! lives and how access to it is serialised.  A lookup that may find its
//! registry busy takes an `Option` of it and answers "not found" for `None`.
//!
//! A map is saved as MessagePack: [`layout`] says how it lies in bytes, on
//! top of the numbers and array headers of [`wire`].  [`sprite_maker`] cuts a
//! sprite sheet into the regions that sprites are made of.

pub mod entity_system;
pub mod ids;
pub mod layout;
pub mod map;
pub mod resource_system;
pub mod sprite_maker;
pub mod sprite_system;
pub mod wire;
