//! Sprite-sheet manipulation: a verified data model and layout engine for
//! rectangular grids of equally-sized image tiles.
//!
//! A sprite sheet is a [`SpriteSheet`]: a two-dimensional grid of
//! [`SpriteCell`]s, each empty or holding one [`Sprite`] (a tile of fixed
//! pixel dimensions).  Sheets can be built from a flat
//! [`UnorderedSpriteSheet`] under a layout policy ([`Distribution`]),
//! concatenated, decomposed back into flat tile lists, and edited through
//! slicing, deletion and reversal of the flat view.  Reading image files from
//! disk and writing them back is left to the surrounding application; the
//! library works on raw RGBA pixel buffers.

pub mod distribution;
pub mod error;
pub mod sprite_cell;
pub mod unordered_sprite_sheet;
pub mod sprite;
pub mod sprite_sheet;
pub mod utils;

pub use distribution::Distribution;
pub use sprite::Sprite;
pub use sprite_cell::SpriteCell;
pub use sprite_sheet::SpriteSheet;
pub use unordered_sprite_sheet::UnorderedSpriteSheet;
