//! One slot of a sprite sheet: empty, or holding a sprite.

use vstd::prelude::*;
use crate::sprite::{Sprite, SpriteView};
use crate::utils::IVec2;

verus! {

/// The mathematical value of a [`SpriteCell`].
pub enum CellView {
    /// The cell holds a sprite.
    Sprite(SpriteView),
    /// The cell is empty.
    Empty,
}

impl CellView {
    /// An occupied cell is well formed when its sprite is.
    pub open spec fn wf(self) -> bool {
        match self {
            CellView::Sprite(s) => s.wf(),
            CellView::Empty => true,
        }
    }

    /// Whether an occupied cell's sprite has pixel size `cell_size`;
    /// an empty cell fits any size.
    pub open spec fn fits(self, cell_size: IVec2) -> bool {
        match self {
            CellView::Sprite(s) => s.size == cell_size,
            CellView::Empty => true,
        }
    }
}

/// A cell of a sprite sheet: either empty, or holding one sprite.  Empty
/// cells are dropped when a sheet is flattened into an unordered list.
#[derive(Debug, Clone, Default)]
pub enum SpriteCell {
    /// A cell that contains a sprite.
    Sprite(Sprite),
    /// An empty cell.
    #[default]
    Empty,
}

impl View for SpriteCell {
    type V = CellView;

    open spec fn view(&self) -> CellView {
        match self {
            SpriteCell::Sprite(s) => CellView::Sprite(s@),
            SpriteCell::Empty => CellView::Empty,
        }
    }
}

impl SpriteCell {
    /// The pixel size of the contained sprite, or `None` for an empty cell.
    pub fn size(&self) -> (r: Option<IVec2>)
        ensures
            r is Some <==> self@ is Sprite,
            self@ is Sprite ==> r == Some(self@->Sprite_0.size),
    {
        match self {
            SpriteCell::Sprite(sprite) => Some(sprite.size()),
            SpriteCell::Empty => None,
        }
    }

    /// Returns `true` if this cell holds a sprite.
    pub fn is_sprite(&self) -> (r: bool)
        ensures
            r == (self@ is Sprite),
    {
        match self {
            SpriteCell::Sprite(_) => true,
            SpriteCell::Empty => false,
        }
    }

    /// Returns `true` if this cell is empty.
    pub fn is_empty(&self) -> (r: bool)
        ensures
            r == (self@ is Empty),
    {
        !self.is_sprite()
    }

    /// The contained sprite, or `None` for an empty cell.
    pub fn sprite(self) -> (r: Option<Sprite>)
        ensures
            r is Some <==> self@ is Sprite,
            self@ is Sprite ==> (r matches Some(s) && s@ == self@->Sprite_0),
    {
        match self {
            SpriteCell::Sprite(sprite) => Some(sprite),
            SpriteCell::Empty => None,
        }
    }
}

} // verus!
