//! The ordered sprite sheet: a two-dimensional, shape-fixed array of
//! cells, each empty or holding one sprite of the sheet's fixed cell
//! size.

use vstd::prelude::*;
use crate::distribution::Distribution;
use crate::error::Error;
use crate::sprite::{Sprite, SpriteView};
use crate::sprite_cell::{CellView, SpriteCell};
use crate::unordered_sprite_sheet::UnorderedSpriteSheet;
use crate::utils::IVec2;

verus! {

/// The mathematical value of a [`SpriteSheet`]: its shape in cells, the
/// fixed pixel size of each cell, and the flat sequence of its cells in
/// row-major order (whole lines first, from the top-left cell).
pub struct SheetView {
    /// Columns (`x`) and lines (`y`), in cells.
    pub size: IVec2,
    /// The pixel size every occupied cell's sprite must have.
    pub cell_size: IVec2,
    /// The cells, row-major, `size.x * size.y` of them.
    pub cells: Seq<CellView>,
}

impl SheetView {
    /// The sheet is rectangular and every occupied cell holds a
    /// well-formed sprite of the fixed cell size.
    pub open spec fn wf(self) -> bool {
        self.cells.len() == self.size.x * self.size.y && forall|i: int|
            0 <= i < self.cells.len() ==> (#[trigger] self.cells[i]).wf() && self.cells[i].fits(
                self.cell_size,
            )
    }

    /// Whether `coords` addresses a cell of the sheet.
    pub open spec fn in_bounds(self, coords: IVec2) -> bool {
        coords.x < self.size.x && coords.y < self.size.y
    }

    /// The flat row-major index of the cell at `coords`.
    pub open spec fn idx(self, coords: IVec2) -> int {
        coords.y * self.size.x + coords.x
    }
}

/// How many of the first `i` cells are empty.
pub open spec fn empties_before(cells: Seq<CellView>, i: int) -> int
    decreases i,
{
    if i <= 0 {
        0
    } else {
        empties_before(cells, i - 1) + if cells[i - 1] is Empty {
            1int
        } else {
            0int
        }
    }
}

/// How many cells of the sheet are empty.
pub open spec fn count_empty(cells: Seq<CellView>) -> int {
    empties_before(cells, cells.len() as int)
}

/// The cells after placing `sprites`, in order, into the empty cells in
/// row-major order: the `k`-th sprite lands in the `k`-th empty cell.
/// Sprites beyond the number of empty cells are not placed.
pub open spec fn filled(cells: Seq<CellView>, sprites: Seq<SpriteView>) -> Seq<CellView> {
    Seq::new(
        cells.len(),
        |i: int|
            if cells[i] is Empty && empties_before(cells, i) < sprites.len() {
                CellView::Sprite(sprites[empties_before(cells, i)])
            } else {
                cells[i]
            },
    )
}

/// The sprites of the occupied cells, in row-major order; empty cells
/// contribute nothing.
pub open spec fn occupied_seq(cells: Seq<CellView>) -> Seq<SpriteView>
    decreases cells.len(),
{
    if cells.len() == 0 {
        Seq::empty()
    } else {
        occupied_seq(cells.drop_last()) + (match cells.last() {
            CellView::Sprite(s) => seq![s],
            CellView::Empty => Seq::empty(),
        })
    }
}

/// A freshly laid-out sheet of `n` cells: the sprites in order from the
/// top-left cell, empty cells beyond them.
pub open spec fn laid_out(n: nat, sprites: Seq<SpriteView>) -> Seq<CellView> {
    Seq::new(
        n,
        |i: int|
            if i < sprites.len() {
                CellView::Sprite(sprites[i])
            } else {
                CellView::Empty
            },
    )
}

/// No prefix holds fewer than zero or more empties than cells.
proof fn lemma_eb_nonneg(cells: Seq<CellView>, i: int)
    requires
        0 <= i,
    ensures
        0 <= empties_before(cells, i) <= i,
    decreases i,
{
    if i > 0 {
        lemma_eb_nonneg(cells, i - 1);
    }
}

/// Counting empty cells is monotonic in the prefix length, and a longer
/// prefix adds at most its extra length.
proof fn lemma_eb_mono(cells: Seq<CellView>, i: int, j: int)
    requires
        0 <= i <= j,
    ensures
        empties_before(cells, i) <= empties_before(cells, j) <= empties_before(cells, i) + (j - i),
    decreases j - i,
{
    if i < j {
        lemma_eb_mono(cells, i, j - 1);
    }
}

/// Counting empty cells only looks at the prefix, so sequences that agree
/// there count alike.
proof fn lemma_eb_prefix(c1: Seq<CellView>, c2: Seq<CellView>, i: int)
    requires
        forall|j: int| 0 <= j < i ==> c1[j] == c2[j],
    ensures
        empties_before(c1, i) == empties_before(c2, i),
    decreases i,
{
    if i > 0 {
        lemma_eb_prefix(c1, c2, i - 1);
    }
}

/// In a freshly laid-out sheet the empty cells are exactly those beyond
/// the sprites, so the count before `i` is what `i` exceeds them by.
proof fn lemma_eb_laid_out(n: nat, sprites: Seq<SpriteView>, i: int)
    requires
        0 <= i <= n,
    ensures
        empties_before(laid_out(n, sprites), i) == if i <= sprites.len() {
            0int
        } else {
            i - sprites.len()
        },
    decreases i,
{
    if i > 0 {
        lemma_eb_laid_out(n, sprites, i - 1);
    }
}

/// Filling a freshly laid-out sheet with further sprites lays them out
/// after the ones already there, as long as everything fits.
proof fn lemma_fill_laid_out(n: nat, pre: Seq<SpriteView>, more: Seq<SpriteView>)
    requires
        pre.len() + more.len() <= n,
    ensures
        filled(laid_out(n, pre), more) == laid_out(n, pre + more),
{
    let base = laid_out(n, pre);
    assert forall|i: int| 0 <= i < n implies filled(base, more)[i] == laid_out(n, pre + more)[i] by {
        lemma_eb_laid_out(n, pre, i);
    }
    assert(filled(base, more) =~= laid_out(n, pre + more));
}

/// A laid-out sheet holds exactly the sprites that fitted, in order.
proof fn lemma_occ_laid_out(n: nat, sprites: Seq<SpriteView>)
    requires
        sprites.len() <= n,
    ensures
        occupied_seq(laid_out(n, sprites)) == sprites,
    decreases n,
{
    let cells = laid_out(n, sprites);
    if n == 0 {
        assert(occupied_seq(cells) =~= sprites);
    } else if sprites.len() == n {
        let shorter = sprites.drop_last();
        lemma_occ_laid_out((n - 1) as nat, shorter);
        assert(cells.drop_last() =~= laid_out((n - 1) as nat, shorter));
        assert(occupied_seq(cells) =~= shorter.push(sprites.last()));
        assert(shorter.push(sprites.last()) =~= sprites);
    } else {
        lemma_occ_laid_out((n - 1) as nat, sprites);
        assert(cells.drop_last() =~= laid_out((n - 1) as nat, sprites));
        assert(cells.last() is Empty);
        assert(occupied_seq(cells) =~= sprites);
    }
}

/// A prefix with no empty cell counts zero empties.
proof fn lemma_eb_zero(cells: Seq<CellView>, i: int)
    requires
        0 <= i,
        forall|j: int| 0 <= j < i ==> !((#[trigger] cells[j]) is Empty),
    ensures
        empties_before(cells, i) == 0,
    decreases i,
{
    if i > 0 {
        lemma_eb_zero(cells, i - 1);
    }
}

/// Filling preserves the shape, the well-formedness of every cell and
/// the fixed cell size, provided the sprites themselves fit.
proof fn lemma_filled_props(cells: Seq<CellView>, sprites: Seq<SpriteView>, cs: IVec2)
    requires
        forall|i: int| 0 <= i < cells.len() ==> (#[trigger] cells[i]).wf() && cells[i].fits(cs),
        forall|i: int|
            0 <= i < sprites.len() ==> (#[trigger] sprites[i]).wf() && sprites[i].size == cs,
    ensures
        filled(cells, sprites).len() == cells.len(),
        forall|i: int|
            0 <= i < cells.len() ==> (#[trigger] filled(cells, sprites)[i]).wf() && filled(
                cells,
                sprites,
            )[i].fits(cs),
{
    assert forall|i: int| 0 <= i < cells.len() implies (#[trigger] filled(cells, sprites)[i]).wf()
        && filled(cells, sprites)[i].fits(cs) by {
        lemma_eb_nonneg(cells, i);
    }
}

/// Occupied and empty cells partition the sheet, so the occupied count is
/// the length minus the empty count.
proof fn lemma_occ_len(cells: Seq<CellView>)
    ensures
        occupied_seq(cells).len() + count_empty(cells) == cells.len(),
        occupied_seq(cells).len() >= 0,
    decreases cells.len(),
{
    if cells.len() > 0 {
        let shorter = cells.drop_last();
        lemma_occ_len(shorter);
        lemma_eb_prefix(cells, shorter, cells.len() - 1);
    }
}

/// An ordered sprite sheet: a rectangular arrangement of cells, each
/// empty or holding one sprite of the sheet's fixed cell size.
#[derive(Debug, Clone)]
pub struct SpriteSheet {
    cells: Vec<SpriteCell>,
    size: IVec2,
    cell_size: IVec2,
}

impl View for SpriteSheet {
    type V = SheetView;

    closed spec fn view(&self) -> SheetView {
        SheetView {
            size: self.size,
            cell_size: self.cell_size,
            cells: self.cells@.map_values(|c: SpriteCell| c@),
        }
    }
}

impl SpriteSheet {
    /// The sheet's own well-formedness: that of its view.
    pub open spec fn wf(&self) -> bool {
        self@.wf()
    }

    /// Makes a new sheet of `size.x * size.y` cells, all empty.  `size`
    /// is in cells; `cell_size` is the pixel size of the sprites that
    /// will go into it.
    pub fn new(size: IVec2, cell_size: IVec2) -> (r: SpriteSheet)
        requires
            size.x * size.y <= usize::MAX,
        ensures
            r.wf(),
            r@.size == size,
            r@.cell_size == cell_size,
            r@.cells == laid_out((size.x * size.y) as nat, Seq::<SpriteView>::empty()),
    {
        let n: usize = size.x * size.y;
        let mut cells: Vec<SpriteCell> = Vec::new();
        let mut i: usize = 0;
        while i < n
            invariant
                0 <= i <= n,
                cells@.len() == i,
                forall|j: int| 0 <= j < i ==> (#[trigger] cells@[j])@ is Empty,
            decreases n - i,
        {
            cells.push(SpriteCell::Empty);
            i = i + 1;
        }
        let r = SpriteSheet { cells, size, cell_size };
        proof {
            assert(r@.cells =~= laid_out((size.x * size.y) as nat, Seq::<SpriteView>::empty()));
        }
        r
    }

    /// The size of the sheet, in cells.
    pub fn size(&self) -> (r: IVec2)
        ensures
            r == self@.size,
    {
        self.size
    }

    /// The fixed pixel size of the sheet's cells.
    pub fn cell_size(&self) -> (r: IVec2)
        ensures
            r == self@.cell_size,
    {
        self.cell_size
    }

    /// The cells of the sheet in row-major order, from the top left, to
    /// max width, and then to max height.
    pub fn cells(&self) -> (r: &Vec<SpriteCell>)
        ensures
            r@.map_values(|c: SpriteCell| c@) == self@.cells,
    {
        &self.cells
    }

    /// An immutable reference to the cell at cell coordinates `coords`,
    /// or [`Error::OutOfBounds`] if either coordinate is beyond the
    /// sheet.
    pub fn get_cell(&self, coords: IVec2) -> (r: Result<&SpriteCell, Error>)
        requires
            self.wf(),
        ensures
            r is Ok <==> self@.in_bounds(coords),
            r is Ok ==> r->Ok_0@ == self@.cells[self@.idx(coords)],
            r is Err ==> r->Err_0 == (Error::OutOfBounds { max: self@.size, provided: coords }),
    {
        if coords.x >= self.size.x || coords.y >= self.size.y {
            return Err(Error::OutOfBounds { max: self.size, provided: coords });
        }
        proof {
            vstd::std_specs::vec::axiom_spec_len(&self.cells);
            lemma_cell_index(self@.size.x as int, self@.size.y as int, coords.x as int, coords.y as int);
        }
        let i: usize = coords.y * self.size.x + coords.x;
        Ok(&self.cells[i])
    }

    /// Sets the cell at `coords` to `cell`, returning the previous cell.
    /// Fails with [`Error::OutOfBounds`] if `coords` is beyond the sheet,
    /// and with [`Error::MismatchedSpriteSize`] if the new cell holds a
    /// sprite of a pixel size other than the sheet's; on failure the
    /// sheet is unchanged.
    pub fn set_cell(&mut self, coords: IVec2, cell: SpriteCell) -> (r: Result<SpriteCell, Error>)
        requires
            old(self).wf(),
            cell@.wf(),
        ensures
            final(self).wf(),
            final(self)@.size == old(self)@.size,
            final(self)@.cell_size == old(self)@.cell_size,
            r is Ok <==> old(self)@.in_bounds(coords) && cell@.fits(old(self)@.cell_size),
            r is Ok ==> r->Ok_0@ == old(self)@.cells[old(self)@.idx(coords)] && final(self)@.cells
                == old(self)@.cells.update(old(self)@.idx(coords), cell@),
            r is Err ==> final(self)@ == old(self)@,
            !old(self)@.in_bounds(coords) ==> r == Err::<SpriteCell, Error>(
                Error::OutOfBounds { max: old(self)@.size, provided: coords },
            ),
            (old(self)@.in_bounds(coords) && !cell@.fits(old(self)@.cell_size)) ==> r
                == Err::<SpriteCell, Error>(
                Error::MismatchedSpriteSize {
                    required: old(self)@.cell_size,
                    provided: cell@->Sprite_0.size,
                },
            ),
    {
        if coords.x >= self.size.x || coords.y >= self.size.y {
            return Err(Error::OutOfBounds { max: self.size, provided: coords });
        }
        if let Some(size) = cell.size() {
            if size.x != self.cell_size.x || size.y != self.cell_size.y {
                return Err(
                    Error::MismatchedSpriteSize { required: self.cell_size, provided: size },
                );
            }
        }
        proof {
            vstd::std_specs::vec::axiom_spec_len(&self.cells);
            lemma_cell_index(self@.size.x as int, self@.size.y as int, coords.x as int, coords.y as int);
        }
        let i: usize = coords.y * self.size.x + coords.x;
        let mut prev = cell;
        self.cells.set_and_swap(i, &mut prev);
        proof {
            assert(self@.cells =~= old(self)@.cells.update(old(self)@.idx(coords), cell@));
        }
        Ok(prev)
    }

    /// Puts a sprite into the first empty cell in row-major order; fails
    /// with [`Error::SheetFull`] and leaves the sheet unchanged when no
    /// cell is empty.  The sprite must have the sheet's cell size: that
    /// contract was fixed when the sheet was made and is not re-checked
    /// per push.
    pub fn push_sprite(&mut self, sprite: Sprite) -> (r: Result<(), Error>)
        requires
            old(self).wf(),
            sprite@.wf(),
            sprite@.size == old(self)@.cell_size,
        ensures
            final(self).wf(),
            final(self)@.size == old(self)@.size,
            final(self)@.cell_size == old(self)@.cell_size,
            final(self)@.cells == filled(old(self)@.cells, seq![sprite@]),
            r is Ok <==> count_empty(old(self)@.cells) >= 1,
            r is Err ==> r->Err_0 == (Error::SheetFull { amount_fitted: 0 }) && final(self)@
                == old(self)@,
    {
        let ghost sv0 = self@;
        let ghost cv = old(self)@.cells;
        let n = self.cells.len();
        let mut ci: usize = 0;
        while ci < n && !self.cells[ci].is_empty()
            invariant
                0 <= ci <= n,
                n == cv.len(),
                self.cells@.len() == n,
                self@ == sv0,
                sv0.cells == cv,
                forall|j: int| 0 <= j < ci ==> !((#[trigger] cv[j]) is Empty),
            decreases n - ci,
        {
            proof {
                assert(self@.cells[ci as int] == (self.cells@[ci as int])@);
                assert(cv[ci as int] == (self.cells@[ci as int])@);
            }
            ci = ci + 1;
        }
        proof {
            lemma_eb_zero(cv, ci as int);
        }
        if ci == n {
            proof {
                assert(filled(cv, seq![sprite@]) =~= cv);
            }
            return Err(Error::SheetFull { amount_fitted: 0 });
        }
        let mut prev = SpriteCell::Sprite(sprite);
        self.cells.set_and_swap(ci, &mut prev);
        proof {
            assert(empties_before(cv, ci + 1) == 1);
            lemma_eb_mono(cv, ci + 1, cv.len() as int);
            assert forall|i: int| 0 <= i < n implies self@.cells[i] == filled(
                cv,
                seq![sprite@],
            )[i] by {
                if i > ci {
                    lemma_eb_mono(cv, ci + 1, i);
                }
            }
            assert(self@.cells =~= filled(cv, seq![sprite@]));
            lemma_filled_props(cv, seq![sprite@], old(self)@.cell_size);
        }
        Ok(())
    }

    /// Consumes an unordered collection, pushing each of its sprites, in
    /// order, into the empty cells of the sheet in row-major order.  If
    /// the sprites do not all fit, the ones that did fit stay in place
    /// and the result is [`Error::SheetFull`] reporting how many fitted.
    /// The collection's sprites must have the sheet's cell size.
    pub fn push_sprites(&mut self, sprites: UnorderedSpriteSheet) -> (r: Result<(), Error>)
        requires
            old(self).wf(),
            sprites.sizes_ok(),
            sprites.spec_size() == old(self)@.cell_size,
        ensures
            final(self).wf(),
            final(self)@.size == old(self)@.size,
            final(self)@.cell_size == old(self)@.cell_size,
            final(self)@.cells == filled(old(self)@.cells, sprites@),
            r is Ok <==> count_empty(old(self)@.cells) >= sprites@.len(),
            r is Err ==> r->Err_0 == (Error::SheetFull {
                amount_fitted: count_empty(old(self)@.cells) as usize,
            }),
    {
        let ghost cv = old(self)@.cells;
        let ghost svs = sprites@;
        let mut v: Vec<Sprite> = sprites.into_inner();
        let n = self.cells.len();
        let mut ci: usize = 0;
        let mut placed: usize = 0;
        proof {
            assert(v@.map_values(|s: Sprite| s@) =~= svs.skip(0));
            assert forall|i: int| 0 <= i < n implies self@.cells[i] == (if cv[i] is Empty
                && 0 <= empties_before(cv, i) < 0 {
                CellView::Sprite(svs[empties_before(cv, i)])
            } else {
                cv[i]
            }) by {}
        }
        let ghost sz0 = old(self)@.size;
        let ghost cs0 = old(self)@.cell_size;
        while ci < n && v.len() > 0
            invariant
                0 <= ci <= n,
                n == cv.len(),
                placed + v@.len() == svs.len(),
                self@.size == sz0,
                self@.cell_size == cs0,
                self@.cells.len() == n,
                self.cells@.len() == n,
                v@.map_values(|s: Sprite| s@) =~= svs.skip(placed as int),
                empties_before(cv, ci as int) >= placed,
                placed < svs.len() ==> empties_before(cv, ci as int) == placed,
                forall|i: int|
                    0 <= i < n ==> self@.cells[i] == (if cv[i] is Empty && 0 <= empties_before(
                        cv,
                        i,
                    ) < placed {
                        CellView::Sprite(svs[empties_before(cv, i)])
                    } else {
                        cv[i]
                    }),
            decreases n - ci,
        {
            proof {
                lemma_eb_nonneg(cv, ci as int);
                assert(self@.cells[ci as int] == (self.cells@[ci as int])@);
                assert(self@.cells[ci as int] == cv[ci as int]);
            }
            if self.cells[ci].is_empty() {
                proof {
                    assert(cv[ci as int] is Empty);
                    assert(svs.skip(placed as int)[0] == svs[placed as int]);
                }
                let ghost vv = v@;
                let s = v.remove(0);
                proof {
                    assert(s@ == svs[placed as int]);
                }
                let ghost prev_cells = self@.cells;
                let ghost prev_vec = self.cells@;
                let mut prev = SpriteCell::Sprite(s);
                self.cells.set_and_swap(ci, &mut prev);
                placed = placed + 1;
                proof {
                    assert forall|t: int| 0 <= t < v@.len() implies v@.map_values(
                        |s: Sprite| s@,
                    )[t] == svs.skip(placed as int)[t] by {
                        assert(v@[t] == vv[t + 1]);
                        assert(vv.map_values(|s: Sprite| s@)[t + 1] == svs.skip(
                            placed - 1,
                        )[t + 1]);
                    }
                    assert(v@.map_values(|s: Sprite| s@) =~= svs.skip(placed as int));
                    assert(self.cells@ == prev_vec.update(ci as int, SpriteCell::Sprite(s)));
                    assert forall|i: int| 0 <= i < n implies self@.cells[i] == (if i == ci {
                        CellView::Sprite(s@)
                    } else {
                        prev_cells[i]
                    }) by {
                        assert(self@.cells[i] == (self.cells@[i])@);
                        assert(prev_cells[i] == (prev_vec[i])@);
                    }
                    assert(self@.cells =~= prev_cells.update(
                        ci as int,
                        CellView::Sprite(svs[placed - 1]),
                    ));
                    assert forall|i: int| 0 <= i < n implies self@.cells[i] == (if cv[i] is Empty
                        && 0 <= empties_before(cv, i) < placed {
                        CellView::Sprite(svs[empties_before(cv, i)])
                    } else {
                        cv[i]
                    }) by {
                        lemma_eb_nonneg(cv, i);
                        if i < ci {
                            lemma_eb_mono(cv, i + 1, ci as int);
                        }
                        if i > ci {
                            lemma_eb_mono(cv, ci + 1, i);
                        }
                    }
                }
            } else {
                proof {
                    assert(!(cv[ci as int] is Empty));
                }
            }
            ci = ci + 1;
        }
        proof {
            lemma_filled_props(cv, svs, old(self)@.cell_size);
            lemma_eb_mono(cv, ci as int, cv.len() as int);
        }
        if v.len() == 0 {
            proof {
                assert forall|i: int| 0 <= i < n implies self@.cells[i] == filled(cv, svs)[i] by {
                    lemma_eb_nonneg(cv, i);
                }
                assert(self@.cells =~= filled(cv, svs));
                lemma_eb_mono(cv, ci as int, cv.len() as int);
            }
            Ok(())
        } else {
            proof {
                assert(empties_before(cv, cv.len() as int) == placed);
                assert forall|i: int| 0 <= i < n implies self@.cells[i] == filled(cv, svs)[i] by {
                    lemma_eb_nonneg(cv, i);
                    if cv[i] is Empty {
                        assert(empties_before(cv, i + 1) == empties_before(cv, i) + 1);
                        lemma_eb_mono(cv, i + 1, cv.len() as int);
                    }
                }
                assert(self@.cells =~= filled(cv, svs));
            }
            Err(Error::SheetFull { amount_fitted: placed })
        }
    }

    /// Builds a sheet from an unordered collection, shaped by the given
    /// distribution: the sprites land in row-major order from the top
    /// left, with any spare cells empty after them.  The shape covers
    /// the sprite count, so this never reports a full sheet.
    pub fn from_unordered(sprites: UnorderedSpriteSheet, distribution: Distribution) -> (r:
        SpriteSheet)
        requires
            sprites.wf(),
            distribution.wf(),
            distribution.spec_min_size(sprites@.len() as int).0 * distribution.spec_min_size(
                sprites@.len() as int,
            ).1 <= usize::MAX,
        ensures
            r.wf(),
            r@.size.x == distribution.spec_min_size(sprites@.len() as int).0,
            r@.size.y == distribution.spec_min_size(sprites@.len() as int).1,
            r@.cell_size == sprites.spec_size(),
            r@.cells == laid_out((r@.size.x * r@.size.y) as nat, sprites@),
    {
        let count = sprites.len();
        let shape = distribution.get_min_size(count);
        let cell_size = sprites.size();
        let mut sheet = Self::new(shape, cell_size);
        let ghost n = (shape.x * shape.y) as nat;
        proof {
            lemma_eb_laid_out(n, Seq::<SpriteView>::empty(), n as int);
        }
        let res = sheet.push_sprites(sprites);
        proof {
            lemma_fill_laid_out(n, Seq::<SpriteView>::empty(), sprites@);
            assert(Seq::<SpriteView>::empty() + sprites@ =~= sprites@);
        }
        match res {
            Ok(()) => sheet,
            Err(_) => vstd::pervasive::unreached(),
        }
    }

    /// Consumes the sheet and collects the sprites of its occupied cells,
    /// in row-major order, into an unordered collection; empty cells are
    /// dropped.  Fails with [`Error::EmptyUnorderedSpriteSheet`] if no
    /// cell was occupied.
    pub fn into_unordered(self) -> (r: Result<UnorderedSpriteSheet, Error>)
        requires
            self.wf(),
        ensures
            r is Ok <==> occupied_seq(self@.cells).len() >= 1,
            r is Ok ==> r->Ok_0@ == occupied_seq(self@.cells) && r->Ok_0.wf()
                && r->Ok_0.spec_size() == self@.cell_size,
            r is Err ==> r->Err_0 == Error::EmptyUnorderedSpriteSheet,
    {
        let ghost cv = self@.cells;
        let ghost cs0 = self@.cell_size;
        let mut cells = self.cells;
        let mut out: Vec<Sprite> = Vec::new();
        let ghost mut k: int = 0;
        proof {
            assert(out@.map_values(|s: Sprite| s@) =~= occupied_seq(cv.take(0)));
        }
        while cells.len() > 0
            invariant
                0 <= k <= cv.len(),
                k + cells@.len() == cv.len(),
                forall|t: int| 0 <= t < cells@.len() ==> (#[trigger] cells@[t])@ == cv[k + t],
                forall|i: int| 0 <= i < cv.len() ==> (#[trigger] cv[i]).wf() && cv[i].fits(cs0),
                out@.map_values(|s: Sprite| s@) =~= occupied_seq(cv.take(k)),
                forall|i: int|
                    0 <= i < out@.len() ==> (#[trigger] out@[i])@.wf() && out@[i]@.size == cs0,
            decreases cells@.len(),
        {
            let c = cells.remove(0);
            match c.sprite() {
                Some(s) => out.push(s),
                None => (),
            }
            proof {
                assert(cv.take(k + 1).drop_last() =~= cv.take(k));
                assert(cv.take(k + 1).last() == cv[k]);
                assert(out@.map_values(|s: Sprite| s@) =~= occupied_seq(cv.take(k + 1)));
                k = k + 1;
            }
        }
        proof {
            assert(cv.take(cv.len() as int) =~= cv);
        }
        UnorderedSpriteSheet::new(out)
    }
}

/// Whether every collection has the sprite size of the first one.
pub open spec fn all_same_size(sheets: Seq<UnorderedSpriteSheet>) -> bool {
    forall|i: int|
        0 <= i < sheets.len() ==> (#[trigger] sheets[i]).spec_size() == sheets[0].spec_size()
}

/// The sprites of all the collections, in input order, each collection
/// in its own insertion order.
pub open spec fn concat_views(sheets: Seq<UnorderedSpriteSheet>) -> Seq<SpriteView>
    decreases sheets.len(),
{
    if sheets.len() == 0 {
        Seq::empty()
    } else {
        concat_views(sheets.drop_last()) + sheets.last()@
    }
}

/// Concatenation reads its input one collection at a time.
proof fn lemma_concat_views_step(sheets: Seq<UnorderedSpriteSheet>, i: int)
    requires
        0 <= i < sheets.len(),
    ensures
        concat_views(sheets.take(i + 1)) == concat_views(sheets.take(i)) + sheets[i]@,
{
    assert(sheets.take(i + 1).drop_last() =~= sheets.take(i));
    assert(sheets.take(i + 1).last() == sheets[i]);
}

/// A prefix of the input contributes no more sprites than the whole.
proof fn lemma_concat_views_prefix_len(sheets: Seq<UnorderedSpriteSheet>, i: int)
    requires
        0 <= i <= sheets.len(),
    ensures
        concat_views(sheets.take(i)).len() <= concat_views(sheets).len(),
    decreases sheets.len() - i,
{
    if i == sheets.len() {
        assert(sheets.take(i) =~= sheets);
    } else {
        lemma_concat_views_step(sheets, i);
        lemma_concat_views_prefix_len(sheets, i + 1);
    }
}

impl SpriteSheet {
    /// Concatenates the given unordered collections into one sheet,
    /// shaped by `distribution`: the sprites appear in row-major order,
    /// first by which input collection they came from, then by their
    /// order within it.  Fails with [`Error::EmptyIterator`] on an empty
    /// input, and with [`Error::MismatchedSpriteSize`] naming the first
    /// offending size if the collections do not all share the first
    /// one's sprite size.
    pub fn concat(sheets: Vec<UnorderedSpriteSheet>, distribution: Distribution) -> (r: Result<
        SpriteSheet,
        Error,
    >)
        requires
            distribution.wf(),
            forall|i: int| 0 <= i < sheets@.len() ==> (#[trigger] sheets@[i]).wf(),
            concat_views(sheets@).len() <= usize::MAX,
            (sheets@.len() >= 1 && all_same_size(sheets@)) ==> distribution.spec_min_size(
                concat_views(sheets@).len() as int,
            ).0 * distribution.spec_min_size(concat_views(sheets@).len() as int).1 <= usize::MAX,
        ensures
            r is Ok <==> (sheets@.len() >= 1 && all_same_size(sheets@)),
            sheets@.len() == 0 ==> r == Err::<SpriteSheet, Error>(Error::EmptyIterator),
            (sheets@.len() >= 1 && !all_same_size(sheets@)) ==> (exists|i: int|
                1 <= i < sheets@.len() && (#[trigger] sheets@[i]).spec_size()
                    != sheets@[0].spec_size() && r->Err_0 == (Error::MismatchedSpriteSize {
                    required: sheets@[0].spec_size(),
                    provided: sheets@[i].spec_size(),
                }) && (forall|j: int|
                    1 <= j < i ==> (#[trigger] sheets@[j]).spec_size() == sheets@[0].spec_size())),
            r is Ok ==> r->Ok_0.wf() && r->Ok_0@.size.x == distribution.spec_min_size(
                concat_views(sheets@).len() as int,
            ).0 && r->Ok_0@.size.y == distribution.spec_min_size(
                concat_views(sheets@).len() as int,
            ).1 && r->Ok_0@.cell_size == sheets@[0].spec_size() && r->Ok_0@.cells == laid_out(
                (r->Ok_0@.size.x * r->Ok_0@.size.y) as nat,
                concat_views(sheets@),
            ),
    {
        let ghost all = sheets@;
        if sheets.len() == 0 {
            return Err(Error::EmptyIterator);
        }
        let size = sheets[0].size();
        let mut total: usize = 0;
        let mut i: usize = 0;
        while i < sheets.len()
            invariant
                0 <= i <= all.len(),
                all == sheets@,
                all.len() >= 1,
                size == all[0].spec_size(),
                concat_views(all).len() <= usize::MAX,
                forall|t: int| 0 <= t < all.len() ==> (#[trigger] all[t]).wf(),
                forall|j: int| 0 <= j < i ==> (#[trigger] all[j]).spec_size() == size,
                total == concat_views(all.take(i as int)).len(),
            decreases all.len() - i,
        {
            let szi = sheets[i].size();
            if szi.x != size.x || szi.y != size.y {
                return Err(Error::MismatchedSpriteSize { required: size, provided: szi });
            }
            let li = sheets[i].len();
            proof {
                lemma_concat_views_step(all, i as int);
                lemma_concat_views_prefix_len(all, i + 1);
            }
            total = total + li;
            i = i + 1;
        }
        proof {
            assert(all.take(all.len() as int) =~= all);
            lemma_concat_views_step(all, 0);
            assert(concat_views(all.take(0)) =~= Seq::<SpriteView>::empty());
            lemma_concat_views_prefix_len(all, 1);
        }
        let shape = distribution.get_min_size(total);
        let mut sheet = Self::new(shape, size);
        let ghost n = (shape.x * shape.y) as nat;
        let mut v = sheets;
        let mut k: usize = 0;
        proof {
            assert(v@.skip(0) =~= all);
        }
        while v.len() > 0
            invariant
                0 <= k <= all.len(),
                all.len() <= usize::MAX,
                k + v@.len() == all.len(),
                v@ =~= all.skip(k as int),
                n >= concat_views(all).len(),
                concat_views(all).len() <= usize::MAX,
                forall|t: int| 0 <= t < all.len() ==> (#[trigger] all[t]).wf(),
                forall|j: int| 0 <= j < all.len() ==> (#[trigger] all[j]).spec_size() == size,
                sheet.wf(),
                sheet@.size == shape,
                sheet@.cell_size == size,
                sheet@.cells =~= laid_out(n, concat_views(all.take(k as int))),
            decreases v@.len(),
        {
            let u = v.remove(0);
            proof {
                assert(u == all[k as int]);
                assert(v@ =~= all.skip(k + 1));
                lemma_concat_views_step(all, k as int);
                lemma_concat_views_prefix_len(all, k + 1);
                let pre = concat_views(all.take(k as int));
                lemma_eb_laid_out(n, pre, n as int);
            }
            let res = sheet.push_sprites(u);
            proof {
                let pre = concat_views(all.take(k as int));
                lemma_fill_laid_out(n, pre, u@);
            }
            match res {
                Ok(()) => (),
                Err(_) => vstd::pervasive::unreached(),
            }
            k = k + 1;
        }
        proof {
            assert(all.take(all.len() as int) =~= all);
        }
        Ok(sheet)
    }
}

/// The cell that region `(cx, cy)` of a source image yields when the
/// image is divided into `cell_size` tiles: empty if the region is fully
/// transparent, else the region as a sprite.
pub open spec fn region_cell(s: SpriteView, cell_size: IVec2, cx: int, cy: int) -> CellView {
    let origin = IVec2 {
        x: (cx * cell_size.x) as usize,
        y: (cy * cell_size.y) as usize,
    };
    let sub = crate::sprite::sub_view(s, origin, cell_size);
    if sub.transparent() {
        CellView::Empty
    } else {
        CellView::Sprite(sub)
    }
}

/// The pixel width of the image a sheet renders to.
pub open spec fn px_width(v: SheetView) -> int {
    v.size.x * v.cell_size.x
}

/// The pixel height of the image a sheet renders to.
pub open spec fn px_height(v: SheetView) -> int {
    v.size.y * v.cell_size.y
}

/// The byte at flat index `j` of the image a sheet renders to: the
/// matching byte of the sprite whose cell the pixel falls in, or zero
/// (fully transparent) under an empty cell.
pub open spec fn rendered_byte(v: SheetView, j: int) -> u8 {
    let w = px_width(v);
    let p = j / 4;
    let k = j % 4;
    let px = p % w;
    let py = p / w;
    let ccx = px / (v.cell_size.x as int);
    let ccy = py / (v.cell_size.y as int);
    match v.cells[ccy * v.size.x + ccx] {
        CellView::Sprite(s) => s.pixels[((py % (v.cell_size.y as int)) * v.cell_size.x + (px
            % (v.cell_size.x as int))) * 4 + k],
        CellView::Empty => 0,
    }
}

/// The full image a sheet renders to, as raw RGBA bytes.
pub open spec fn rendered(v: SheetView) -> Seq<u8> {
    Seq::new((4 * px_width(v) * px_height(v)) as nat, |j: int| rendered_byte(v, j))
}

/// Which bytes of the rendered image are settled once the cells before
/// line `cy`, and the first `cx` cells of line `cy`, have been drawn.
spec fn cell_done(v: SheetView, j: int, cy: int, cx: int) -> bool {
    let w = px_width(v);
    let p = j / 4;
    let px = p % w;
    let py = p / w;
    let ccx = px / (v.cell_size.x as int);
    let ccy = py / (v.cell_size.y as int);
    ccy < cy || (ccy == cy && ccx < cx)
}

/// Decomposition of a flat byte index of the rendered image into its
/// pixel position and owning cell, with the bounds and remainders the
/// rendering proofs need.
proof fn lemma_render_coords(v: SheetView, j: int)
    requires
        0 <= j < 4 * px_width(v) * px_height(v),
    ensures
        ({
            let w = px_width(v);
            let p = j / 4;
            let k = j % 4;
            let px = p % w;
            let py = p / w;
            let ccx = px / (v.cell_size.x as int);
            let ccy = py / (v.cell_size.y as int);
            &&& v.cell_size.x >= 1 && v.cell_size.y >= 1 && v.size.x >= 1 && v.size.y >= 1
            &&& 0 <= k < 4 && j == 4 * p + k
            &&& 0 <= px < w && 0 <= py < px_height(v) && p == py * w + px
            &&& 0 <= ccx < v.size.x && 0 <= ccy < v.size.y
            &&& px % (v.cell_size.x as int) == px - ccx * v.cell_size.x && 0 <= px % (v.cell_size.x as int)
                < v.cell_size.x
            &&& py % (v.cell_size.y as int) == py - ccy * v.cell_size.y && 0 <= py % (v.cell_size.y as int)
                < v.cell_size.y
            &&& 0 <= ccy * v.size.x + ccx < v.size.x * v.size.y
        }),
{
    broadcast use vstd::arithmetic::mul::group_mul_is_commutative_and_distributive;

    let w = px_width(v);
    let h = px_height(v);
    assert(w >= 1 && h >= 1) by (nonlinear_arith)
        requires
            0 <= j < 4 * w * h,
            w >= 0,
            h >= 0,
    ;
    assert(v.cell_size.x >= 1 && v.cell_size.y >= 1 && v.size.x >= 1 && v.size.y >= 1)
        by (nonlinear_arith)
        requires
            w == v.size.x * v.cell_size.x >= 1,
            h == v.size.y * v.cell_size.y >= 1,
            v.size.x >= 0,
            v.size.y >= 0,
            v.cell_size.x >= 0,
            v.cell_size.y >= 0,
    ;
    let p = j / 4;
    let k = j % 4;
    vstd::arithmetic::div_mod::lemma_fundamental_div_mod(j, 4);
    vstd::arithmetic::div_mod::lemma_mod_bound(j, 4);
    assert(p < w * h) by (nonlinear_arith)
        requires
            j == 4 * p + k,
            0 <= k < 4,
            j < 4 * w * h,
    ;
    assert(p >= 0) by (nonlinear_arith)
        requires
            j == 4 * p + k,
            0 <= k < 4,
            0 <= j,
    ;
    let px = p % w;
    let py = p / w;
    vstd::arithmetic::div_mod::lemma_fundamental_div_mod(p, w);
    vstd::arithmetic::div_mod::lemma_mod_bound(p, w);
    vstd::arithmetic::div_mod::lemma_div_pos_is_pos(p, w);
    assert(py < h) by (nonlinear_arith)
        requires
            p == w * py + px,
            0 <= px < w,
            p < w * h,
            w >= 1,
    ;
    let ccx = px / (v.cell_size.x as int);
    let ccy = py / (v.cell_size.y as int);
    vstd::arithmetic::div_mod::lemma_fundamental_div_mod(px, v.cell_size.x as int);
    vstd::arithmetic::div_mod::lemma_mod_bound(px, v.cell_size.x as int);
    vstd::arithmetic::div_mod::lemma_div_pos_is_pos(px, v.cell_size.x as int);
    vstd::arithmetic::div_mod::lemma_fundamental_div_mod(py, v.cell_size.y as int);
    vstd::arithmetic::div_mod::lemma_mod_bound(py, v.cell_size.y as int);
    vstd::arithmetic::div_mod::lemma_div_pos_is_pos(py, v.cell_size.y as int);
    assert(ccx < v.size.x) by (nonlinear_arith)
        requires
            px == v.cell_size.x * ccx + px % (v.cell_size.x as int),
            0 <= px % (v.cell_size.x as int) < v.cell_size.x,
            px < w,
            w == v.size.x * v.cell_size.x,
            v.cell_size.x >= 1,
    ;
    assert(ccy < v.size.y) by (nonlinear_arith)
        requires
            py == v.cell_size.y * ccy + py % (v.cell_size.y as int),
            0 <= py % (v.cell_size.y as int) < v.cell_size.y,
            py < h,
            h == v.size.y * v.cell_size.y,
            v.cell_size.y >= 1,
    ;
    assert(0 <= ccy * v.size.x + ccx < v.size.x * v.size.y) by (nonlinear_arith)
        requires
            0 <= ccx < v.size.x,
            0 <= ccy < v.size.y,
    ;
}

impl SpriteSheet {
    /// Makes a sheet from one full image by dividing it into the given
    /// number of cells per axis; the cell pixel size follows by integer
    /// division, discarding any remainder at the right and bottom edges.
    /// A region whose pixels are all fully transparent becomes an empty
    /// cell.
    pub fn from_image_div(sprite: Sprite, divisions: IVec2) -> (r: SpriteSheet)
        requires
            sprite@.wf(),
            divisions.x >= 1,
            divisions.y >= 1,
            divisions.x * divisions.y <= usize::MAX,
        ensures
            r.wf(),
            r@.size == divisions,
            r@.cell_size.x == sprite@.size.x as int / divisions.x as int,
            r@.cell_size.y == sprite@.size.y as int / divisions.y as int,
            forall|cx: int, cy: int|
                0 <= cx < divisions.x && 0 <= cy < divisions.y ==> #[trigger] r@.cells[cy
                    * divisions.x + cx] == region_cell(sprite@, r@.cell_size, cx, cy),
    {
        let sz = sprite.size();
        let cell_size = IVec2::new(sz.x / divisions.x, sz.y / divisions.y);
        proof {
            broadcast use vstd::arithmetic::mul::group_mul_is_commutative_and_distributive;

            vstd::arithmetic::div_mod::lemma_fundamental_div_mod(sz.x as int, divisions.x as int);
            vstd::arithmetic::div_mod::lemma_mod_bound(sz.x as int, divisions.x as int);
            vstd::arithmetic::div_mod::lemma_fundamental_div_mod(sz.y as int, divisions.y as int);
            vstd::arithmetic::div_mod::lemma_mod_bound(sz.y as int, divisions.y as int);
        }
        Self::from_image(sprite, divisions, cell_size)
    }

    /// Makes a sheet from one full image by dividing it into cells of
    /// the given pixel size; the number of cells per axis follows by
    /// integer division, discarding any remainder at the right and
    /// bottom edges.  A region whose pixels are all fully transparent
    /// becomes an empty cell.
    pub fn from_image_cell_size(sprite: Sprite, cell_size: IVec2) -> (r: SpriteSheet)
        requires
            sprite@.wf(),
            cell_size.x >= 1,
            cell_size.y >= 1,
            (sprite@.size.x as int / cell_size.x as int) * (sprite@.size.y as int
                / cell_size.y as int) <= usize::MAX,
        ensures
            r.wf(),
            r@.cell_size == cell_size,
            r@.size.x == sprite@.size.x as int / cell_size.x as int,
            r@.size.y == sprite@.size.y as int / cell_size.y as int,
            forall|cx: int, cy: int|
                0 <= cx < r@.size.x && 0 <= cy < r@.size.y ==> #[trigger] r@.cells[cy * r@.size.x
                    + cx] == region_cell(sprite@, cell_size, cx, cy),
    {
        let sz = sprite.size();
        let divisions = IVec2::new(sz.x / cell_size.x, sz.y / cell_size.y);
        proof {
            broadcast use vstd::arithmetic::mul::group_mul_is_commutative_and_distributive;

            vstd::arithmetic::div_mod::lemma_fundamental_div_mod(sz.x as int, cell_size.x as int);
            vstd::arithmetic::div_mod::lemma_mod_bound(sz.x as int, cell_size.x as int);
            vstd::arithmetic::div_mod::lemma_fundamental_div_mod(sz.y as int, cell_size.y as int);
            vstd::arithmetic::div_mod::lemma_mod_bound(sz.y as int, cell_size.y as int);
        }
        Self::from_image(sprite, divisions, cell_size)
    }

    /// Slices one full image into `divisions` cells of `cell_size`
    /// pixels each, in row-major order; fully transparent regions become
    /// empty cells.
    fn from_image(sprite: Sprite, divisions: IVec2, cell_size: IVec2) -> (r: SpriteSheet)
        requires
            sprite@.wf(),
            divisions.x * cell_size.x <= sprite@.size.x,
            divisions.y * cell_size.y <= sprite@.size.y,
            divisions.x * divisions.y <= usize::MAX,
        ensures
            r.wf(),
            r@.size == divisions,
            r@.cell_size == cell_size,
            forall|cx: int, cy: int|
                0 <= cx < divisions.x && 0 <= cy < divisions.y ==> #[trigger] r@.cells[cy
                    * divisions.x + cx] == region_cell(sprite@, cell_size, cx, cy),
    {
        let ghost spv = sprite@;
        let mut sheet = Self::new(divisions, cell_size);
        proof {
            assert forall|cx: int, cy: int|
                0 <= cx < divisions.x && 0 <= cy < divisions.y
                    implies #[trigger] sheet@.cells[cy * divisions.x + cx]
                    == CellView::Empty by {
                lemma_cell_index(divisions.x as int, divisions.y as int, cx, cy);
            }
        }
        let mut x: usize = 0;
        while x < divisions.x
            invariant
                0 <= x <= divisions.x,
                spv == sprite@,
                spv.wf(),
                divisions.x * cell_size.x <= spv.size.x,
                divisions.y * cell_size.y <= spv.size.y,
                sheet.wf(),
                sheet@.size == divisions,
                sheet@.cell_size == cell_size,
                forall|cx: int, cy: int|
                    0 <= cx < divisions.x && 0 <= cy < divisions.y ==> #[trigger] sheet@.cells[cy
                        * divisions.x + cx] == (if cx < x {
                        region_cell(spv, cell_size, cx, cy)
                    } else {
                        CellView::Empty
                    }),
            decreases divisions.x - x,
        {
            let mut y: usize = 0;
            while y < divisions.y
                invariant
                    0 <= x < divisions.x,
                    0 <= y <= divisions.y,
                    spv == sprite@,
                    spv.wf(),
                    divisions.x * cell_size.x <= spv.size.x,
                    divisions.y * cell_size.y <= spv.size.y,
                    sheet.wf(),
                    sheet@.size == divisions,
                    sheet@.cell_size == cell_size,
                    forall|cx: int, cy: int|
                        0 <= cx < divisions.x && 0 <= cy < divisions.y
                            ==> #[trigger] sheet@.cells[cy * divisions.x + cx] == (if cx < x || (cx
                            == x && cy < y) {
                            region_cell(spv, cell_size, cx, cy)
                        } else {
                            CellView::Empty
                        }),
                decreases divisions.y - y,
            {
                proof {
                    assert((x + 1) * cell_size.x <= divisions.x * cell_size.x && x * cell_size.x
                        + cell_size.x == (x + 1) * cell_size.x) by (nonlinear_arith)
                        requires
                            0 <= x < divisions.x,
                            cell_size.x >= 0,
                    ;
                    assert((y + 1) * cell_size.y <= divisions.y * cell_size.y && y * cell_size.y
                        + cell_size.y == (y + 1) * cell_size.y) by (nonlinear_arith)
                        requires
                            0 <= y < divisions.y,
                            cell_size.y >= 0,
                    ;
                }
                let origin = IVec2::new(x * cell_size.x, y * cell_size.y);
                let sub = sprite.sub_sprite(origin, cell_size);
                let cell = if sub.is_empty() {
                    SpriteCell::Empty
                } else {
                    SpriteCell::Sprite(sub)
                };
                proof {
                    assert(cell@ == region_cell(spv, cell_size, x as int, y as int));
                }
                let ghost prev = sheet@.cells;
                let res = sheet.set_cell(IVec2::new(x, y), cell);
                match res {
                    Ok(_) => (),
                    Err(_) => vstd::pervasive::unreached(),
                }
                proof {
                    lemma_cell_index(divisions.x as int, divisions.y as int, x as int, y as int);
                    assert forall|cx: int, cy: int|
                        0 <= cx < divisions.x && 0 <= cy < divisions.y
                            implies #[trigger] sheet@.cells[cy * divisions.x + cx] == (if cx < x
                            || (cx == x && cy < y + 1) {
                            region_cell(spv, cell_size, cx, cy)
                        } else {
                            CellView::Empty
                        }) by {
                        lemma_cell_index(divisions.x as int, divisions.y as int, cx, cy);
                        if cy * divisions.x + cx != y * divisions.x + x {
                            assert(sheet@.cells[cy * divisions.x + cx] == prev[cy * divisions.x
                                + cx]);
                        } else {
                            assert(cx == x && cy == y);
                        }
                    }
                }
                y = y + 1;
            }
            x = x + 1;
        }
        sheet
    }

    /// Consumes the sheet and renders it to one image: a pixel buffer of
    /// `size * cell_size` pixels with each occupied cell's sprite drawn
    /// at its cell offset, and fully transparent pixels under the empty
    /// cells.
    pub fn into_image(self) -> (r: Sprite)
        requires
            self.wf(),
            self@.size.x * self@.cell_size.x <= usize::MAX,
            self@.size.y * self@.cell_size.y <= usize::MAX,
            4 * px_width(self@) * px_height(self@) <= usize::MAX,
        ensures
            r@.wf(),
            r@.size.x == px_width(self@),
            r@.size.y == px_height(self@),
            r@.pixels == rendered(self@),
    {
        let ghost sv = self@;
        let w_px: usize = self.size.x * self.cell_size.x;
        let h_px: usize = self.size.y * self.cell_size.y;
        proof {
            assert(w_px * h_px <= 4 * w_px * h_px && 4 * (w_px * h_px) == 4 * w_px * h_px)
                by (nonlinear_arith)
                requires
                    w_px >= 0,
                    h_px >= 0,
            ;
        }
        let area: usize = w_px * h_px;
        let total: usize = 4 * area;
        let mut buf: Vec<u8> = Vec::new();
        let mut z: usize = 0;
        while z < total
            invariant
                0 <= z <= total,
                buf@.len() == z,
                forall|j: int| 0 <= j < z ==> buf@[j] == 0u8,
            decreases total - z,
        {
            buf.push(0u8);
            z = z + 1;
        }
        proof {
            assert forall|j: int|
                0 <= j < total implies buf@[j] == (if cell_done(sv, j, 0, 0) {
                rendered_byte(sv, j)
            } else {
                0u8
            }) by {
                lemma_render_coords(sv, j);
            }
        }
        let mut cy: usize = 0;
        while cy < self.size.y
            invariant
                0 <= cy <= sv.size.y,
                sv == self@,
                sv.wf(),
                self.cells@.len() == sv.cells.len(),
                total == 4 * px_width(sv) * px_height(sv),
                total <= usize::MAX,
                w_px == px_width(sv),
                h_px == px_height(sv),
                buf@.len() == total,
                forall|j: int|
                    0 <= j < total ==> buf@[j] == (if cell_done(sv, j, cy as int, 0) {
                        rendered_byte(sv, j)
                    } else {
                        0u8
                    }),
            decreases sv.size.y - cy,
        {
            let mut cx: usize = 0;
            while cx < self.size.x
                invariant
                    0 <= cy < sv.size.y,
                    0 <= cx <= sv.size.x,
                    sv == self@,
                    sv.wf(),
                    self.cells@.len() == sv.cells.len(),
                    total == 4 * px_width(sv) * px_height(sv),
                    total <= usize::MAX,
                    w_px == px_width(sv),
                    h_px == px_height(sv),
                    buf@.len() == total,
                    forall|j: int|
                        0 <= j < total ==> buf@[j] == (if cell_done(sv, j, cy as int, cx as int) {
                            rendered_byte(sv, j)
                        } else {
                            0u8
                        }),
                decreases sv.size.x - cx,
            {
                proof {
                    vstd::std_specs::vec::axiom_spec_len(&self.cells);
                    lemma_cell_index(sv.size.x as int, sv.size.y as int, cx as int, cy as int);
                    assert((cx + 1) * sv.cell_size.x <= sv.size.x * sv.cell_size.x && cx
                        * sv.cell_size.x + sv.cell_size.x == (cx + 1) * sv.cell_size.x)
                        by (nonlinear_arith)
                        requires
                            0 <= cx < sv.size.x,
                            sv.cell_size.x >= 0,
                    ;
                    assert((cy + 1) * sv.cell_size.y <= sv.size.y * sv.cell_size.y && cy
                        * sv.cell_size.y + sv.cell_size.y == (cy + 1) * sv.cell_size.y)
                        by (nonlinear_arith)
                        requires
                            0 <= cy < sv.size.y,
                            sv.cell_size.y >= 0,
                    ;
                    assert(4 * w_px * h_px == (4 * w_px) * h_px) by (nonlinear_arith);
                }
                let i: usize = cy * self.size.x + cx;
                let ghost before = buf@;
                match &self.cells[i] {
                    SpriteCell::Empty => {
                        proof {
                            assert(sv.cells[i as int] is Empty);
                            assert forall|j: int|
                                0 <= j < total implies buf@[j] == (if cell_done(
                                sv,
                                j,
                                cy as int,
                                cx + 1,
                            ) {
                                rendered_byte(sv, j)
                            } else {
                                0u8
                            }) by {
                                lemma_render_coords(sv, j);
                            }
                        }
                    },
                    SpriteCell::Sprite(s) => {
                        proof {
                            assert(sv.cells[i as int] == CellView::Sprite(s@));
                        }
                        s.blit_onto(
                            &mut buf,
                            IVec2::new(w_px, h_px),
                            IVec2::new(cx * self.cell_size.x, cy * self.cell_size.y),
                        );
                        proof {
                            broadcast use
                                vstd::arithmetic::mul::group_mul_is_commutative_and_distributive;

                            let origin = IVec2 {
                                x: (cx * sv.cell_size.x) as usize,
                                y: (cy * sv.cell_size.y) as usize,
                            };
                            assert forall|j: int|
                                0 <= j < total implies buf@[j] == (if cell_done(
                                sv,
                                j,
                                cy as int,
                                cx + 1,
                            ) {
                                rendered_byte(sv, j)
                            } else {
                                0u8
                            }) by {
                                lemma_render_coords(sv, j);
                                let w = px_width(sv);
                                let p = j / 4;
                                let px = p % w;
                                let py = p / w;
                                let ccx = px / (sv.cell_size.x as int);
                                let ccy = py / (sv.cell_size.y as int);
                                if ccx == cx && ccy == cy {
                                    assert(crate::sprite::in_rect(j, w, origin, s@.size));
                                    assert(buf@[j] == crate::sprite::blit_byte(s@, w, origin, j));
                                    assert(buf@[j] == rendered_byte(sv, j));
                                } else {
                                    if crate::sprite::in_rect(j, w, origin, s@.size) {
                                        vstd::arithmetic::div_mod::lemma_fundamental_div_mod_converse(
                                            px,
                                            sv.cell_size.x as int,
                                            cx as int,
                                            px - cx * sv.cell_size.x,
                                        );
                                        vstd::arithmetic::div_mod::lemma_fundamental_div_mod_converse(
                                            py,
                                            sv.cell_size.y as int,
                                            cy as int,
                                            py - cy * sv.cell_size.y,
                                        );
                                    }
                                    assert(buf@[j] == before[j]);
                                }
                            }
                        }
                    },
                }
                cx = cx + 1;
            }
            proof {
                assert forall|j: int|
                    0 <= j < total implies (cell_done(sv, j, cy + 1, 0) == cell_done(
                    sv,
                    j,
                    cy as int,
                    sv.size.x as int,
                )) by {
                    lemma_render_coords(sv, j);
                }
            }
            cy = cy + 1;
        }
        proof {
            assert forall|j: int| 0 <= j < total implies buf@[j] == rendered(sv)[j] by {
                lemma_render_coords(sv, j);
            }
            assert(buf@ =~= rendered(sv));
        }
        Sprite::new(IVec2::new(w_px, h_px), buf)
    }
}

/// Round trip: flattening a sheet with no empty cells and laying the
/// tiles out again under any well-formed policy yields the same tile
/// sequence.
pub proof fn lemma_round_trip(cells: Seq<CellView>, d: Distribution)
    requires
        d.wf(),
        cells.len() >= 1,
        forall|i: int| 0 <= i < cells.len() ==> (#[trigger] cells[i]) is Sprite,
    ensures
        ({
            let s = occupied_seq(cells);
            let shape = d.spec_min_size(s.len() as int);
            occupied_seq(laid_out((shape.0 * shape.1) as nat, s)) == s
        }),
{
    let s = occupied_seq(cells);
    lemma_occ_len(cells);
    lemma_eb_zero(cells, cells.len() as int);
    assert(s.len() == cells.len());
    crate::distribution::lemma_min_size_covers(d, s.len() as int);
    let shape = d.spec_min_size(s.len() as int);
    lemma_occ_laid_out((shape.0 * shape.1) as nat, s);
}

/// Decomposition of a flat row-major cell index: the index
/// `cy * cols + cx` lies inside a `cols * rows` sheet and maps back to
/// `(cx, cy)` under division and remainder.
pub proof fn lemma_cell_index(cols: int, rows: int, cx: int, cy: int)
    requires
        0 <= cx < cols,
        0 <= cy < rows,
    ensures
        0 <= cy * cols + cx < cols * rows,
        (cy * cols + cx) % cols == cx,
        (cy * cols + cx) / cols == cy,
{
    assert(0 <= cy * cols + cx && cy * cols + cx < cols * rows) by (nonlinear_arith)
        requires
            0 <= cx < cols,
            0 <= cy < rows,
    ;
    vstd::arithmetic::div_mod::lemma_fundamental_div_mod_converse(cy * cols + cx, cols, cy, cx);
}

} // verus!
