//! A flat, order-preserving list of same-sized sprites, with no grid
//! shape: the intermediate form used for composition and decomposition,
//! and the view on which the structural edits (delete, slice, reverse)
//! operate.

use vstd::prelude::*;
use crate::error::Error;
use crate::sprite::{Sprite, SpriteView};
use crate::utils::{IVec2, UnboundRange};

verus! {

/// Whether an index range is admissible against a collection of length
/// `len`: each explicit bound must be at most `len`.
pub open spec fn range_check(indices: UnboundRange, len: int) -> bool {
    indices.spec_end(len) <= len && indices.start <= len
}

/// The error an inadmissible range produces: the offending explicit
/// bound, checked the way removal encounters it (the last index of an
/// oversized upper bound first, then an oversized start).
pub open spec fn range_error(indices: UnboundRange, len: int) -> Error {
    if indices.end is Some && indices.spec_end(len) > len {
        Error::IndexOutOfRange { index: (indices.spec_end(len) - 1) as usize, max: len as usize }
    } else {
        Error::IndexOutOfRange { index: indices.start, max: len as usize }
    }
}

/// The effective upper bound of the span `[start, end)`, clamped so that
/// an upper bound below `start` spans nothing.
pub open spec fn span_hi(indices: UnboundRange, len: int) -> int {
    let hi = indices.spec_end(len);
    if hi < indices.start {
        indices.start as int
    } else {
        hi
    }
}

/// An ordered list of sprites that all share one pixel size, plus that
/// cached size.  Both the non-emptiness and the size uniformity are
/// enforced when the list is built, never re-checked afterwards.
#[derive(Debug, Clone)]
pub struct UnorderedSpriteSheet {
    sprites: Vec<Sprite>,
    size: IVec2,
}

impl View for UnorderedSpriteSheet {
    type V = Seq<SpriteView>;

    closed spec fn view(&self) -> Seq<SpriteView> {
        self.sprites@.map_values(|s: Sprite| s@)
    }
}

impl UnorderedSpriteSheet {
    /// The cached common pixel size of the sprites.
    pub closed spec fn spec_size(&self) -> IVec2 {
        self.size
    }

    /// Every sprite is well formed and has the cached common size.
    pub open spec fn sizes_ok(&self) -> bool {
        forall|i: int|
            0 <= i < self@.len() ==> (#[trigger] self@[i]).wf() && self@[i].size
                == self.spec_size()
    }

    /// A well-formed collection: at least one sprite, all of one size.
    pub open spec fn wf(&self) -> bool {
        self@.len() >= 1 && self.sizes_ok()
    }

    /// Builds a collection from a list of sprites.  Fails with
    /// [`Error::EmptyUnorderedSpriteSheet`] on an empty list (at least one
    /// sprite is needed to determine the common size), and with
    /// [`Error::MismatchedSpriteSize`] naming the first offending size if
    /// the sprites do not all share the first one's size.
    pub fn new(sprites: Vec<Sprite>) -> (r: Result<UnorderedSpriteSheet, Error>)
        requires
            forall|i: int| 0 <= i < sprites@.len() ==> (#[trigger] sprites@[i])@.wf(),
        ensures
            r is Ok <==> (sprites@.len() >= 1 && (forall|i: int|
                0 <= i < sprites@.len() ==> (#[trigger] sprites@[i])@.size
                    == sprites@[0]@.size)),
            r is Ok ==> r->Ok_0@ == sprites@.map_values(|s: Sprite| s@) && r->Ok_0.wf()
                && r->Ok_0.spec_size() == sprites@[0]@.size,
            sprites@.len() == 0 ==> r == Err::<UnorderedSpriteSheet, Error>(
                Error::EmptyUnorderedSpriteSheet,
            ),
            (r is Err && sprites@.len() >= 1) ==> (exists|i: int|
                1 <= i < sprites@.len() && (#[trigger] sprites@[i])@.size != sprites@[0]@.size
                    && r->Err_0 == (Error::MismatchedSpriteSize {
                    required: sprites@[0]@.size,
                    provided: sprites@[i]@.size,
                }) && (forall|j: int|
                    1 <= j < i ==> (#[trigger] sprites@[j])@.size == sprites@[0]@.size)),
    {
        if sprites.len() == 0 {
            return Err(Error::EmptyUnorderedSpriteSheet);
        }
        let size = sprites[0].size();
        let mut i: usize = 1;
        while i < sprites.len()
            invariant
                1 <= i <= sprites@.len(),
                size == sprites@[0]@.size,
                forall|j: int| 1 <= j < i ==> (#[trigger] sprites@[j])@.size == size,
            decreases sprites@.len() - i,
        {
            let si = sprites[i].size();
            if si.x != size.x || si.y != size.y {
                return Err(
                    Error::MismatchedSpriteSize { required: size, provided: si },
                );
            }
            i = i + 1;
        }
        let r = UnorderedSpriteSheet { sprites, size };
        proof {
            assert(r@ =~= r.sprites@.map_values(|s: Sprite| s@));
        }
        Ok(r)
    }

    /// The number of sprites in the collection.
    pub fn len(&self) -> (r: usize)
        ensures
            r == self@.len(),
    {
        self.sprites.len()
    }

    /// Returns `true` if there are no sprites in the collection.
    pub fn is_empty(&self) -> (r: bool)
        ensures
            r == (self@.len() == 0),
    {
        self.sprites.is_empty()
    }

    /// The common pixel size of the sprites.
    pub fn size(&self) -> (r: IVec2)
        ensures
            r == self.spec_size(),
    {
        self.size
    }

    /// An immutable reference to the inner list of sprites.
    pub fn inner(&self) -> (r: &Vec<Sprite>)
        ensures
            r@.map_values(|s: Sprite| s@) == self@,
    {
        &self.sprites
    }

    /// Consumes the collection and returns its list of sprites.
    pub fn into_inner(self) -> (r: Vec<Sprite>)
        ensures
            r@.map_values(|s: Sprite| s@) == self@,
    {
        self.sprites
    }

    /// Removes every sprite whose position falls in `indices`, resolved
    /// against the current length.  An explicit bound beyond the length
    /// fails with [`Error::IndexOutOfRange`] and leaves the collection
    /// unchanged; an upper bound at or below `start` removes nothing.
    pub fn delete(&mut self, indices: UnboundRange) -> (r: Result<(), Error>)
        ensures
            r is Ok <==> range_check(indices, old(self)@.len() as int),
            r is Err ==> r->Err_0 == range_error(indices, old(self)@.len() as int),
            r is Err ==> final(self)@ == old(self)@,
            r is Ok ==> final(self)@ == old(self)@.subrange(0, indices.start as int) + old(
                self,
            )@.subrange(span_hi(indices, old(self)@.len() as int), old(self)@.len() as int),
            final(self).spec_size() == old(self).spec_size(),
            old(self).sizes_ok() ==> final(self).sizes_ok(),
    {
        let ghost orig = self.sprites@;
        let len = self.sprites.len();
        if let Some(e) = indices.end {
            if e > len {
                return Err(Error::IndexOutOfRange { index: e - 1, max: len });
            }
        }
        if indices.start > len {
            return Err(Error::IndexOutOfRange { index: indices.start, max: len });
        }
        let hi = match indices.end {
            Some(e) => e,
            None => len,
        };
        if hi > indices.start {
            let lo = indices.start;
            proof {
                assert(self.sprites@ =~= orig.subrange(0, lo as int) + orig.subrange(
                    lo as int,
                    len as int,
                ));
            }
            let mut cnt: usize = 0;
            while cnt < hi - lo
                invariant
                    0 <= cnt <= hi - lo,
                    lo < hi <= len,
                    len == orig.len(),
                    self.spec_size() == old(self).spec_size(),
                    self.sprites@ =~= orig.subrange(0, lo as int) + orig.subrange(
                        lo + cnt,
                        len as int,
                    ),
                decreases hi - lo - cnt,
            {
                self.sprites.remove(lo);
                proof {
                    assert(self.sprites@ =~= orig.subrange(0, lo as int) + orig.subrange(
                        lo + cnt + 1,
                        len as int,
                    ));
                }
                cnt = cnt + 1;
            }
        }
        proof {
            let len0 = orig.len() as int;
            let hi0 = span_hi(indices, len0);
            if hi0 == indices.start {
                assert(self.sprites@ =~= orig.subrange(0, indices.start as int) + orig.subrange(
                    hi0,
                    len0,
                ));
            }
            self.lemma_view_is_slices(orig, indices.start as int, hi0);
        }
        Ok(())
    }

    /// After a deletion the view is the two kept slices of the original,
    /// and a uniformly sized collection stays uniformly sized.
    proof fn lemma_view_is_slices(&self, orig: Seq<Sprite>, lo: int, hi: int)
        requires
            0 <= lo <= orig.len(),
            lo <= hi <= orig.len(),
            self.sprites@ =~= orig.subrange(0, lo) + orig.subrange(hi, orig.len() as int),
        ensures
            self@ == orig.map_values(|s: Sprite| s@).subrange(0, lo) + orig.map_values(
                |s: Sprite| s@,
            ).subrange(hi, orig.len() as int),
    {
        let om = orig.map_values(|s: Sprite| s@);
        assert forall|i: int| 0 <= i < self@.len() implies self@[i] == (om.subrange(0, lo)
            + om.subrange(hi, orig.len() as int))[i] by {
            if i < lo {
                assert(self.sprites@[i] == orig[i]);
            } else {
                assert(self.sprites@[i] == orig[hi + (i - lo)]);
            }
        }
        assert(self@ =~= om.subrange(0, lo) + om.subrange(hi, orig.len() as int));
    }

    /// Keeps only the sprites whose positions fall in `indices`, resolved
    /// against the current length: the inverse of [`Self::delete`], with
    /// the same bound checking.
    pub fn slice(&mut self, indices: UnboundRange) -> (r: Result<(), Error>)
        ensures
            r is Ok <==> range_check(indices, old(self)@.len() as int),
            r is Err ==> r->Err_0 == range_error(indices, old(self)@.len() as int),
            r is Err ==> final(self)@ == old(self)@,
            r is Ok ==> final(self)@ == old(self)@.subrange(
                indices.start as int,
                span_hi(indices, old(self)@.len() as int),
            ),
            final(self).spec_size() == old(self).spec_size(),
            old(self).sizes_ok() ==> final(self).sizes_ok(),
    {
        let ghost orig = self.sprites@;
        let len = self.sprites.len();
        if let Some(e) = indices.end {
            if e > len {
                return Err(Error::IndexOutOfRange { index: e - 1, max: len });
            }
        }
        if indices.start > len {
            return Err(Error::IndexOutOfRange { index: indices.start, max: len });
        }
        let hi = match indices.end {
            Some(e) => e,
            None => len,
        };
        let cut = if hi > indices.start {
            hi
        } else {
            indices.start
        };
        proof {
            assert(self.sprites@ =~= orig.subrange(0, self.sprites@.len() as int));
        }
        while self.sprites.len() > cut
            invariant
                cut <= self.sprites@.len() <= orig.len(),
                self.spec_size() == old(self).spec_size(),
                self.sprites@ =~= orig.subrange(0, self.sprites@.len() as int),
            decreases self.sprites@.len(),
        {
            self.sprites.pop();
            proof {
                assert(self.sprites@ =~= orig.subrange(0, self.sprites@.len() as int));
            }
        }
        let lo = indices.start;
        let mut cnt: usize = 0;
        while cnt < lo
            invariant
                0 <= cnt <= lo,
                lo <= cut <= orig.len(),
                self.spec_size() == old(self).spec_size(),
                self.sprites@ =~= orig.subrange(cnt as int, cut as int),
            decreases lo - cnt,
        {
            self.sprites.remove(0);
            proof {
                assert(self.sprites@ =~= orig.subrange(cnt + 1, cut as int));
            }
            cnt = cnt + 1;
        }
        proof {
            let om = orig.map_values(|s: Sprite| s@);
            let lo0 = indices.start as int;
            let cut0 = cut as int;
            assert forall|i: int| 0 <= i < self@.len() implies self@[i] == om.subrange(
                lo0,
                cut0,
            )[i] by {
                assert(self.sprites@[i] == orig[lo0 + i]);
            }
            assert(self@ =~= om.subrange(lo0, cut0));
        }
        Ok(())
    }

    /// Reverses the order of the sprites; the collection's size and
    /// length are unchanged.
    pub fn reverse(&mut self)
        ensures
            final(self)@ == old(self)@.reverse(),
            final(self)@.len() == old(self)@.len(),
            final(self).spec_size() == old(self).spec_size(),
            old(self).sizes_ok() ==> final(self).sizes_ok(),
    {
        let ghost orig = self.sprites@;
        let mut out: Vec<Sprite> = Vec::new();
        proof {
            assert(self.sprites@ =~= orig.subrange(0, self.sprites@.len() as int));
        }
        while self.sprites.len() > 0
            invariant
                out@.len() + self.sprites@.len() == orig.len(),
                self.spec_size() == old(self).spec_size(),
                self.sprites@ =~= orig.subrange(0, self.sprites@.len() as int),
                forall|i: int| 0 <= i < out@.len() ==> out@[i] == orig[orig.len() - 1 - i],
            decreases self.sprites@.len(),
        {
            let s = match self.sprites.pop() {
                Some(s) => s,
                None => vstd::pervasive::unreached(),
            };
            proof {
                assert(self.sprites@ =~= orig.subrange(0, self.sprites@.len() as int));
            }
            out.push(s);
        }
        self.sprites = out;
        proof {
            let om = orig.map_values(|s: Sprite| s@);
            assert forall|i: int| 0 <= i < self@.len() implies self@[i] == om.reverse()[i] by {
                assert(self.sprites@[i] == orig[orig.len() - 1 - i]);
            }
            assert(self@ =~= om.reverse());
        }
    }
}

} // verus!
