//! A single sprite: one decoded image tile, held as a raw RGBA pixel
//! buffer of fixed dimensions.

use vstd::prelude::*;
use vstd::pervasive::VecAdditionalExecFns;
use crate::utils::IVec2;

verus! {

/// The mathematical value of a [`Sprite`]: its pixel dimensions and the
/// flat byte sequence of its image, four bytes (RGBA) per pixel, rows
/// first, from the top-left pixel.
pub struct SpriteView {
    /// Width and height in pixels.
    pub size: IVec2,
    /// The raw bytes, of length `4 * size.x * size.y`.
    pub pixels: Seq<u8>,
}

impl SpriteView {
    /// The buffer holds exactly four bytes per pixel.
    pub open spec fn wf(self) -> bool {
        self.pixels.len() == 4 * self.size.x * self.size.y
    }

    /// The byte holding channel `k` of the pixel at `(px, py)`.
    pub open spec fn byte_at(self, px: int, py: int, k: int) -> u8 {
        self.pixels[(py * self.size.x + px) * 4 + k]
    }

    /// A sprite is transparent when every pixel's alpha channel (the
    /// fourth byte of each four-byte group) is zero.
    pub open spec fn transparent(self) -> bool {
        forall|j: int| 0 <= j < self.pixels.len() && j % 4 == 3 ==> self.pixels[j] == 0
    }
}

/// The bytes of the `size`-sized sub-rectangle of `s` whose top-left pixel
/// is at `origin`, in the same row-major RGBA layout.
pub open spec fn sub_pixels(s: SpriteView, origin: IVec2, size: IVec2) -> Seq<u8> {
    Seq::new(
        (4 * size.x * size.y) as nat,
        |j: int|
            {
                let p = j / 4;
                let k = j % 4;
                let px = p % (size.x as int);
                let py = p / (size.x as int);
                s.byte_at(origin.x + px, origin.y + py, k)
            },
    )
}

/// The sub-rectangle of `s` at `origin`, viewed as a sprite of its own.
pub open spec fn sub_view(s: SpriteView, origin: IVec2, size: IVec2) -> SpriteView {
    SpriteView { size, pixels: sub_pixels(s, origin, size) }
}

/// Decomposition of a flat byte index into pixel coordinates and channel:
/// the index `(py * w + px) * 4 + k` lies inside a `w * h` buffer and maps
/// back to `(px, py, k)` under division and remainder.
proof fn lemma_pixel_index(w: int, h: int, px: int, py: int, k: int)
    requires
        0 <= px < w,
        0 <= py < h,
        0 <= k < 4,
    ensures
        0 <= (py * w + px) * 4 + k < 4 * w * h,
        ((py * w + px) * 4 + k) / 4 == py * w + px,
        ((py * w + px) * 4 + k) % 4 == k,
        (py * w + px) % w == px,
        (py * w + px) / w == py,
{
    assert(0 <= py * w + px && py * w + px < w * h) by (nonlinear_arith)
        requires
            0 <= px < w,
            0 <= py < h,
    ;
    vstd::arithmetic::div_mod::lemma_fundamental_div_mod_converse(
        (py * w + px) * 4 + k,
        4,
        py * w + px,
        k,
    );
    vstd::arithmetic::div_mod::lemma_fundamental_div_mod_converse(py * w + px, w, py, px);
    assert((py * w + px) * 4 + k < 4 * w * h) by (nonlinear_arith)
        requires
            py * w + px < w * h,
            0 <= k < 4,
    ;
}

/// A sprite: one immutable image tile of fixed pixel dimensions, four
/// bytes (RGBA) per pixel.
#[derive(Debug, Clone)]
pub struct Sprite {
    size: IVec2,
    pixels: Vec<u8>,
}

impl View for Sprite {
    type V = SpriteView;

    closed spec fn view(&self) -> SpriteView {
        SpriteView { size: self.size, pixels: self.pixels@ }
    }
}

impl Sprite {
    /// Wraps a raw RGBA buffer of the given pixel dimensions.  The buffer
    /// must hold exactly four bytes for each of the `size.x * size.y`
    /// pixels; an application converting a decoded image checks this
    /// before calling.
    pub fn new(size: IVec2, pixels: Vec<u8>) -> (r: Sprite)
        requires
            pixels@.len() == 4 * size.x * size.y,
        ensures
            r@ == (SpriteView { size, pixels: pixels@ }),
            r@.wf(),
    {
        Sprite { size, pixels }
    }

    /// The pixel dimensions of the sprite.
    pub fn size(&self) -> (r: IVec2)
        ensures
            r == self@.size,
    {
        self.size
    }

    /// Consumes the sprite and returns the raw bytes of its image.
    pub fn into_image(self) -> (r: Vec<u8>)
        ensures
            r@ == self@.pixels,
    {
        self.pixels
    }

    /// Returns `true` when the sprite only has fully transparent pixels.
    pub fn is_empty(&self) -> (r: bool)
        requires
            self@.wf(),
        ensures
            r == self@.transparent(),
    {
        let n = self.pixels.len() / 4;
        proof {
            assert(self@.pixels.len() == (self@.size.x * self@.size.y) * 4 + 0)
                by (nonlinear_arith)
                requires
                    self@.pixels.len() == 4 * self@.size.x * self@.size.y,
            ;
            vstd::arithmetic::div_mod::lemma_fundamental_div_mod_converse(
                self@.pixels.len() as int,
                4,
                self@.size.x * self@.size.y,
                0,
            );
        }
        let mut p: usize = 0;
        while p < n
            invariant
                0 <= p <= n,
                self@.pixels.len() == 4 * n,
                self@.pixels.len() <= usize::MAX,
                forall|j: int| 0 <= j < 4 * p && j % 4 == 3 ==> self@.pixels[j] == 0,
            decreases n - p,
        {
            proof {
                vstd::arithmetic::div_mod::lemma_fundamental_div_mod_converse(
                    4 * p + 3,
                    4,
                    p as int,
                    3,
                );
            }
            if self.pixels[4 * p + 3] != 0 {
                assert(!self@.transparent());
                return false;
            }
            proof {
                assert forall|j: int| 0 <= j < 4 * (p + 1) && j % 4 == 3 implies self@.pixels[j]
                    == 0 by {
                    if j >= 4 * p {
                        vstd::arithmetic::div_mod::lemma_fundamental_div_mod(j, 4);
                        assert(j == 4 * p + 3);
                    }
                }
            }
            p = p + 1;
        }
        true
    }

    /// Copies out the `size`-sized sub-rectangle at `origin` as a sprite
    /// of its own.
    pub fn sub_sprite(&self, origin: IVec2, size: IVec2) -> (r: Sprite)
        requires
            self@.wf(),
            origin.x + size.x <= self@.size.x,
            origin.y + size.y <= self@.size.y,
        ensures
            r@ == sub_view(self@, origin, size),
            r@.wf(),
    {
        proof {
            vstd::std_specs::vec::axiom_spec_len(&self.pixels);
            assert(size.x * size.y <= usize::MAX && 4 * (size.x * size.y) == 4 * size.x * size.y
                && 4 * (size.x * size.y) <= self@.pixels.len()) by (nonlinear_arith)
                requires
                    0 <= size.x <= self@.size.x,
                    0 <= size.y <= self@.size.y,
                    self@.pixels.len() == 4 * self@.size.x * self@.size.y,
                    self@.pixels.len() <= usize::MAX,
            ;
        }
        let total: usize = 4 * (size.x * size.y);
        let mut out: Vec<u8> = Vec::new();
        let mut j: usize = 0;
        while j < total
            invariant
                0 <= j <= total,
                total == 4 * size.x * size.y,
                origin.x + size.x <= self@.size.x,
                origin.y + size.y <= self@.size.y,
                self@.wf(),
                out@.len() == j,
                forall|i: int| 0 <= i < j ==> out@[i] == sub_pixels(self@, origin, size)[i],
            decreases total - j,
        {
            let p: usize = j / 4;
            let k: usize = j % 4;
            proof {
                assert(size.x >= 1 && size.y >= 1) by (nonlinear_arith)
                    requires
                        0 <= j < 4 * size.x * size.y,
                ;
            }
            let px: usize = p % size.x;
            let py: usize = p / size.x;
            proof {
                broadcast use vstd::arithmetic::div_mod::lemma_mod_bound;
                broadcast use vstd::arithmetic::div_mod::lemma_fundamental_div_mod;

                vstd::std_specs::vec::axiom_spec_len(&self.pixels);
                assert(p < size.x * size.y) by (nonlinear_arith)
                    requires
                        4 * p <= j < 4 * size.x * size.y,
                        j < 4 * (p + 1),
                ;
                assert(py < size.y) by (nonlinear_arith)
                    requires
                        p == size.x * py + ((p as int) % (size.x as int)),
                        0 <= (p as int) % (size.x as int) < size.x,
                        p < size.x * size.y,
                        size.x >= 1,
                ;
                lemma_pixel_index(
                    self@.size.x as int,
                    self@.size.y as int,
                    origin.x + px,
                    origin.y + py,
                    k as int,
                );
            }
            let src: usize = ((origin.y + py) * self.size.x + origin.x + px) * 4 + k;
            out.push(self.pixels[src]);
            j = j + 1;
        }
        proof {
            assert(out@ =~= sub_pixels(self@, origin, size));
        }
        Sprite { size, pixels: out }
    }

    /// Copies this sprite into `dst`, a raw RGBA buffer of `dst_size`
    /// pixels, at pixel offset `origin`.  Bytes outside the written
    /// rectangle keep their value.
    pub fn blit_onto(&self, dst: &mut Vec<u8>, dst_size: IVec2, origin: IVec2)
        requires
            self@.wf(),
            old(dst)@.len() == 4 * dst_size.x * dst_size.y,
            origin.x + self@.size.x <= dst_size.x,
            origin.y + self@.size.y <= dst_size.y,
        ensures
            final(dst)@.len() == old(dst)@.len(),
            forall|j: int|
                0 <= j < old(dst)@.len() ==> final(dst)@[j] == (if in_rect(
                    j,
                    dst_size.x as int,
                    origin,
                    self@.size,
                ) {
                    blit_byte(self@, dst_size.x as int, origin, j)
                } else {
                    old(dst)@[j]
                }),
    {
        let ghost dst0 = dst@;
        let ghost w = dst_size.x as int;
        let ghost h = dst_size.y as int;
        let ghost sv = self@;
        proof {
            vstd::std_specs::vec::axiom_spec_len(dst);
        }
        let mut ry: usize = 0;
        while ry < self.size.y
            invariant
                0 <= ry <= sv.size.y,
                sv == self@,
                sv.wf(),
                w == dst_size.x,
                h == dst_size.y,
                origin.x + sv.size.x <= w,
                origin.y + sv.size.y <= h,
                dst0.len() == 4 * w * h,
                dst0.len() <= usize::MAX,
                dst@.len() == dst0.len(),
                forall|j: int|
                    0 <= j < dst0.len() ==> dst@[j] == (if blit_done(
                        j,
                        w,
                        origin,
                        sv.size,
                        ry as int,
                        0,
                    ) {
                        blit_byte(sv, w, origin, j)
                    } else {
                        dst0[j]
                    }),
            decreases sv.size.y - ry,
        {
            proof {
                assert(4 * sv.size.x <= 4 * w && 4 * w <= 4 * w * h) by (nonlinear_arith)
                    requires
                        0 <= sv.size.x <= w,
                        h >= 1,
                ;
            }
            let row_len: usize = 4 * self.size.x;
            let mut t: usize = 0;
            while t < row_len
                invariant
                    0 <= t <= row_len,
                    0 <= ry < sv.size.y,
                    row_len == 4 * sv.size.x,
                    sv == self@,
                    sv.wf(),
                    w == dst_size.x,
                    h == dst_size.y,
                    origin.x + sv.size.x <= w,
                    origin.y + sv.size.y <= h,
                    dst0.len() == 4 * w * h,
                    dst0.len() <= usize::MAX,
                    dst@.len() == dst0.len(),
                    forall|j: int|
                        0 <= j < dst0.len() ==> dst@[j] == (if blit_done(
                            j,
                            w,
                            origin,
                            sv.size,
                            ry as int,
                            t as int,
                        ) {
                            blit_byte(sv, w, origin, j)
                        } else {
                            dst0[j]
                        }),
                decreases row_len - t,
            {
                let cx: usize = t / 4;
                let k: usize = t % 4;
                proof {
                    vstd::std_specs::vec::axiom_spec_len(&self.pixels);
                    vstd::arithmetic::div_mod::lemma_fundamental_div_mod(t as int, 4);
                    vstd::arithmetic::div_mod::lemma_mod_bound(t as int, 4);
                    assert(cx < sv.size.x);
                    lemma_pixel_index(w, h, origin.x + cx, origin.y + ry, k as int);
                    lemma_pixel_index(
                        sv.size.x as int,
                        sv.size.y as int,
                        cx as int,
                        ry as int,
                        k as int,
                    );
                    assert((ry * sv.size.x + cx) * 4 + k < sv.pixels.len());
                }
                let dj: usize = ((origin.y + ry) * dst_size.x + (origin.x + cx)) * 4 + k;
                let sj: usize = (ry * self.size.x + cx) * 4 + k;
                let ghost before = dst@;
                dst.set(dj, self.pixels[sj]);
                proof {
                    broadcast use vstd::arithmetic::mul::group_mul_is_commutative_and_distributive;

                    assert(blit_byte(sv, w, origin, dj as int) == sv.pixels[sj as int]);
                    assert forall|j: int| 0 <= j < dst0.len() implies dst@[j] == (if blit_done(
                        j,
                        w,
                        origin,
                        sv.size,
                        ry as int,
                        t + 1,
                    ) {
                        blit_byte(sv, w, origin, j)
                    } else {
                        dst0[j]
                    }) by {
                        if j != dj {
                            vstd::arithmetic::div_mod::lemma_fundamental_div_mod(j, 4);
                            vstd::arithmetic::div_mod::lemma_mod_bound(j, 4);
                            if w >= 1 {
                                vstd::arithmetic::div_mod::lemma_fundamental_div_mod(j / 4, w);
                                vstd::arithmetic::div_mod::lemma_mod_bound(j / 4, w);
                            }
                        }
                    }
                }
                t = t + 1;
            }
            proof {
                assert forall|j: int| 0 <= j < dst0.len() implies blit_done(
                    j,
                    w,
                    origin,
                    sv.size,
                    ry + 1,
                    0,
                ) == blit_done(j, w, origin, sv.size, ry as int, row_len as int) by {
                    vstd::arithmetic::div_mod::lemma_mod_bound(j, 4);
                }
            }
            ry = ry + 1;
        }
        proof {
            assert forall|j: int| 0 <= j < dst0.len() implies in_rect(j, w, origin, sv.size)
                == blit_done(j, w, origin, sv.size, sv.size.y as int, 0) by {}
        }
    }
}

/// Whether flat byte index `j` of a buffer of pixel width `w` lies inside
/// the rectangle of `size` pixels whose top-left corner is at `origin`.
pub open spec fn in_rect(j: int, w: int, origin: IVec2, size: IVec2) -> bool {
    let p = j / 4;
    let px = p % w;
    let py = p / w;
    origin.x <= px < origin.x + size.x && origin.y <= py < origin.y + size.y
}

/// The byte that blitting sprite `s` at pixel offset `origin` into a
/// buffer of pixel width `w` writes at flat index `j`, for `j` inside the
/// written rectangle.
pub open spec fn blit_byte(s: SpriteView, w: int, origin: IVec2, j: int) -> u8 {
    let p = j / 4;
    let k = j % 4;
    let px = p % w;
    let py = p / w;
    s.byte_at(px - origin.x, py - origin.y, k)
}

/// Which bytes a row-by-row blit has written once it has copied the rows
/// before `ry` whole and the first `t` bytes of row `ry`.
spec fn blit_done(j: int, w: int, origin: IVec2, size: IVec2, ry: int, t: int) -> bool {
    let p = j / 4;
    let k = j % 4;
    let px = p % w;
    let py = p / w;
    origin.x <= px < origin.x + size.x && origin.y <= py && (py - origin.y < ry || (py - origin.y
        == ry && (px - origin.x) * 4 + k < t))
}

} // verus!
