//! Layout policies: how many columns and lines a given tile count should
//! occupy.

use vstd::prelude::*;
use crate::utils::IVec2;

verus! {

/// A constraint to follow when arranging a flat list of sprites into a
/// rectangular sheet.
#[derive(Debug, Clone)]
pub enum Distribution {
    /// The sheet has a fixed number of columns; the number of lines follows
    /// from the sprite count.
    FixedColumns(usize),
    /// The sheet has a fixed number of lines; the number of columns follows
    /// from the sprite count.
    FixedLines(usize),
    /// The sheet packs the sprites into a shape as close to a square as
    /// possible.  The parameter is `true` to give the extra slack to the
    /// number of columns, `false` to give it to the number of lines.
    Packed(bool),
}

/// `ceil(a / b)` over the integers, meaningful for `b >= 1`.
pub open spec fn ceil_div(a: int, b: int) -> int {
    (a + b - 1) / b
}

/// The integer square root: the largest `r` with `r * r <= n`.
pub open spec fn isqrt(n: nat) -> nat
    decreases n,
{
    if n == 0 {
        0
    } else {
        let r = isqrt((n - 1) as nat);
        if (r + 1) * (r + 1) <= n {
            r + 1
        } else {
            r
        }
    }
}

/// `ceil(sqrt(n))`: the smallest `c` with `c * c >= n`.
pub open spec fn sqrt_ceil(n: nat) -> nat {
    if isqrt(n) * isqrt(n) == n {
        isqrt(n)
    } else {
        isqrt(n) + 1
    }
}

/// `floor(sqrt(n) + 1/2)`: the real square root rounded to the nearest
/// integer, with exact halves rounded up.  Since `sqrt(n) >= isqrt(n)`
/// rounds up exactly when `n > isqrt(n) * (isqrt(n) + 1)`, that inequality
/// is the whole definition.
pub open spec fn sqrt_round(n: nat) -> nat {
    if n <= isqrt(n) * (isqrt(n) + 1) {
        isqrt(n)
    } else {
        isqrt(n) + 1
    }
}

/// The integer square root is bracketed by the two neighbouring squares.
pub proof fn lemma_isqrt(n: nat)
    ensures
        isqrt(n) * isqrt(n) <= n,
        (isqrt(n) + 1) * (isqrt(n) + 1) > n,
    decreases n,
{
    if n == 0 {
        assert(isqrt(n) == 0);
        assert(isqrt(n) * isqrt(n) <= n && (isqrt(n) + 1) * (isqrt(n) + 1) > n)
            by (nonlinear_arith)
            requires
                isqrt(n) == 0,
                n == 0,
        ;
    } else {
        let r: nat = isqrt((n - 1) as nat);
        lemma_isqrt((n - 1) as nat);
        assert(r * r <= n - 1);
        assert((r + 1) * (r + 1) > n - 1);
        if (r + 1) * (r + 1) <= n {
            assert(isqrt(n) == r + 1);
            assert(isqrt(n) * isqrt(n) <= n && (isqrt(n) + 1) * (isqrt(n) + 1) > n)
                by (nonlinear_arith)
                requires
                    isqrt(n) == r + 1,
                    (r + 1) * (r + 1) > n - 1,
                    (r + 1) * (r + 1) <= n,
                    r >= 0,
            ;
        } else {
            assert(isqrt(n) == r);
            assert(isqrt(n) * isqrt(n) <= n && (isqrt(n) + 1) * (isqrt(n) + 1) > n)
                by (nonlinear_arith)
                requires
                    isqrt(n) == r,
                    r * r <= n - 1,
                    (r + 1) * (r + 1) > n,
                    n >= 1,
            ;
        }
    }
}

/// Any two values bracketed by their neighbouring squares around `n` agree,
/// so such a bracket pins down `isqrt(n)`.
pub proof fn lemma_isqrt_unique(n: nat, a: nat)
    requires
        a * a <= n,
        (a + 1) * (a + 1) > n,
    ensures
        a == isqrt(n),
{
    let i = isqrt(n);
    lemma_isqrt(n);
    if a < i {
        assert((a + 1) * (a + 1) <= i * i) by (nonlinear_arith)
            requires
                0 <= a,
                a + 1 <= i,
        ;
    }
    if i < a {
        assert((i + 1) * (i + 1) <= a * a) by (nonlinear_arith)
            requires
                0 <= i,
                i + 1 <= a,
        ;
    }
}

/// Computes `isqrt` by binary search over the bracketing invariant.
fn exec_isqrt(n: usize) -> (r: usize)
    ensures
        r == isqrt(n as nat),
        r * r <= n,
        (r + 1) * (r + 1) > n,
{
    let nn: u128 = n as u128;
    let mut lo: u128 = 0;
    let mut hi: u128 = nn + 1;
    proof {
        assert((nn + 1) * (nn + 1) > nn) by (nonlinear_arith)
            requires
                nn >= 0,
        ;
    }
    while lo + 1 < hi
        invariant
            0 <= lo < hi <= nn + 1,
            lo * lo <= nn,
            hi * hi > nn,
            nn == n,
        decreases hi - lo,
    {
        let mid: u128 = lo + (hi - lo) / 2;
        proof {
            assert(mid * mid <= nn * nn) by (nonlinear_arith)
                requires
                    0 <= mid <= nn,
            ;
            assert(nn * nn <= u128::MAX) by (nonlinear_arith)
                requires
                    0 <= nn <= 0xFFFF_FFFF_FFFF_FFFFu128,
            ;
        }
        if mid * mid <= nn {
            lo = mid;
        } else {
            hi = mid;
        }
    }
    proof {
        assert(lo <= nn) by (nonlinear_arith)
            requires
                lo * lo <= nn,
                0 <= lo,
        ;
        lemma_isqrt_unique(n as nat, lo as nat);
    }
    lo as usize
}

impl Distribution {
    /// A policy is well formed when its fixed column or line count is at
    /// least one; a sheet with zero columns or zero lines could never hold
    /// a sprite.
    pub open spec fn wf(self) -> bool {
        match self {
            Distribution::FixedColumns(c) => c >= 1,
            Distribution::FixedLines(l) => l >= 1,
            Distribution::Packed(_) => true,
        }
    }

    /// The shape `(columns, lines)` this policy assigns to `count` sprites.
    pub open spec fn spec_min_size(self, count: int) -> (int, int) {
        match self {
            Distribution::FixedColumns(c) => (c as int, ceil_div(count, c as int)),
            Distribution::FixedLines(l) => (ceil_div(count, l as int), l as int),
            Distribution::Packed(columns_prio) => if columns_prio {
                (sqrt_ceil(count as nat) as int, sqrt_round(count as nat) as int)
            } else {
                (sqrt_round(count as nat) as int, sqrt_ceil(count as nat) as int)
            },
        }
    }

    /// Returns the minimum size a sheet should have to hold `sprite_count`
    /// sprites whilst respecting this policy.  The returned shape always
    /// satisfies `x * y >= sprite_count`.
    pub fn get_min_size(&self, sprite_count: usize) -> (r: IVec2)
        requires
            self.wf(),
            sprite_count >= 1,
        ensures
            r.x == self.spec_min_size(sprite_count as int).0,
            r.y == self.spec_min_size(sprite_count as int).1,
            r.x >= 1,
            r.y >= 1,
            r.x * r.y >= sprite_count,
    {
        proof {
            lemma_min_size_covers(*self, sprite_count as int);
        }
        match self {
            Distribution::FixedColumns(columns) => {
                proof {
                    lemma_ceil_div_shifted(sprite_count as int, *columns as int);
                    lemma_ceil_div_covers(sprite_count as int, *columns as int);
                }
                let lines = (sprite_count - 1) / *columns + 1;
                IVec2::new(*columns, lines)
            },
            Distribution::FixedLines(lines) => {
                proof {
                    lemma_ceil_div_shifted(sprite_count as int, *lines as int);
                    lemma_ceil_div_covers(sprite_count as int, *lines as int);
                }
                let columns = (sprite_count - 1) / *lines + 1;
                IVec2::new(columns, *lines)
            },
            Distribution::Packed(columns_prio) => {
                let base = exec_isqrt(sprite_count);
                proof {
                    assert(base * (base + 1) == base * base + base) by (nonlinear_arith);
                    if base >= 2 {
                        assert(base + base <= base * base) by (nonlinear_arith)
                            requires
                                base >= 2,
                        ;
                    }
                }
                let longer = if base * base == sprite_count {
                    base
                } else {
                    base + 1
                };
                let shorter = if sprite_count - base * base <= base {
                    base
                } else {
                    base + 1
                };
                if *columns_prio {
                    IVec2::new(longer, shorter)
                } else {
                    IVec2::new(shorter, longer)
                }
            },
        }
    }
}

/// For `count >= 1` and `div >= 1`, the ceiling of `count / div` can be
/// computed without overflow as `(count - 1) / div + 1`.
proof fn lemma_ceil_div_shifted(count: int, div: int)
    requires
        count >= 1,
        div >= 1,
    ensures
        ceil_div(count, div) == (count - 1) / div + 1,
{
    vstd::arithmetic::div_mod::lemma_fundamental_div_mod(count - 1, div);
    let q: int = (count - 1) / div;
    let rem: int = (count - 1) % div;
    vstd::arithmetic::div_mod::lemma_mod_bound(count - 1, div);
    assert((q + 1) * div == q * div + div) by (nonlinear_arith);
    assert(div * q == q * div) by (nonlinear_arith);
    vstd::arithmetic::div_mod::lemma_fundamental_div_mod_converse(
        count + div - 1,
        div,
        q + 1,
        rem,
    );
}

/// Every well-formed distribution assigns at least one column and one
/// line, and a capacity that covers the sprite count: the shape is never
/// too small to hold all the sprites.
pub proof fn lemma_min_size_covers(d: Distribution, count: int)
    requires
        d.wf(),
        count >= 1,
    ensures
        d.spec_min_size(count).0 >= 1,
        d.spec_min_size(count).1 >= 1,
        d.spec_min_size(count).0 * d.spec_min_size(count).1 >= count,
{
    let cols = d.spec_min_size(count).0;
    let lines = d.spec_min_size(count).1;
    match d {
        Distribution::FixedColumns(c) => {
            lemma_ceil_div_covers(count, c as int);
            assert(cols * lines >= count) by (nonlinear_arith)
                requires
                    cols == c as int,
                    lines == ceil_div(count, c as int),
                    (c as int) * ceil_div(count, c as int) >= count,
            ;
        },
        Distribution::FixedLines(l) => {
            lemma_ceil_div_covers(count, l as int);
            assert(cols * lines >= count) by (nonlinear_arith)
                requires
                    cols == ceil_div(count, l as int),
                    lines == l as int,
                    (l as int) * ceil_div(count, l as int) >= count,
            ;
        },
        Distribution::Packed(_) => {
            let a: int = isqrt(count as nat) as int;
            lemma_isqrt(count as nat);
            assert(a * a <= count < (a + 1) * (a + 1));
            let ce = sqrt_ceil(count as nat) as int;
            let ro = sqrt_round(count as nat) as int;
            if a * a == count {
                assert(ce == a);
                assert(count <= a * (a + 1)) by (nonlinear_arith)
                    requires
                        count == a * a,
                        a >= 0,
                ;
                assert(ro == a);
                assert(ce >= 1 && ro >= 1) by (nonlinear_arith)
                    requires
                        ce == a,
                        ro == a,
                        a * a == count,
                        count >= 1,
                        a >= 0,
                ;
                assert(ce * ro >= count) by (nonlinear_arith)
                    requires
                        ce == a,
                        ro == a,
                        a * a == count,
                ;
            } else if count <= a * (a + 1) {
                assert(ce == a + 1);
                assert(ro == a);
                assert(ce >= 1 && ro >= 1) by (nonlinear_arith)
                    requires
                        ce == a + 1,
                        ro == a,
                        count <= a * (a + 1),
                        count >= 1,
                        a >= 0,
                ;
                assert(ce * ro >= count) by (nonlinear_arith)
                    requires
                        ce == a + 1,
                        ro == a,
                        count <= a * (a + 1),
                ;
            } else {
                assert(count > a * a) by (nonlinear_arith)
                    requires
                        count > a * (a + 1),
                        a >= 0,
                ;
                assert(ce == a + 1);
                assert(ro == a + 1);
                assert(ce >= 1 && ro >= 1);
                assert(ce * ro >= count) by (nonlinear_arith)
                    requires
                        ce == a + 1,
                        ro == a + 1,
                        count < (a + 1) * (a + 1),
                ;
            }
            assert(cols * lines >= count) by (nonlinear_arith)
                requires
                    (cols == ce && lines == ro) || (cols == ro && lines == ce),
                    ce * ro >= count,
            ;
        },
    }
}

/// The fixed-axis shapes cover the count: `div * ceil(count / div) >= count`.
proof fn lemma_ceil_div_covers(count: int, div: int)
    requires
        count >= 1,
        div >= 1,
    ensures
        ceil_div(count, div) >= 1,
        div * ceil_div(count, div) >= count,
        ceil_div(count, div) * div >= count,
        ceil_div(count, div) <= count,
{
    assert(div * ceil_div(count, div) == ceil_div(count, div) * div) by (nonlinear_arith);
    vstd::arithmetic::div_mod::lemma_fundamental_div_mod(count + div - 1, div);
    vstd::arithmetic::div_mod::lemma_mod_bound(count + div - 1, div);
    let q = ceil_div(count, div);
    let rem = (count + div - 1) % div;
    assert(div * q == count + div - 1 - rem);
    if q < 1 {
        assert(false) by (nonlinear_arith)
            requires
                q <= 0,
                div >= 1,
                count >= 1,
                rem < div,
                div * q == count + div - 1 - rem,
        ;
    }
    if q > count {
        assert(false) by (nonlinear_arith)
            requires
                q >= count + 1,
                div >= 1,
                count >= 1,
                rem >= 0,
                div * q == count + div - 1 - rem,
        ;
    }
}

/// The two packed orientations are transposes of each other: preferring
/// columns and preferring lines swap the two components of the shape.
pub proof fn lemma_packed_symmetry(count: int)
    requires
        count >= 1,
    ensures
        Distribution::Packed(true).spec_min_size(count).0 == Distribution::Packed(
            false,
        ).spec_min_size(count).1,
        Distribution::Packed(true).spec_min_size(count).1 == Distribution::Packed(
            false,
        ).spec_min_size(count).0,
{
}

} // verus!
