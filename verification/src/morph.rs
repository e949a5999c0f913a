//! Growing and shrinking a selection mask by a number of pixels.
use crate::region::lemma_cell_index;
use vstd::prelude::*;

verus! {

/// The mask value at `(x, y)` of a `w`×`h` mask; 0 off the canvas.
pub open spec fn mask_at(m: Seq<u8>, w: int, h: int, x: int, y: int) -> u8 {
    if 0 <= x < w && 0 <= y < h {
        m[y * w + x]
    } else {
        0
    }
}

/// A value on the other side of the selection's edge: selected (above 8)
/// when growing, not selected (128 or less) when shrinking.
pub open spec fn beyond_edge(v: u8, grow: bool) -> bool {
    if grow {
        v > 8
    } else {
        v <= 128
    }
}

/// Some pixel of the square of radius `r` around `(x, y)` is on the other
/// side of the edge; off the canvas counts as not selected.
pub open spec fn near_other(m: Seq<u8>, w: int, h: int, r: int, grow: bool, x: int, y: int) -> bool {
    exists|x2: int, y2: int|
        x - r <= x2 <= x + r && y - r <= y2 <= y + r && #[trigger] beyond_edge(mask_at(m, w, h, x2, y2), grow)
}

/// The value at `(x, y)` after growing (or shrinking) the mask by `r`: a
/// pixel on this side of the edge with one of the other side within `r`
/// changes sides (to 255 when growing, to 0 when shrinking).
pub open spec fn grown_value(m: Seq<u8>, w: int, h: int, r: int, grow: bool, x: int, y: int) -> u8 {
    let c = m[y * w + x];
    let this_side = if grow {
        c <= 8
    } else {
        c > 128
    };
    if this_side && near_other(m, w, h, r, grow, x, y) {
        if grow {
            255
        } else {
            0
        }
    } else {
        c
    }
}

/// Two cells of a grid `w` wide with the same index are the same cell.
proof fn lemma_cell_unique(w: int, a: int, c: int, x: int, y: int)
    requires
        0 <= a < w,
        0 <= x < w,
        c * w + a == y * w + x,
    ensures
        a == x,
        c == y,
{
    assert((c - y) * w == x - a) by (nonlinear_arith)
        requires
            c * w + a == y * w + x,
    ;
    assert(c == y) by (nonlinear_arith)
        requires
            (c - y) * w == x - a,
            0 <= a < w,
            0 <= x < w,
    ;
}

/// Whether a pixel of the square of radius `r` around `(x, y)` is on the
/// other side of the edge.
fn has_near_other(m: &[u8], w: usize, h: usize, r: usize, grow: bool, x: usize, y: usize) -> (b: bool)
    requires
        m@.len() >= w * h,
        x < w,
        y < h,
    ensures
        b == near_other(m@, w as int, h as int, r as int, grow, x as int, y as int),
{
    let ghost s = m@;
    if !grow {
        // The square reaches past the canvas, where nothing is selected.
        if r > x {
            assert(beyond_edge(mask_at(s, w as int, h as int, -1, y as int), grow));
            return true;
        }
        if r > y {
            assert(beyond_edge(mask_at(s, w as int, h as int, x as int, -1), grow));
            return true;
        }
        if r >= w - x {
            assert(beyond_edge(mask_at(s, w as int, h as int, w as int, y as int), grow));
            return true;
        }
        if r >= h - y {
            assert(beyond_edge(mask_at(s, w as int, h as int, x as int, h as int), grow));
            return true;
        }
    }
    let x0: usize = if x >= r {
        x - r
    } else {
        0
    };
    let y0: usize = if y >= r {
        y - r
    } else {
        0
    };
    let x1: usize = if r >= w - 1 - x {
        w - 1
    } else {
        x + r
    };
    let y1: usize = if r >= h - 1 - y {
        h - 1
    } else {
        y + r
    };
    let total = m.len();
    let mut yy: usize = y0;
    while yy <= y1
        invariant
            m@ == s,
            total == s.len(),
            s.len() >= w * h,
            x < w,
            y < h,
            x0 <= x1 < w,
            y0 <= y1 < h,
            x - r <= x0,
            x1 <= x + r,
            y - r <= y0,
            y1 <= y + r,
            y0 <= yy <= y1 + 1,
            forall|a: int, c: int|
                y0 <= c < yy && x0 <= a <= x1 ==> !#[trigger] beyond_edge(mask_at(s, w as int, h as int, a, c), grow),
        decreases y1 + 1 - yy,
    {
        let mut xx: usize = x0;
        while xx <= x1
            invariant
                m@ == s,
                total == s.len(),
                s.len() >= w * h,
                x < w,
                y < h,
                x0 <= x1 < w,
                y0 <= y1 < h,
                x - r <= x0,
                x1 <= x + r,
                y - r <= y0,
                y1 <= y + r,
                y0 <= yy <= y1,
                x0 <= xx <= x1 + 1,
                forall|a: int, c: int|
                    y0 <= c < yy && x0 <= a <= x1 ==> !#[trigger] beyond_edge(mask_at(s, w as int, h as int, a, c), grow),
                forall|a: int|
                    x0 <= a < xx ==> !#[trigger] beyond_edge(mask_at(s, w as int, h as int, a, yy as int), grow),
            decreases x1 + 1 - xx,
        {
            proof {
                lemma_cell_index(w as int, h as int, xx as int, yy as int);
            }
            let v = m[yy * w + xx];
            let hit = if grow {
                v > 8
            } else {
                v <= 128
            };
            if hit {
                assert(beyond_edge(mask_at(s, w as int, h as int, xx as int, yy as int), grow));
                return true;
            }
            xx = xx + 1;
        }
        yy = yy + 1;
    }
    proof {
        assert forall|a: int, c: int|
            x - r <= a <= x + r && y - r <= c <= y + r implies !#[trigger] beyond_edge(
            mask_at(s, w as int, h as int, a, c),
            grow,
        ) by {
            if 0 <= a < w && 0 <= c < h {
                assert(x0 <= a <= x1 && y0 <= c <= y1);
            }
        }
    }
    false
}

/// Grows (`grow`) or shrinks the selection of a `w`×`h` mask by `r`
/// pixels (see `grown_value`).
pub fn mask_grow(mask: &mut [u8], w: usize, h: usize, r: usize, grow: bool)
    requires
        old(mask)@.len() >= w * h,
    ensures
        final(mask)@.len() == old(mask)@.len(),
        forall|k: int| w * h <= k < old(mask)@.len() ==> final(mask)@[k] == old(mask)@[k],
        forall|x: int, y: int|
            0 <= x < w && 0 <= y < h ==> final(mask)@[y * w + x] == #[trigger] grown_value(
                old(mask)@,
                w as int,
                h as int,
                r as int,
                grow,
                x,
                y,
            ),
{
    let ghost s = mask@;
    let src: Vec<u8> = vstd::slice::slice_to_vec(mask);
    let total = src.len();
    let mut y: usize = 0;
    while y < h
        invariant
            src@ == s,
            total == s.len(),
            mask@.len() == s.len(),
            s.len() >= w * h,
            y <= h,
            forall|k: int| w * h <= k < s.len() ==> mask@[k] == s[k],
            forall|a: int, c: int|
                0 <= a < w && y <= c < h ==> #[trigger] mask@[c * w + a] == s[c * w + a],
            forall|a: int, c: int|
                0 <= a < w && 0 <= c < y ==> mask@[c * w + a] == #[trigger] grown_value(
                    s,
                    w as int,
                    h as int,
                    r as int,
                    grow,
                    a,
                    c,
                ),
        decreases h - y,
    {
        let mut x: usize = 0;
        while x < w
            invariant
                src@ == s,
                total == s.len(),
                mask@.len() == s.len(),
                s.len() >= w * h,
                y < h,
                x <= w,
                forall|k: int| w * h <= k < s.len() ==> mask@[k] == s[k],
                forall|a: int, c: int|
                    0 <= a < w && y < c < h ==> #[trigger] mask@[c * w + a] == s[c * w + a],
                forall|a: int| x <= a < w ==> #[trigger] mask@[y * w + a] == s[y * w + a],
                forall|a: int, c: int|
                    0 <= a < w && 0 <= c < y ==> mask@[c * w + a] == #[trigger] grown_value(
                        s,
                        w as int,
                        h as int,
                        r as int,
                        grow,
                        a,
                        c,
                    ),
                forall|a: int|
                    0 <= a < x ==> mask@[y * w + a] == #[trigger] grown_value(
                        s,
                        w as int,
                        h as int,
                        r as int,
                        grow,
                        a,
                        y as int,
                    ),
            decreases w - x,
        {
            proof {
                lemma_cell_index(w as int, h as int, x as int, y as int);
            }
            let i = y * w + x;
            let c = src[i];
            let this_side = if grow {
                c <= 8
            } else {
                c > 128
            };
            let ghost before = mask@;
            if this_side && has_near_other(src.as_slice(), w, h, r, grow, x, y) {
                mask[i] = if grow {
                    255
                } else {
                    0
                };
            }
            proof {
                assert forall|a: int, c2: int| 0 <= a < w && 0 <= c2 < h && (c2 != y || a != x) implies #[trigger] mask@[c2
                    * w + a] == before[c2 * w + a] by {
                    lemma_cell_index(w as int, h as int, a, c2);
                    if c2 * w + a == y * w + x {
                        lemma_cell_unique(w as int, a, c2, x as int, y as int);
                    }
                }
                assert(mask@[y * w + x] == grown_value(s, w as int, h as int, r as int, grow, x as int, y as int));
            }
            x = x + 1;
        }
        y = y + 1;
    }
}

} // verus!
