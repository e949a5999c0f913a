//! A 32-bit pixel canvas in `0x00BBGGRR` order (the byte order of a Win32
//! COLORREF), with discs, Bresenham lines, rectangles and flood fill.
use crate::image_files::{decode_image_rgb, encode_image_rgb, image_error_text, image_of_rgb, is_whole_image, rgb_of_image, whole_image};
use vstd::prelude::*;

verus! {

/// White.
pub const WHITE: u32 = 0x00FF_FFFF;

/// The colour value of `r`, `g`, `b` in `0x00BBGGRR` order.
pub open spec fn spec_rgb(r: u8, g: u8, b: u8) -> u32 {
    (r as int + g as int * 256 + b as int * 65536) as u32
}

/// Packs a colour as `0x00BBGGRR`.
pub fn rgb(r: u8, g: u8, b: u8) -> (c: u32)
    ensures
        c == spec_rgb(r, g, b),
        c as int == r as int + g as int * 256 + b as int * 65536,
{
    r as u32 + g as u32 * 256 + b as u32 * 65536
}

/// A canvas of `width`×`height` pixels, row by row from the top.
#[derive(Clone)]
pub struct Canvas {
    pub width: i32,
    pub height: i32,
    pub buf: Vec<u32>,
}

/// The point lies inside a `w`×`h` canvas.
pub open spec fn inside(w: int, h: int, x: int, y: int) -> bool {
    0 <= x < w && 0 <= y < h
}

impl Canvas {
    /// Both sides are positive and the buffer holds exactly one value per
    /// pixel.
    pub open spec fn wf(&self) -> bool {
        &&& self.width >= 1
        &&& self.height >= 1
        &&& self.buf@.len() == self.width * self.height
    }

    /// The colour of pixel `(x, y)`, for a pixel inside the canvas.
    pub open spec fn pixel(&self, x: int, y: int) -> u32 {
        self.buf@[y * self.width + x]
    }

    /// `other` has the same size, and every pixel inside is given by `f` of
    /// its coordinates.
    pub open spec fn same_size(&self, other: &Canvas) -> bool {
        self.width == other.width && self.height == other.height
    }

    /// A white canvas; sides below 1 become 1.
    pub fn new(width: i32, height: i32) -> (c: Self)
        requires
            (if width < 1 {
                1
            } else {
                width as int
            }) * (if height < 1 {
                1
            } else {
                height as int
            }) <= usize::MAX,
        ensures
            c.wf(),
            c.width == if width < 1 {
                1
            } else {
                width
            },
            c.height == if height < 1 {
                1
            } else {
                height
            },
            forall|x: int, y: int| inside(c.width as int, c.height as int, x, y) ==> c.pixel(x, y) == WHITE,
    {
        let w = if width < 1 {
            1
        } else {
            width
        };
        let h = if height < 1 {
            1
        } else {
            height
        };
        let n = w as usize * h as usize;
        let mut buf: Vec<u32> = Vec::new();
        let mut i: usize = 0;
        while i < n
            invariant
                i <= n,
                buf@.len() == i,
                forall|k: int| 0 <= k < i ==> buf@[k] == WHITE,
            decreases n - i,
        {
            buf.push(WHITE);
            i = i + 1;
        }
        let c = Canvas { width: w, height: h, buf };
        assert forall|x: int, y: int| inside(c.width as int, c.height as int, x, y) implies c.pixel(x, y)
            == WHITE by {
            lemma_index(w as int, h as int, x, y);
        }
        c
    }

    /// The point lies inside the canvas.
    pub fn contains(&self, x: i32, y: i32) -> (r: bool)
        ensures
            r == inside(self.width as int, self.height as int, x as int, y as int),
    {
        x >= 0 && y >= 0 && x < self.width && y < self.height
    }

    /// The colour of a pixel; outside the canvas, white.
    pub fn px(&self, x: i32, y: i32) -> (c: u32)
        requires
            self.wf(),
        ensures
            c == if inside(self.width as int, self.height as int, x as int, y as int) {
                self.pixel(x as int, y as int)
            } else {
                WHITE
            },
    {
        if self.contains(x, y) {
            proof {
                lemma_index(self.width as int, self.height as int, x as int, y as int);
            }
            let len = self.buf.len();
            assert(y * self.width + x < len);
            self.buf[y as usize * self.width as usize + x as usize]
        } else {
            WHITE
        }
    }

    /// Sets a pixel; points outside the canvas are ignored.
    pub fn set_px(&mut self, x: i32, y: i32, c: u32)
        requires
            old(self).wf(),
        ensures
            final(self).wf(),
            final(self).same_size(old(self)),
            forall|a: int, b: int|
                inside(old(self).width as int, old(self).height as int, a, b) ==> final(self).pixel(a, b)
                    == if a == x && b == y {
                    c
                } else {
                    old(self).pixel(a, b)
                },
    {
        if self.contains(x, y) {
            proof {
                lemma_index(self.width as int, self.height as int, x as int, y as int);
            }
            let len = self.buf.len();
            assert(y * self.width + x < len);
            let i = y as usize * self.width as usize + x as usize;
            self.buf.set(i, c);
            proof {
                assert forall|a: int, b: int|
                    inside(old(self).width as int, old(self).height as int, a, b) implies self.pixel(a, b)
                        == if a == x && b == y {
                        c
                    } else {
                        old(self).pixel(a, b)
                    } by {
                    lemma_index(self.width as int, self.height as int, a, b);
                    if b * self.width + a == y * self.width + x {
                        lemma_index_unique(self.width as int, a, b, x as int, y as int);
                    }
                }
            }
        }
    }

    /// Fills the whole canvas with one colour.
    pub fn clear(&mut self, c: u32)
        requires
            old(self).wf(),
        ensures
            final(self).wf(),
            final(self).same_size(old(self)),
            forall|k: int| 0 <= k < final(self).buf@.len() ==> final(self).buf@[k] == c,
    {
        let n = self.buf.len();
        let mut i: usize = 0;
        while i < n
            invariant
                self.wf(),
                self.same_size(old(self)),
                n == self.buf@.len(),
                i <= n,
                forall|k: int| 0 <= k < i ==> self.buf@[k] == c,
            decreases n - i,
        {
            self.buf.set(i, c);
            i = i + 1;
        }
    }

    /// A copy of the pixel buffer, for undo and preview.
    pub fn snapshot(&self) -> (s: Vec<u32>)
        ensures
            s@ == self.buf@,
    {
        let s = self.buf.clone();
        assert(s@ =~= self.buf@);
        s
    }

    /// Puts back a snapshot of the same size; one of another size is
    /// ignored.
    pub fn restore(&mut self, snap: &[u32])
        requires
            old(self).wf(),
        ensures
            final(self).wf(),
            final(self).same_size(old(self)),
            final(self).buf@ == if snap@.len() == old(self).buf@.len() {
                snap@
            } else {
                old(self).buf@
            },
    {
        if snap.len() == self.buf.len() {
            let n = snap.len();
            let mut i: usize = 0;
            while i < n
                invariant
                    self.wf(),
                    self.same_size(old(self)),
                    n == snap@.len(),
                    n == self.buf@.len(),
                    i <= n,
                    forall|k: int| 0 <= k < i ==> self.buf@[k] == snap@[k],
                decreases n - i,
            {
                self.buf.set(i, snap[i]);
                i = i + 1;
            }
            assert(self.buf@ =~= snap@);
        }
    }

    /// Resizes the canvas keeping its content in the top-left corner; new
    /// pixels are white. Sides below 1 become 1.
    pub fn resize_preserve(&mut self, width: i32, height: i32)
        requires
            old(self).wf(),
            (if width < 1 {
                1
            } else {
                width as int
            }) * (if height < 1 {
                1
            } else {
                height as int
            }) <= usize::MAX,
        ensures
            final(self).wf(),
            final(self).width == if width < 1 {
                1
            } else {
                width
            },
            final(self).height == if height < 1 {
                1
            } else {
                height
            },
            forall|x: int, y: int|
                inside(final(self).width as int, final(self).height as int, x, y) ==> final(self).pixel(x, y)
                    == if inside(old(self).width as int, old(self).height as int, x, y) {
                    old(self).pixel(x, y)
                } else {
                    WHITE
                },
    {
        let w = if width < 1 {
            1
        } else {
            width
        };
        let h = if height < 1 {
            1
        } else {
            height
        };
        if w == self.width && h == self.height {
            return;
        }
        let ow = self.width;
        let oh = self.height;
        let mut nb: Vec<u32> = Vec::new();
        let mut y: i32 = 0;
        while y < h
            invariant
                self.wf(),
                self.width == ow,
                self.height == oh,
                self.buf == old(self).buf,
                ow == old(self).width,
                oh == old(self).height,
                w >= 1,
                h >= 1,
                w * h <= usize::MAX,
                0 <= y <= h,
                nb@.len() == y * w,
                forall|k: int|
                    0 <= k < nb@.len() ==> #[trigger] nb@[k] == if inside(ow as int, oh as int, k % (w as int), k / (w as int)) {
                        old(self).pixel(k % (w as int), k / (w as int))
                    } else {
                        WHITE
                    },
            decreases h - y,
        {
            let mut x: i32 = 0;
            while x < w
                invariant
                    self.wf(),
                    self.width == ow,
                    self.height == oh,
                    self.buf == old(self).buf,
                    ow == old(self).width,
                    oh == old(self).height,
                    w >= 1,
                    h >= 1,
                    w * h <= usize::MAX,
                    0 <= y < h,
                    0 <= x <= w,
                    nb@.len() == y * w + x,
                    forall|k: int|
                        0 <= k < nb@.len() ==> #[trigger] nb@[k] == if inside(ow as int, oh as int, k % (w as int), k / (w as int)) {
                            old(self).pixel(k % (w as int), k / (w as int))
                        } else {
                            WHITE
                        },
                decreases w - x,
            {
                let v = self.px(x, y);
                proof {
                    vstd::arithmetic::div_mod::lemma_fundamental_div_mod_converse(
                        y * w + x,
                        w as int,
                        y as int,
                        x as int,
                    );
                }
                nb.push(v);
                x = x + 1;
            }
            y = y + 1;
            assert(y * w == (y - 1) * w + w) by (nonlinear_arith);
        }
        assert(h * w == w * h) by (nonlinear_arith);
        self.width = w;
        self.height = h;
        self.buf = nb;
        assert forall|x: int, y: int| inside(w as int, h as int, x, y) implies self.pixel(x, y) == if inside(
            ow as int,
            oh as int,
            x,
            y,
        ) {
            old(self).pixel(x, y)
        } else {
            WHITE
        } by {
            lemma_index(w as int, h as int, x, y);
            vstd::arithmetic::div_mod::lemma_fundamental_div_mod_converse(y * w + x, w as int, y, x);
        }
    }
}

/// The index of a pixel inside a `w`×`h` canvas is inside its buffer.
pub proof fn lemma_index(w: int, h: int, x: int, y: int)
    requires
        inside(w, h, x, y),
    ensures
        0 <= y * w + x < w * h,
        0 <= y * w,
{
    assert(y * w + x < w * h) by (nonlinear_arith)
        requires
            0 <= x < w,
            0 <= y < h,
    ;
    assert(0 <= y * w) by (nonlinear_arith)
        requires
            0 <= y,
            0 <= w,
    ;
}

/// Different pixels of a row-major buffer have different indices.
pub proof fn lemma_index_unique(w: int, a: int, b: int, x: int, y: int)
    requires
        0 <= a < w,
        0 <= x < w,
        0 <= b,
        0 <= y,
        b * w + a == y * w + x,
    ensures
        a == x && b == y,
{
    vstd::arithmetic::div_mod::lemma_fundamental_div_mod_converse(b * w + a, w, b, a);
    vstd::arithmetic::div_mod::lemma_fundamental_div_mod_converse(y * w + x, w, y, x);
}


/// The point `(x, y)` is covered by the disc of radius `r` at `(cx, cy)`.
pub open spec fn in_disc(cx: int, cy: int, r: int, x: int, y: int) -> bool {
    r >= 0 && (x - cx) * (x - cx) + (y - cy) * (y - cy) <= r * r
}

/// Disc points already painted when the scan is at row offset `ddy` and
/// column offset `ddx`.
spec fn disc_done(cx: int, cy: int, r: int, ddy: int, ddx: int, x: int, y: int) -> bool {
    let dx = x - cx;
    let dy = y - cy;
    &&& dx * dx + dy * dy <= r * r
    &&& -r <= dx <= r
    &&& -r <= dy
    &&& (dy < ddy || (dy == ddy && dx < ddx))
}

proof fn lemma_square_bound(a: int, r: int)
    requires
        r >= 0,
        a * a <= r * r,
    ensures
        -r <= a <= r,
{
    if a > r {
        assert(a * a > r * r) by (nonlinear_arith)
            requires
                a > r,
                r >= 0,
        ;
    }
    if a < -r {
        assert(a * a > r * r) by (nonlinear_arith)
            requires
                a < -r,
                r >= 0,
        ;
    }
}

impl Canvas {
    /// Sets a pixel given by wide coordinates; points outside are ignored.
    fn set_at(&mut self, x: i64, y: i64, c: u32)
        requires
            old(self).wf(),
        ensures
            final(self).wf(),
            final(self).same_size(old(self)),
            forall|a: int, b: int|
                inside(old(self).width as int, old(self).height as int, a, b) ==> final(self).pixel(a, b)
                    == if a == x && b == y {
                    c
                } else {
                    old(self).pixel(a, b)
                },
    {
        let n = self.buf.len();
        if x >= 0 && y >= 0 && x < self.width as i64 && y < self.height as i64 {
            proof {
                lemma_index(self.width as int, self.height as int, x as int, y as int);
            }
            let i = y as usize * self.width as usize + x as usize;
            self.buf.set(i, c);
            proof {
                assert forall|a: int, b: int|
                    inside(old(self).width as int, old(self).height as int, a, b) implies self.pixel(a, b)
                        == if a == x && b == y {
                        c
                    } else {
                        old(self).pixel(a, b)
                    } by {
                    lemma_index(self.width as int, self.height as int, a, b);
                    if b * self.width + a == y * self.width + x {
                        lemma_index_unique(self.width as int, a, b, x as int, y as int);
                    }
                }
            }
        }
    }

    /// A filled disc of radius `r` around `(cx, cy)` (wide coordinates).
    fn disc_at(&mut self, cx: i64, cy: i64, r: i64, c: u32)
        requires
            old(self).wf(),
            -0x1_0000_0000 <= cx <= 0x1_0000_0000,
            -0x1_0000_0000 <= cy <= 0x1_0000_0000,
            -0x8000_0000 <= r <= 0x8000_0000,
        ensures
            final(self).wf(),
            final(self).same_size(old(self)),
            forall|x: int, y: int|
                inside(old(self).width as int, old(self).height as int, x, y) ==> final(self).pixel(x, y)
                    == if in_disc(cx as int, cy as int, r as int, x, y) {
                    c
                } else {
                    old(self).pixel(x, y)
                },
    {
        let mut dy: i64 = -r;
        while dy <= r
            invariant
                self.wf(),
                self.same_size(old(self)),
                -0x1_0000_0000 <= cx <= 0x1_0000_0000,
                -0x1_0000_0000 <= cy <= 0x1_0000_0000,
                -0x8000_0000 <= r <= 0x8000_0000,
                -r <= dy <= r + 1 || r < 0,
                r < 0 ==> dy == -r,
                forall|x: int, y: int|
                    inside(old(self).width as int, old(self).height as int, x, y) ==> self.pixel(x, y)
                        == if disc_done(cx as int, cy as int, r as int, dy as int, -r as int, x, y) {
                        c
                    } else {
                        old(self).pixel(x, y)
                    },
            decreases r + 1 - dy,
        {
            let mut dx: i64 = -r;
            while dx <= r
                invariant
                    self.wf(),
                    self.same_size(old(self)),
                    -0x1_0000_0000 <= cx <= 0x1_0000_0000,
                    -0x1_0000_0000 <= cy <= 0x1_0000_0000,
                    -0x8000_0000 <= r <= 0x8000_0000,
                    -r <= dy <= r,
                    -r <= dx <= r + 1,
                    forall|x: int, y: int|
                        inside(old(self).width as int, old(self).height as int, x, y) ==> self.pixel(x, y)
                            == if disc_done(cx as int, cy as int, r as int, dy as int, dx as int, x, y) {
                            c
                        } else {
                            old(self).pixel(x, y)
                        },
                decreases r + 1 - dx,
            {
                let ghost before = *self;
                let wx: i128 = dx as i128;
                let wy: i128 = dy as i128;
                let wr: i128 = r as i128;
                assert(wx * wx <= 0x4000_0000_0000_0000) by (nonlinear_arith)
                    requires
                        -0x8000_0000 <= wx <= 0x8000_0000,
                ;
                assert(wy * wy <= 0x4000_0000_0000_0000) by (nonlinear_arith)
                    requires
                        -0x8000_0000 <= wy <= 0x8000_0000,
                ;
                assert(wr * wr <= 0x4000_0000_0000_0000) by (nonlinear_arith)
                    requires
                        -0x8000_0000 <= wr <= 0x8000_0000,
                ;
                assert(wx * wx >= 0 && wy * wy >= 0) by (nonlinear_arith);
                if wx * wx + wy * wy <= wr * wr {
                    self.set_at(cx + dx, cy + dy, c);
                }
                proof {
                    assert forall|x: int, y: int|
                        inside(old(self).width as int, old(self).height as int, x, y) implies self.pixel(x, y)
                            == if disc_done(cx as int, cy as int, r as int, dy as int, dx + 1, x, y) {
                            c
                        } else {
                            old(self).pixel(x, y)
                        } by {
                        assert(before.pixel(x, y) == if disc_done(cx as int, cy as int, r as int, dy as int, dx as int, x, y) {
                            c
                        } else {
                            old(self).pixel(x, y)
                        });
                    }
                }
                dx = dx + 1;
            }
            proof {
                assert forall|x: int, y: int|
                    inside(old(self).width as int, old(self).height as int, x, y) implies self.pixel(x, y)
                        == if disc_done(cx as int, cy as int, r as int, dy + 1, -r as int, x, y) {
                        c
                    } else {
                        old(self).pixel(x, y)
                    } by {
                    assert(disc_done(cx as int, cy as int, r as int, dy as int, dx as int, x, y)
                        == disc_done(cx as int, cy as int, r as int, dy + 1, -r as int, x, y));
                }
            }
            dy = dy + 1;
        }
        proof {
            assert forall|x: int, y: int|
                inside(old(self).width as int, old(self).height as int, x, y) implies self.pixel(x, y)
                    == if in_disc(cx as int, cy as int, r as int, x, y) {
                    c
                } else {
                    old(self).pixel(x, y)
                } by {
                if in_disc(cx as int, cy as int, r as int, x, y) {
                    assert((y - cy) * (y - cy) >= 0) by (nonlinear_arith);
                    assert((x - cx) * (x - cx) >= 0) by (nonlinear_arith);
                    lemma_square_bound(x - cx, r as int);
                    lemma_square_bound(y - cy, r as int);
                }
            }
        }
    }

    /// A filled disc (`r = 0` is a single pixel).
    pub fn disc(&mut self, cx: i32, cy: i32, r: i32, c: u32)
        requires
            old(self).wf(),
        ensures
            final(self).wf(),
            final(self).same_size(old(self)),
            forall|x: int, y: int|
                inside(old(self).width as int, old(self).height as int, x, y) ==> final(self).pixel(x, y)
                    == if in_disc(cx as int, cy as int, r as int, x, y) {
                    c
                } else {
                    old(self).pixel(x, y)
                },
    {
        self.disc_at(cx as i64, cy as i64, r as i64, c);
    }
}


/// One step of Bresenham's walk from `(x, y)` with error term `err`, for a
/// line with horizontal extent `dx`, vertical extent `ey` (both taken as
/// magnitudes) and step directions `sx`, `sy`.
pub open spec fn bres_next(x: int, y: int, err: int, dx: int, ey: int, sx: int, sy: int) -> (int, int, int) {
    let e2 = 2 * err;
    let (x2, err2) = if e2 >= -ey {
        (x + sx, err - ey)
    } else {
        (x, err)
    };
    if e2 <= dx {
        (x2, y + sy, err2 + dx)
    } else {
        (x2, y, err2)
    }
}

/// The points that Bresenham's walk visits from `(x, y)` until it stands on
/// `(x1, y1)`, taking at most `fuel` further steps.
pub open spec fn bres_trace(
    x: int,
    y: int,
    err: int,
    x1: int,
    y1: int,
    dx: int,
    ey: int,
    sx: int,
    sy: int,
    fuel: nat,
) -> Seq<(int, int)>
    decreases fuel,
{
    if (x == x1 && y == y1) || fuel == 0 {
        seq![(x, y)]
    } else {
        let n = bres_next(x, y, err, dx, ey, sx, sy);
        seq![(x, y)] + bres_trace(n.0, n.1, n.2, x1, y1, dx, ey, sx, sy, (fuel - 1) as nat)
    }
}

/// The absolute value.
pub open spec fn abs(a: int) -> int {
    if a < 0 {
        -a
    } else {
        a
    }
}

/// The centres that a line from `(x0, y0)` to `(x1, y1)` is drawn through,
/// in order.
pub open spec fn line_points(x0: int, y0: int, x1: int, y1: int) -> Seq<(int, int)> {
    let dx = abs(x1 - x0);
    let ey = abs(y1 - y0);
    let sx: int = if x0 < x1 {
        1
    } else {
        -1
    };
    let sy: int = if y0 < y1 {
        1
    } else {
        -1
    };
    bres_trace(x0, y0, dx - ey, x1, y1, dx, ey, sx, sy, (dx + ey) as nat)
}

/// `(x, y)` lies in the disc of radius `r` around one of the points `pts`.
pub open spec fn covered(pts: Seq<(int, int)>, r: int, x: int, y: int) -> bool {
    exists|i: int| 0 <= i < pts.len() && #[trigger] in_disc(pts[i].0, pts[i].1, r, x, y)
}

proof fn lemma_covered_push(pts: Seq<(int, int)>, q: (int, int), r: int, x: int, y: int)
    ensures
        covered(pts.push(q), r, x, y) == (covered(pts, r, x, y) || in_disc(q.0, q.1, r, x, y)),
{
    let s = pts.push(q);
    if covered(pts, r, x, y) {
        let i = choose|i: int| 0 <= i < pts.len() && #[trigger] in_disc(pts[i].0, pts[i].1, r, x, y);
        assert(s[i] == pts[i]);
        assert(in_disc(s[i].0, s[i].1, r, x, y));
    }
    if in_disc(q.0, q.1, r, x, y) {
        assert(s[pts.len() as int] == q);
        assert(in_disc(s[pts.len() as int].0, s[pts.len() as int].1, r, x, y));
    }
    if covered(s, r, x, y) {
        let i = choose|i: int| 0 <= i < s.len() && #[trigger] in_disc(s[i].0, s[i].1, r, x, y);
        if i < pts.len() {
            assert(s[i] == pts[i]);
            assert(in_disc(pts[i].0, pts[i].1, r, x, y));
        }
    }
}

/// When the walk has finished the horizontal run, it takes no further
/// horizontal step.
proof fn lemma_no_x_overshoot(dx: int, ey: int, ny: int)
    requires
        dx >= 0,
        0 <= ny < ey,
    ensures
        2 * (dx + dx * ny - ey - ey * dx) < -ey,
{
    assert(dx * ny <= dx * (ey - 1)) by (nonlinear_arith)
        requires
            dx >= 0,
            ny <= ey - 1,
    ;
    assert(dx * (ey - 1) == dx * ey - dx) by (nonlinear_arith);
    assert(ey * dx == dx * ey) by (nonlinear_arith);
}

/// When the walk has finished the vertical run, it takes no further
/// vertical step.
proof fn lemma_no_y_overshoot(dx: int, ey: int, nx: int)
    requires
        ey >= 0,
        0 <= nx < dx,
    ensures
        2 * (dx + dx * ey - ey - ey * nx) > dx,
{
    assert(ey * nx <= ey * (dx - 1)) by (nonlinear_arith)
        requires
            ey >= 0,
            nx <= dx - 1,
    ;
    assert(ey * (dx - 1) == ey * dx - ey) by (nonlinear_arith);
    assert(ey * dx == dx * ey) by (nonlinear_arith);
}

impl Canvas {
    /// A line of discs of radius `r` from `(x0, y0)` to `(x1, y1)` along
    /// Bresenham's walk.
    pub fn thick_line(&mut self, x0: i32, y0: i32, x1: i32, y1: i32, r: i32, c: u32)
        requires
            old(self).wf(),
        ensures
            final(self).wf(),
            final(self).same_size(old(self)),
            forall|x: int, y: int|
                inside(old(self).width as int, old(self).height as int, x, y) ==> final(self).pixel(x, y)
                    == if covered(line_points(x0 as int, y0 as int, x1 as int, y1 as int), r as int, x, y) {
                    c
                } else {
                    old(self).pixel(x, y)
                },
    {
        let ghost whole = line_points(x0 as int, y0 as int, x1 as int, y1 as int);
        let mut x: i64 = x0 as i64;
        let mut y: i64 = y0 as i64;
        let dx: i64 = if x1 >= x0 {
            x1 as i64 - x0 as i64
        } else {
            x0 as i64 - x1 as i64
        };
        let dy: i64 = if y1 >= y0 {
            y0 as i64 - y1 as i64
        } else {
            y1 as i64 - y0 as i64
        };
        let sx: i64 = if x0 < x1 {
            1
        } else {
            -1
        };
        let sy: i64 = if y0 < y1 {
            1
        } else {
            -1
        };
        let mut err: i64 = dx + dy;
        let ghost ey: int = -dy;
        let ghost mut nx: int = 0;
        let ghost mut ny: int = 0;
        let ghost mut fuel: nat = (dx - dy) as nat;
        let ghost mut done: Seq<(int, int)> = Seq::empty();
        proof {
            assert(done + whole == whole);
            assert(dx as int + dx * ny - ey - ey * nx == dx - ey) by (nonlinear_arith)
                requires
                    nx == 0,
                    ny == 0,
            ;
        }
        loop
            invariant_except_break
                self.wf(),
                self.same_size(old(self)),
                dx == abs(x1 - x0),
                ey == abs(y1 - y0),
                dy == -ey,
                sx == if x0 < x1 {
                    1int
                } else {
                    -1int
                },
                sy == if y0 < y1 {
                    1int
                } else {
                    -1int
                },
                0 <= nx <= dx,
                0 <= ny <= ey,
                x == if x0 < x1 {
                    x0 + nx
                } else {
                    x0 - nx
                },
                y == if y0 < y1 {
                    y0 + ny
                } else {
                    y0 - ny
                },
                err == dx + dx * ny - ey - ey * nx,
                -2 * ey <= err <= 2 * dx,
                fuel >= (dx - nx) + (ey - ny),
                done + bres_trace(x as int, y as int, err as int, x1 as int, y1 as int, dx as int, ey, sx as int, sy as int, fuel)
                    == whole,
                forall|px: int, py: int|
                    inside(old(self).width as int, old(self).height as int, px, py) ==> self.pixel(px, py)
                        == if covered(done, r as int, px, py) {
                        c
                    } else {
                        old(self).pixel(px, py)
                    },
            ensures
                self.wf(),
                self.same_size(old(self)),
                forall|px: int, py: int|
                    inside(old(self).width as int, old(self).height as int, px, py) ==> self.pixel(px, py)
                        == if covered(whole, r as int, px, py) {
                        c
                    } else {
                        old(self).pixel(px, py)
                    },
            decreases (dx - nx) + (ey - ny),
        {
            let ghost before = *self;
            let ghost rest = bres_trace(x as int, y as int, err as int, x1 as int, y1 as int, dx as int, ey, sx as int, sy as int, fuel);
            self.disc_at(x, y, r as i64, c);
            proof {
                assert forall|px: int, py: int|
                    inside(old(self).width as int, old(self).height as int, px, py) implies self.pixel(px, py)
                        == if covered(done.push((x as int, y as int)), r as int, px, py) {
                        c
                    } else {
                        old(self).pixel(px, py)
                    } by {
                    lemma_covered_push(done, (x as int, y as int), r as int, px, py);
                    assert(before.pixel(px, py) == if covered(done, r as int, px, py) {
                        c
                    } else {
                        old(self).pixel(px, py)
                    });
                }
                assert(rest[0] == (x as int, y as int));
                done = done.push((x as int, y as int));
            }
            if x == x1 as i64 && y == y1 as i64 {
                proof {
                    assert(rest == seq![(x as int, y as int)]);
                    assert(done =~= whole);
                }
                break;
            }
            proof {
                assert(fuel >= 1);
                assert(rest == seq![(x as int, y as int)] + bres_trace(
                    bres_next(x as int, y as int, err as int, dx as int, ey, sx as int, sy as int).0,
                    bres_next(x as int, y as int, err as int, dx as int, ey, sx as int, sy as int).1,
                    bres_next(x as int, y as int, err as int, dx as int, ey, sx as int, sy as int).2,
                    x1 as int, y1 as int, dx as int, ey, sx as int, sy as int, (fuel - 1) as nat));
                if nx == dx {
                    lemma_no_x_overshoot(dx as int, ey, ny);
                }
                if ny == ey {
                    lemma_no_y_overshoot(dx as int, ey, nx);
                }
            }
            let ghost nxt = bres_next(x as int, y as int, err as int, dx as int, ey, sx as int, sy as int);
            let e2 = 2 * err;
            if e2 >= dy {
                err = err + dy;
                x = x + sx;
                proof {
                    assert(ey * (nx + 1) == ey * nx + ey) by (nonlinear_arith);
                    nx = nx + 1;
                }
            }
            if e2 <= dx {
                err = err + dx;
                y = y + sy;
                proof {
                    assert(dx * (ny + 1) == dx * ny + dx) by (nonlinear_arith);
                    ny = ny + 1;
                }
            }
            proof {
                assert(nxt == (x as int, y as int, err as int));
                let old_done = done.drop_last();
                assert(done + bres_trace(x as int, y as int, err as int, x1 as int, y1 as int, dx as int, ey, sx as int, sy as int, (fuel - 1) as nat)
                    =~= old_done + rest);
                fuel = (fuel - 1) as nat;
            }
        }
    }
}


/// A disc of radius zero is its centre alone.
proof fn lemma_disc_zero(cx: int, cy: int, x: int, y: int)
    ensures
        in_disc(cx, cy, 0, x, y) == (x == cx && y == cy),
{
    assert((x - cx) * (x - cx) >= 0) by (nonlinear_arith);
    assert((y - cy) * (y - cy) >= 0) by (nonlinear_arith);
    if x != cx {
        assert((x - cx) * (x - cx) > 0) by (nonlinear_arith)
            requires
                x != cx,
        ;
    }
    if y != cy {
        assert((y - cy) * (y - cy) > 0) by (nonlinear_arith)
            requires
                y != cy,
        ;
    }
}

/// A rightward horizontal walk from `x` visits `x, x + 1, …, xb` on row `y`.
proof fn lemma_hline_trace(x: int, y: int, xb: int, dx: int, sy: int, fuel: nat)
    requires
        dx > 0,
        x <= xb,
        fuel >= xb - x,
    ensures
        bres_trace(x, y, dx, xb, y, dx, 0, 1, sy, fuel).len() == xb - x + 1,
        forall|i: int|
            0 <= i <= xb - x ==> #[trigger] bres_trace(x, y, dx, xb, y, dx, 0, 1, sy, fuel)[i] == (x + i, y),
    decreases fuel,
{
    let t = bres_trace(x, y, dx, xb, y, dx, 0, 1, sy, fuel);
    if x == xb {
    } else {
        assert(bres_next(x, y, dx, dx, 0, 1, sy) == (x + 1, y, dx));
        lemma_hline_trace(x + 1, y, xb, dx, sy, (fuel - 1) as nat);
        let rest = bres_trace(x + 1, y, dx, xb, y, dx, 0, 1, sy, (fuel - 1) as nat);
        assert(t == seq![(x, y)] + rest);
        assert forall|i: int| 0 <= i <= xb - x implies #[trigger] t[i] == (x + i, y) by {
            if i > 0 {
                assert(t[i] == rest[i - 1]);
            }
        }
    }
}

/// A horizontal line of radius zero from `xa` to `xb` (with `xa <= xb`) on
/// row `y` covers exactly the pixels between them on that row.
pub proof fn lemma_hline_covered(xa: int, xb: int, y: int, px: int, py: int)
    requires
        xa <= xb,
    ensures
        covered(line_points(xa, y, xb, y), 0, px, py) == (py == y && xa <= px <= xb),
{
    let pts = line_points(xa, y, xb, y);
    if xa == xb {
        assert(pts == seq![(xa, y)]);
    } else {
        assert(abs(y - y) == 0);
        assert(abs(xb - xa) == xb - xa);
        lemma_hline_trace(xa, y, xb, xb - xa, -1, (xb - xa) as nat);
    }
    assert(pts.len() == xb - xa + 1);
    assert(forall|i: int| 0 <= i <= xb - xa ==> #[trigger] pts[i] == (xa + i, y));
    if covered(pts, 0, px, py) {
        let i = choose|i: int| 0 <= i < pts.len() && #[trigger] in_disc(pts[i].0, pts[i].1, 0, px, py);
        assert(pts[i] == (xa + i, y));
        lemma_disc_zero(xa + i, y, px, py);
    }
    if py == y && xa <= px <= xb {
        let i = px - xa;
        assert(pts[i] == (px, y));
        lemma_disc_zero(px, y, px, py);
        assert(in_disc(pts[i].0, pts[i].1, 0, px, py));
    }
}

/// `(x, y)` is painted by the outline of the rectangle with corners
/// `(xa, ya)` and `(xb, yb)` drawn with discs of radius `r`.
pub open spec fn on_outline(xa: int, ya: int, xb: int, yb: int, r: int, x: int, y: int) -> bool {
    ||| covered(line_points(xa, ya, xb, ya), r, x, y)
    ||| covered(line_points(xa, yb, xb, yb), r, x, y)
    ||| covered(line_points(xa, ya, xa, yb), r, x, y)
    ||| covered(line_points(xb, ya, xb, yb), r, x, y)
}

/// The smaller of two numbers.
pub open spec fn min(a: int, b: int) -> int {
    if a <= b {
        a
    } else {
        b
    }
}

/// The larger of two numbers.
pub open spec fn max(a: int, b: int) -> int {
    if a >= b {
        a
    } else {
        b
    }
}

impl Canvas {
    /// A rectangle with corners `(x0, y0)` and `(x1, y1)`, in either order:
    /// filled, or outlined with discs of radius `r`.
    pub fn rect(&mut self, x0: i32, y0: i32, x1: i32, y1: i32, filled: bool, r: i32, c: u32)
        requires
            old(self).wf(),
        ensures
            final(self).wf(),
            final(self).same_size(old(self)),
            forall|x: int, y: int|
                inside(old(self).width as int, old(self).height as int, x, y) ==> final(self).pixel(x, y)
                    == if (if filled {
                    min(x0 as int, x1 as int) <= x <= max(x0 as int, x1 as int) && min(y0 as int, y1 as int) <= y
                        <= max(y0 as int, y1 as int)
                } else {
                    on_outline(
                        min(x0 as int, x1 as int),
                        min(y0 as int, y1 as int),
                        max(x0 as int, x1 as int),
                        max(y0 as int, y1 as int),
                        r as int,
                        x,
                        y,
                    )
                }) {
                    c
                } else {
                    old(self).pixel(x, y)
                },
    {
        let xa = if x0 <= x1 {
            x0
        } else {
            x1
        };
        let xb = if x0 >= x1 {
            x0
        } else {
            x1
        };
        let ya = if y0 <= y1 {
            y0
        } else {
            y1
        };
        let yb = if y0 >= y1 {
            y0
        } else {
            y1
        };
        if filled {
            let mut y: i32 = ya;
            let mut more = true;
            while more
                invariant
                    self.wf(),
                    self.same_size(old(self)),
                    xa <= xb,
                    ya <= y <= yb,
                    more ==> forall|px: int, py: int|
                        inside(old(self).width as int, old(self).height as int, px, py) ==> self.pixel(px, py)
                            == if xa <= px <= xb && ya <= py < y {
                            c
                        } else {
                            old(self).pixel(px, py)
                        },
                    !more ==> y == yb && forall|px: int, py: int|
                        inside(old(self).width as int, old(self).height as int, px, py) ==> self.pixel(px, py)
                            == if xa <= px <= xb && ya <= py <= yb {
                            c
                        } else {
                            old(self).pixel(px, py)
                        },
                decreases yb - y + (if more {
                    1int
                } else {
                    0int
                }),
            {
                let ghost before = *self;
                self.thick_line(xa, y, xb, y, 0, c);
                proof {
                    assert forall|px: int, py: int|
                        inside(old(self).width as int, old(self).height as int, px, py) implies self.pixel(px, py)
                            == if xa <= px <= xb && ya <= py <= y {
                            c
                        } else {
                            old(self).pixel(px, py)
                        } by {
                        lemma_hline_covered(xa as int, xb as int, y as int, px, py);
                        assert(before.pixel(px, py) == if xa <= px <= xb && ya <= py < y {
                            c
                        } else {
                            old(self).pixel(px, py)
                        });
                    }
                }
                if y == yb {
                    more = false;
                } else {
                    y = y + 1;
                }
            }
        } else {
            let ghost s0 = *self;
            self.thick_line(xa, ya, xb, ya, r, c);
            let ghost s1 = *self;
            self.thick_line(xa, yb, xb, yb, r, c);
            let ghost s2 = *self;
            self.thick_line(xa, ya, xa, yb, r, c);
            let ghost s3 = *self;
            self.thick_line(xb, ya, xb, yb, r, c);
            proof {
                assert forall|px: int, py: int|
                    inside(old(self).width as int, old(self).height as int, px, py) implies self.pixel(px, py)
                        == if on_outline(xa as int, ya as int, xb as int, yb as int, r as int, px, py) {
                        c
                    } else {
                        old(self).pixel(px, py)
                    } by {
                    assert(s1.pixel(px, py) == if covered(line_points(xa as int, ya as int, xb as int, ya as int), r as int, px, py) {
                        c
                    } else {
                        s0.pixel(px, py)
                    });
                }
            }
        }
    }
}


/// `a` and `b` are side by side: they differ by one in exactly one
/// coordinate.
pub open spec fn adjacent(a: (int, int), b: (int, int)) -> bool {
    ||| a.1 == b.1 && (a.0 - b.0 == 1 || b.0 - a.0 == 1)
    ||| a.0 == b.0 && (a.1 - b.1 == 1 || b.1 - a.1 == 1)
}

/// `path` is a walk through side-by-side pixels of `cv`, all inside and all
/// of colour `target`.
pub open spec fn fill_path(cv: Canvas, target: u32, path: Seq<(int, int)>) -> bool {
    &&& path.len() >= 1
    &&& forall|i: int|
        0 <= i < path.len() ==> inside(cv.width as int, cv.height as int, path[i].0, path[i].1)
            && cv.pixel(path[i].0, path[i].1) == target
    &&& forall|i: int| 0 <= i < path.len() - 1 ==> adjacent(#[trigger] path[i], path[i + 1])
}

/// `(x, y)` is reached from `(sx, sy)` through side-by-side pixels of the
/// colour of `(sx, sy)`: the region that a fill started there covers.
pub open spec fn fill_reaches(cv: Canvas, sx: int, sy: int, x: int, y: int) -> bool {
    exists|path: Seq<(int, int)>|
        #[trigger] fill_path(cv, cv.pixel(sx, sy), path) && path[0] == (sx, sy) && path.last() == (x, y)
}

/// The number of entries of `s` equal to `v`.
spec fn count_of(s: Seq<u32>, v: u32) -> nat
    decreases s.len(),
{
    if s.len() == 0 {
        0
    } else {
        count_of(s.drop_last(), v) + if s.last() == v {
            1nat
        } else {
            0nat
        }
    }
}

proof fn lemma_count_update(s: Seq<u32>, i: int, v: u32, x: u32)
    requires
        0 <= i < s.len(),
        s[i] == v,
        x != v,
    ensures
        count_of(s.update(i, x), v) + 1 == count_of(s, v),
    decreases s.len(),
{
    let t = s.update(i, x);
    if i == s.len() - 1 {
        assert(t.drop_last() =~= s.drop_last());
    } else {
        lemma_count_update(s.drop_last(), i, v, x);
        assert(t.drop_last() =~= s.drop_last().update(i, x));
    }
}

/// Pixel `(x, y)` had the fill's target colour and now has the new colour.
spec fn filled(o: Canvas, cur: Canvas, target: u32, c: u32, x: int, y: int) -> bool {
    &&& inside(o.width as int, o.height as int, x, y)
    &&& o.pixel(x, y) == target
    &&& cur.pixel(x, y) == c
}

/// `(x, y)` is waiting on the stack.
spec fn in_stack(st: Seq<(i32, i32)>, x: int, y: int) -> bool {
    exists|i: int| 0 <= i < st.len() && (#[trigger] st[i]).0 == x && st[i].1 == y
}

/// Neighbour `(x, y)` of a filled pixel is taken care of: it lies outside,
/// has another colour, is filled, or waits on the stack.
spec fn settled(o: Canvas, cur: Canvas, target: u32, c: u32, st: Seq<(i32, i32)>, x: int, y: int) -> bool {
    ||| !inside(o.width as int, o.height as int, x, y)
    ||| o.pixel(x, y) != target
    ||| filled(o, cur, target, c, x, y)
    ||| in_stack(st, x, y)
}

/// The pixel was filled from a neighbour, or is the start.
spec fn seeded(o: Canvas, cur: Canvas, target: u32, c: u32, sx: int, sy: int, x: int, y: int) -> bool {
    ||| (x == sx && y == sy)
    ||| filled(o, cur, target, c, x - 1, y)
    ||| filled(o, cur, target, c, x + 1, y)
    ||| filled(o, cur, target, c, x, y - 1)
    ||| filled(o, cur, target, c, x, y + 1)
}

proof fn lemma_in_stack_push(st: Seq<(i32, i32)>, e: (i32, i32), x: int, y: int)
    ensures
        in_stack(st.push(e), x, y) == (in_stack(st, x, y) || (e.0 == x && e.1 == y)),
{
    let t = st.push(e);
    if in_stack(st, x, y) {
        let i = choose|i: int| 0 <= i < st.len() && (#[trigger] st[i]).0 == x && st[i].1 == y;
        assert(t[i] == st[i]);
    }
    if e.0 == x && e.1 == y {
        assert(t[st.len() as int] == e);
    }
    if in_stack(t, x, y) {
        let i = choose|i: int| 0 <= i < t.len() && (#[trigger] t[i]).0 == x && t[i].1 == y;
        if i < st.len() {
            assert(t[i] == st[i]);
        }
    }
}

/// A fill path extended by a side-by-side pixel of the same colour is a
/// fill path.
proof fn lemma_path_push(cv: Canvas, target: u32, path: Seq<(int, int)>, q: (int, int))
    requires
        fill_path(cv, target, path),
        adjacent(path.last(), q),
        inside(cv.width as int, cv.height as int, q.0, q.1),
        cv.pixel(q.0, q.1) == target,
    ensures
        fill_path(cv, target, path.push(q)),
        path.push(q)[0] == path[0],
        path.push(q).last() == q,
{
    let t = path.push(q);
    assert forall|i: int| 0 <= i < t.len() - 1 implies adjacent(#[trigger] t[i], t[i + 1]) by {
        if i < path.len() - 1 {
            assert(t[i] == path[i] && t[i + 1] == path[i + 1]);
        } else {
            assert(t[i] == path.last());
        }
    }
}

/// Every pixel of a fill path from a filled start is filled, once the
/// filled pixels are closed under side-by-side pixels of the target colour.
proof fn lemma_path_filled(o: Canvas, cur: Canvas, target: u32, c: u32, path: Seq<(int, int)>, k: int)
    requires
        fill_path(o, target, path),
        0 <= k < path.len(),
        filled(o, cur, target, c, path[0].0, path[0].1),
        forall|px: int, py: int|
            #[trigger] filled(o, cur, target, c, px, py) ==> {
                &&& settled(o, cur, target, c, Seq::empty(), px + 1, py)
                &&& settled(o, cur, target, c, Seq::empty(), px - 1, py)
                &&& settled(o, cur, target, c, Seq::empty(), px, py + 1)
                &&& settled(o, cur, target, c, Seq::empty(), px, py - 1)
            },
    ensures
        filled(o, cur, target, c, path[k].0, path[k].1),
    decreases k,
{
    if k > 0 {
        lemma_path_filled(o, cur, target, c, path, k - 1);
        let p = path[k - 1];
        let q = path[k];
        assert(adjacent(path[k - 1], path[k - 1 + 1]));
        assert(filled(o, cur, target, c, p.0, p.1));
        assert(!in_stack(Seq::<(i32, i32)>::empty(), q.0, q.1));
    }
}


/// The side-by-side pixels of `(x, y)` inside a `w`×`h` canvas, in the
/// order right, left, below, above.
spec fn nbrs(w: i32, h: i32, x: i32, y: i32) -> Seq<(i32, i32)> {
    (if x + 1 < w {
        seq![((x + 1) as i32, y)]
    } else {
        Seq::empty()
    }) + (if x > 0 {
        seq![((x - 1) as i32, y)]
    } else {
        Seq::empty()
    }) + (if y + 1 < h {
        seq![(x, (y + 1) as i32)]
    } else {
        Seq::empty()
    }) + (if y > 0 {
        seq![(x, (y - 1) as i32)]
    } else {
        Seq::empty()
    })
}

proof fn lemma_in_stack_concat(st: Seq<(i32, i32)>, ns: Seq<(i32, i32)>, a: int, b: int)
    ensures
        in_stack(st + ns, a, b) == (in_stack(st, a, b) || in_stack(ns, a, b)),
{
    let t = st + ns;
    if in_stack(st, a, b) {
        let i = choose|i: int| 0 <= i < st.len() && (#[trigger] st[i]).0 == a && st[i].1 == b;
        assert(t[i] == st[i]);
    }
    if in_stack(ns, a, b) {
        let i = choose|i: int| 0 <= i < ns.len() && (#[trigger] ns[i]).0 == a && ns[i].1 == b;
        assert(t[st.len() + i] == ns[i]);
    }
    if in_stack(t, a, b) {
        let i = choose|i: int| 0 <= i < t.len() && (#[trigger] t[i]).0 == a && t[i].1 == b;
        if i < st.len() {
            assert(t[i] == st[i]);
        } else {
            assert(t[i] == ns[i - st.len()]);
        }
    }
}

/// Every side-by-side pixel of `(x, y)` inside the canvas is listed, and
/// every listed pixel is inside and side by side with `(x, y)`.
proof fn lemma_nbrs(w: i32, h: i32, x: i32, y: i32)
    requires
        inside(w as int, h as int, x as int, y as int),
    ensures
        forall|i: int|
            0 <= i < nbrs(w, h, x, y).len() ==> inside(w as int, h as int, (#[trigger] nbrs(w, h, x, y)[i]).0 as int, nbrs(w, h, x, y)[i].1 as int)
                && adjacent((x as int, y as int), (nbrs(w, h, x, y)[i].0 as int, nbrs(w, h, x, y)[i].1 as int)),
        inside(w as int, h as int, x + 1, y as int) ==> in_stack(nbrs(w, h, x, y), x + 1, y as int),
        inside(w as int, h as int, x - 1, y as int) ==> in_stack(nbrs(w, h, x, y), x - 1, y as int),
        inside(w as int, h as int, x as int, y + 1) ==> in_stack(nbrs(w, h, x, y), x as int, y + 1),
        inside(w as int, h as int, x as int, y - 1) ==> in_stack(nbrs(w, h, x, y), x as int, y - 1),
{
    let a: Seq<(i32, i32)> = if x + 1 < w {
        seq![((x + 1) as i32, y)]
    } else {
        Seq::empty()
    };
    let b: Seq<(i32, i32)> = if x > 0 {
        seq![((x - 1) as i32, y)]
    } else {
        Seq::empty()
    };
    let cc: Seq<(i32, i32)> = if y + 1 < h {
        seq![(x, (y + 1) as i32)]
    } else {
        Seq::empty()
    };
    let d: Seq<(i32, i32)> = if y > 0 {
        seq![(x, (y - 1) as i32)]
    } else {
        Seq::empty()
    };
    let n = nbrs(w, h, x, y);
    assert(n == a + b + cc + d);
    assert forall|i: int| 0 <= i < n.len() implies inside(w as int, h as int, (#[trigger] n[i]).0 as int, n[i].1 as int)
        && adjacent((x as int, y as int), (n[i].0 as int, n[i].1 as int)) by {
        if i < a.len() {
            assert(n[i] == a[i]);
        } else if i < a.len() + b.len() {
            assert(n[i] == b[i - a.len()]);
        } else if i < a.len() + b.len() + cc.len() {
            assert(n[i] == cc[i - a.len() - b.len()]);
        } else {
            assert(n[i] == d[i - a.len() - b.len() - cc.len()]);
        }
    }
    if x + 1 < w {
        assert(n[0] == a[0]);
    }
    if x > 0 {
        assert(n[a.len() as int] == b[0]);
    }
    if y + 1 < h {
        assert(n[(a.len() + b.len()) as int] == cc[0]);
    }
    if y > 0 {
        assert(n[(a.len() + b.len() + cc.len()) as int] == d[0]);
    }
}

/// What holds at the top of each round of the fill: every pixel has its old
/// colour or went from `target` to `c`; every filled pixel is reached from
/// the start; every waiting pixel is inside and is the start or touches a
/// filled pixel; every neighbour of a filled pixel is settled; and the start
/// is filled or waits.
#[verifier::opaque]
spec fn fill_inv(o: Canvas, cur: Canvas, target: u32, c: u32, sx: int, sy: int, st: Seq<(i32, i32)>) -> bool {
    &&& forall|px: int, py: int|
        inside(o.width as int, o.height as int, px, py) ==> #[trigger] cur.pixel(px, py) == o.pixel(px, py) || (o.pixel(
            px,
            py,
        ) == target && cur.pixel(px, py) == c)
    &&& forall|px: int, py: int| #[trigger] filled(o, cur, target, c, px, py) ==> fill_reaches(o, sx, sy, px, py)
    &&& forall|i: int|
        0 <= i < st.len() ==> inside(o.width as int, o.height as int, (#[trigger] st[i]).0 as int, st[i].1 as int)
            && seeded(o, cur, target, c, sx, sy, st[i].0 as int, st[i].1 as int)
    &&& forall|px: int, py: int|
        #[trigger] filled(o, cur, target, c, px, py) ==> {
            &&& settled(o, cur, target, c, st, px + 1, py)
            &&& settled(o, cur, target, c, st, px - 1, py)
            &&& settled(o, cur, target, c, st, px, py + 1)
            &&& settled(o, cur, target, c, st, px, py - 1)
        }
    &&& filled(o, cur, target, c, sx, sy) || in_stack(st, sx, sy)
}

/// The fixed facts of a fill: canvases of one size, a start inside whose
/// colour is `target`, and a new colour that differs from it.
spec fn fill_ctx(o: Canvas, cur: Canvas, target: u32, c: u32, sx: int, sy: int) -> bool {
    &&& o.wf()
    &&& cur.wf()
    &&& cur.same_size(&o)
    &&& target != c
    &&& inside(o.width as int, o.height as int, sx, sy)
    &&& o.pixel(sx, sy) == target
}

proof fn lemma_fill_init(o: Canvas, target: u32, c: u32, sx: i32, sy: i32)
    requires
        fill_ctx(o, o, target, c, sx as int, sy as int),
    ensures
        fill_inv(o, o, target, c, sx as int, sy as int, seq![(sx, sy)]),
{
    reveal(fill_inv);
    let st = seq![(sx, sy)];
    assert(st[0] == (sx, sy));
    assert(in_stack(st, sx as int, sy as int));
}

proof fn lemma_fill_discard(o: Canvas, cur: Canvas, target: u32, c: u32, sx: int, sy: int, st: Seq<(i32, i32)>, q: (i32, i32))
    requires
        fill_ctx(o, cur, target, c, sx, sy),
        fill_inv(o, cur, target, c, sx, sy, st.push(q)),
        !(inside(o.width as int, o.height as int, q.0 as int, q.1 as int) && cur.pixel(q.0 as int, q.1 as int) == target),
    ensures
        fill_inv(o, cur, target, c, sx, sy, st),
{
    reveal(fill_inv);
    let t = st.push(q);
    assert(t[st.len() as int] == q);
    assert(inside(o.width as int, o.height as int, q.0 as int, q.1 as int));
    assert(cur.pixel(q.0 as int, q.1 as int) == o.pixel(q.0 as int, q.1 as int) || (o.pixel(q.0 as int, q.1 as int)
        == target && cur.pixel(q.0 as int, q.1 as int) == c));
    assert forall|i: int| 0 <= i < st.len() implies inside(o.width as int, o.height as int, (#[trigger] st[i]).0 as int, st[i].1 as int)
        && seeded(o, cur, target, c, sx, sy, st[i].0 as int, st[i].1 as int) by {
        assert(t[i] == st[i]);
    }
    assert forall|a: int, b: int| #[trigger] settled(o, cur, target, c, t, a, b) implies settled(o, cur, target, c, st, a, b) by {
        lemma_in_stack_push(st, q, a, b);
    }
    lemma_in_stack_push(st, q, sx, sy);
}

proof fn lemma_fill_step(
    o: Canvas,
    cur0: Canvas,
    cur1: Canvas,
    target: u32,
    c: u32,
    sx: int,
    sy: int,
    st: Seq<(i32, i32)>,
    q: (i32, i32),
)
    requires
        fill_ctx(o, cur0, target, c, sx, sy),
        fill_ctx(o, cur1, target, c, sx, sy),
        fill_inv(o, cur0, target, c, sx, sy, st.push(q)),
        inside(o.width as int, o.height as int, q.0 as int, q.1 as int),
        cur0.pixel(q.0 as int, q.1 as int) == target,
        forall|a: int, b: int|
            inside(o.width as int, o.height as int, a, b) ==> #[trigger] cur1.pixel(a, b) == if a == q.0 && b == q.1 {
                c
            } else {
                cur0.pixel(a, b)
            },
    ensures
        fill_inv(o, cur1, target, c, sx, sy, st + nbrs(o.width, o.height, q.0, q.1)),
{
    reveal(fill_inv);
    let w = o.width;
    let h = o.height;
    let x = q.0 as int;
    let y = q.1 as int;
    let t = st.push(q);
    let ns = nbrs(w, h, q.0, q.1);
    let st2 = st + ns;
    assert(t[st.len() as int] == q);
    lemma_nbrs(w, h, q.0, q.1);
    assert(cur0.pixel(x, y) == o.pixel(x, y) || (o.pixel(x, y) == target && cur0.pixel(x, y) == c));
    assert(o.pixel(x, y) == target);
    assert(filled(o, cur1, target, c, x, y));
    // Filled pixels only grow, by `q`.
    assert forall|a: int, b: int| #[trigger] filled(o, cur0, target, c, a, b) implies filled(o, cur1, target, c, a, b) by {
    }
    assert forall|a: int, b: int| #[trigger] filled(o, cur1, target, c, a, b) implies filled(o, cur0, target, c, a, b) || (
    a == x && b == y) by {
    }
    // Colours.
    assert forall|px: int, py: int| inside(w as int, h as int, px, py) implies #[trigger] cur1.pixel(px, py) == o.pixel(
        px,
        py,
    ) || (o.pixel(px, py) == target && cur1.pixel(px, py) == c) by {
        assert(cur0.pixel(px, py) == o.pixel(px, py) || (o.pixel(px, py) == target && cur0.pixel(px, py) == c));
    }
    // The new pixel is reached from the start.
    assert(seeded(o, cur0, target, c, sx, sy, x, y));
    if x == sx && y == sy {
        let path = seq![(sx, sy)];
        assert(fill_path(o, target, path));
        assert(fill_reaches(o, sx, sy, x, y));
    } else {
        let nb: (int, int) = if filled(o, cur0, target, c, x - 1, y) {
            (x - 1, y)
        } else if filled(o, cur0, target, c, x + 1, y) {
            (x + 1, y)
        } else if filled(o, cur0, target, c, x, y - 1) {
            (x, y - 1)
        } else {
            (x, y + 1)
        };
        assert(filled(o, cur0, target, c, nb.0, nb.1));
        assert(fill_reaches(o, sx, sy, nb.0, nb.1));
        let path = choose|path: Seq<(int, int)>|
            #[trigger] fill_path(o, o.pixel(sx, sy), path) && path[0] == (sx, sy) && path.last() == nb;
        lemma_path_push(o, target, path, (x, y));
        assert(fill_reaches(o, sx, sy, x, y));
    }
    assert forall|px: int, py: int| #[trigger] filled(o, cur1, target, c, px, py) implies fill_reaches(o, sx, sy, px, py) by {
        if !(px == x && py == y) {
            assert(filled(o, cur0, target, c, px, py));
        }
    }
    // Waiting pixels.
    assert forall|i: int| 0 <= i < st2.len() implies inside(w as int, h as int, (#[trigger] st2[i]).0 as int, st2[i].1 as int)
        && seeded(o, cur1, target, c, sx, sy, st2[i].0 as int, st2[i].1 as int) by {
        if i < st.len() {
            assert(st2[i] == st[i]);
            assert(t[i] == st[i]);
            assert(seeded(o, cur0, target, c, sx, sy, st[i].0 as int, st[i].1 as int));
        } else {
            assert(st2[i] == ns[i - st.len()]);
            assert(adjacent((x, y), (ns[i - st.len()].0 as int, ns[i - st.len()].1 as int)));
        }
    }
    // Neighbours of filled pixels.
    assert forall|a: int, b: int| #[trigger] settled(o, cur0, target, c, t, a, b) implies settled(o, cur1, target, c, st2, a, b) by {
        lemma_in_stack_push(st, q, a, b);
        lemma_in_stack_concat(st, ns, a, b);
        if filled(o, cur0, target, c, a, b) {
            assert(filled(o, cur1, target, c, a, b));
        }
    }
    assert forall|px: int, py: int| #[trigger] filled(o, cur1, target, c, px, py) implies {
        &&& settled(o, cur1, target, c, st2, px + 1, py)
        &&& settled(o, cur1, target, c, st2, px - 1, py)
        &&& settled(o, cur1, target, c, st2, px, py + 1)
        &&& settled(o, cur1, target, c, st2, px, py - 1)
    } by {
        if px == x && py == y {
            lemma_in_stack_concat(st, ns, px + 1, py);
            lemma_in_stack_concat(st, ns, px - 1, py);
            lemma_in_stack_concat(st, ns, px, py + 1);
            lemma_in_stack_concat(st, ns, px, py - 1);
        } else {
            assert(filled(o, cur0, target, c, px, py));
            assert(settled(o, cur0, target, c, t, px + 1, py));
            assert(settled(o, cur0, target, c, t, px - 1, py));
            assert(settled(o, cur0, target, c, t, px, py + 1));
            assert(settled(o, cur0, target, c, t, px, py - 1));
        }
    }
    // The start.
    lemma_in_stack_push(st, q, sx, sy);
    lemma_in_stack_concat(st, ns, sx, sy);
}

proof fn lemma_fill_done(o: Canvas, cur: Canvas, target: u32, c: u32, sx: int, sy: int)
    requires
        fill_ctx(o, cur, target, c, sx, sy),
        fill_inv(o, cur, target, c, sx, sy, Seq::empty()),
    ensures
        forall|px: int, py: int|
            inside(o.width as int, o.height as int, px, py) ==> cur.pixel(px, py) == if fill_reaches(o, sx, sy, px, py) {
                c
            } else {
                o.pixel(px, py)
            },
{
    reveal(fill_inv);
    assert(!in_stack(Seq::<(i32, i32)>::empty(), sx, sy));
    assert forall|px: int, py: int|
        inside(o.width as int, o.height as int, px, py) implies cur.pixel(px, py) == if fill_reaches(o, sx, sy, px, py) {
            c
        } else {
            o.pixel(px, py)
        } by {
        if fill_reaches(o, sx, sy, px, py) {
            let path = choose|path: Seq<(int, int)>|
                #[trigger] fill_path(o, o.pixel(sx, sy), path) && path[0] == (sx, sy) && path.last() == (px, py);
            lemma_path_filled(o, cur, target, c, path, path.len() - 1);
        } else {
            assert(!filled(o, cur, target, c, px, py));
            assert(cur.pixel(px, py) == o.pixel(px, py) || (o.pixel(px, py) == target && cur.pixel(px, py) == c));
        }
    }
}

impl Canvas {
    /// Fills the region of side-by-side pixels that share the colour of
    /// `(sx, sy)` with `c`. Nothing happens when the start lies outside or
    /// already has colour `c`.
    pub fn flood_fill(&mut self, sx: i32, sy: i32, c: u32)
        requires
            old(self).wf(),
        ensures
            final(self).wf(),
            final(self).same_size(old(self)),
            forall|x: int, y: int|
                inside(old(self).width as int, old(self).height as int, x, y) ==> final(self).pixel(x, y)
                    == if inside(old(self).width as int, old(self).height as int, sx as int, sy as int)
                    && old(self).pixel(sx as int, sy as int) != c && fill_reaches(
                    *old(self),
                    sx as int,
                    sy as int,
                    x,
                    y,
                ) {
                    c
                } else {
                    old(self).pixel(x, y)
                },
    {
        if !self.contains(sx, sy) {
            return;
        }
        let target = self.px(sx, sy);
        if target == c {
            return;
        }
        let ghost o = *self;
        let w = self.width;
        let h = self.height;
        let mut stack: Vec<(i32, i32)> = Vec::new();
        stack.push((sx, sy));
        proof {
            assert(stack@ =~= seq![(sx, sy)]);
            lemma_fill_init(o, target, c, sx, sy);
        }
        while stack.len() > 0
            invariant
                o == *old(self),
                w == o.width,
                h == o.height,
                fill_ctx(o, *self, target, c, sx as int, sy as int),
                fill_inv(o, *self, target, c, sx as int, sy as int, stack@),
            decreases count_of(self.buf@, target), stack@.len(),
        {
            let ghost cur0 = *self;
            let ghost st0 = stack@;
            let q = stack.pop().unwrap();
            let x = q.0;
            let y = q.1;
            proof {
                assert(st0 =~= stack@.push(q));
            }
            if self.contains(x, y) && self.px(x, y) == target {
                let n = self.buf.len();
                proof {
                    lemma_index(w as int, h as int, x as int, y as int);
                }
                let i = y as usize * w as usize + x as usize;
                self.buf.set(i, c);
                proof {
                    lemma_count_update(cur0.buf@, i as int, target, c);
                    assert forall|a: int, b: int| inside(w as int, h as int, a, b) implies #[trigger] self.pixel(a, b)
                        == if a == x && b == y {
                        c
                    } else {
                        cur0.pixel(a, b)
                    } by {
                        lemma_index(w as int, h as int, a, b);
                        if b * w + a == y * w + x {
                            lemma_index_unique(w as int, a, b, x as int, y as int);
                        }
                    }
                    lemma_fill_step(o, cur0, *self, target, c, sx as int, sy as int, stack@, q);
                }
                let ghost st1 = stack@;
                if x + 1 < w {
                    stack.push((x + 1, y));
                }
                let ghost st2 = stack@;
                if x > 0 {
                    stack.push((x - 1, y));
                }
                let ghost st3 = stack@;
                if y + 1 < h {
                    stack.push((x, y + 1));
                }
                let ghost st4 = stack@;
                if y > 0 {
                    stack.push((x, y - 1));
                }
                proof {
                    assert(stack@ =~= st1 + nbrs(w, h, x, y));
                }
            } else {
                proof {
                    lemma_fill_discard(o, *self, target, c, sx as int, sy as int, stack@, q);
                }
            }
        }
        proof {
            assert(stack@ =~= Seq::<(i32, i32)>::empty());
            lemma_fill_done(o, *self, target, c, sx as int, sy as int);
        }
    }
}


/// The three bytes a pixel is written out as: the top byte first, as
/// `0x00BBGGRR` gives them.
pub open spec fn out_bytes(c: u32) -> Seq<u8> {
    seq![(c >> 16) as u8, (c >> 8) as u8, c as u8]
}

/// The canvas's pixels as three bytes each, row by row.
pub open spec fn canvas_rgb(buf: Seq<u32>) -> Seq<u8> {
    Seq::new(buf.len() * 3, |j: int| out_bytes(buf[j / 3])[j % 3])
}

/// A decoded picture the canvas can take: not empty, its sides fit an
/// `i32`, and it holds exactly three bytes a pixel.
pub open spec fn canvas_image_fits(t: (u32, u32, Seq<u8>)) -> bool {
    1 <= t.0 <= i32::MAX && 1 <= t.1 <= i32::MAX && whole_image(t.0, t.1, 3, t.2)
}

impl Canvas {
    /// Takes over a `w`×`h` image given as RGB8 bytes, row by row.
    pub fn load_rgb(&mut self, w: i32, h: i32, bytes: &[u8])
        requires
            w >= 1,
            h >= 1,
            w * h * 3 <= usize::MAX,
            bytes@.len() == w * h * 3,
        ensures
            final(self).wf(),
            final(self).width == w,
            final(self).height == h,
            forall|x: int, y: int|
                inside(w as int, h as int, x, y) ==> #[trigger] final(self).pixel(x, y) == spec_rgb(
                    bytes@[(y * w + x) * 3],
                    bytes@[(y * w + x) * 3 + 1],
                    bytes@[(y * w + x) * 3 + 2],
                ),
    {
        let n = w as usize * h as usize;
        let mut buf: Vec<u32> = Vec::new();
        let mut i: usize = 0;
        while i < n
            invariant
                n == w * h,
                n * 3 <= usize::MAX,
                bytes@.len() == n * 3,
                i <= n,
                buf@.len() == i,
                forall|k: int| 0 <= k < i ==> #[trigger] buf@[k] == spec_rgb(bytes@[k * 3], bytes@[k * 3 + 1], bytes@[k * 3 + 2]),
            decreases n - i,
        {
            buf.push(rgb(bytes[i * 3], bytes[i * 3 + 1], bytes[i * 3 + 2]));
            i = i + 1;
        }
        self.width = w;
        self.height = h;
        self.buf = buf;
        assert forall|x: int, y: int| inside(w as int, h as int, x, y) implies #[trigger] self.pixel(x, y) == spec_rgb(
            bytes@[(y * w + x) * 3],
            bytes@[(y * w + x) * 3 + 1],
            bytes@[(y * w + x) * 3 + 2],
        ) by {
            lemma_index(w as int, h as int, x, y);
        }
    }

    /// Loads the flat image file `path`, whose bytes are `bytes`: the
    /// `image` crate decodes it as RGB8 in the format that the extension
    /// names (`rgb_of_image`), and the canvas takes it over as `load_rgb`
    /// does. A file that does not decode, an empty picture, or one whose
    /// sides do not fit an `i32` or whose bytes do not fit in memory is
    /// refused, and the canvas stays as it was.
    pub fn load_image(&mut self, path: &str, bytes: &[u8]) -> (r: Result<(), String>)
        ensures
            r is Ok <==> (rgb_of_image(path@, bytes@) matches Some(t) && canvas_image_fits(t)),
            r is Ok ==> ({
                let t = rgb_of_image(path@, bytes@)->Some_0;
                &&& final(self).wf()
                &&& final(self).width == t.0
                &&& final(self).height == t.1
                &&& forall|x: int, y: int|
                    inside(t.0 as int, t.1 as int, x, y) ==> #[trigger] final(self).pixel(x, y) == spec_rgb(
                        t.2[(y * t.0 + x) * 3],
                        t.2[(y * t.0 + x) * 3 + 1],
                        t.2[(y * t.0 + x) * 3 + 2],
                    )
            }),
            r is Err ==> *final(self) == *old(self),
            (rgb_of_image(path@, bytes@) matches Some(t) && (t.0 == 0 || t.1 == 0)) ==> (r matches Err(m) && m@
                == "пустое изображение"@),
    {
        let (w, h, px) = match decode_image_rgb(path, bytes) {
            Ok(t) => t,
            Err(e) => {
                return Err(image_error_text(e));
            },
        };
        if w == 0 || h == 0 {
            return Err("пустое изображение".to_owned());
        }
        if w > i32::MAX as u32 || h > i32::MAX as u32 || !is_whole_image(w, h, 3, &px) {
            return Err("изображение слишком велико".to_owned());
        }
        self.load_rgb(w as i32, h as i32, px.as_slice());
        Ok(())
    }

    /// The pixels as three bytes each, row by row (see `out_bytes`).
    pub fn rgb_bytes(&self) -> (r: Vec<u8>)
        requires
            self.wf(),
        ensures
            r@.len() == self.buf@.len() * 3,
            forall|k: int|
                0 <= k < self.buf@.len() ==> #[trigger] r@.subrange(k * 3, k * 3 + 3) == out_bytes(self.buf@[k]),
            r@ == canvas_rgb(self.buf@),
    {
        let n = self.buf.len();
        let mut r: Vec<u8> = Vec::new();
        let mut i: usize = 0;
        while i < n
            invariant
                n == self.buf@.len(),
                i <= n,
                r@.len() == i * 3,
                forall|k: int| 0 <= k < i ==> #[trigger] r@.subrange(k * 3, k * 3 + 3) == out_bytes(self.buf@[k]),
            decreases n - i,
        {
            let c = self.buf[i];
            let ghost r0 = r@;
            r.push((c >> 16) as u8);
            r.push((c >> 8) as u8);
            r.push(c as u8);
            assert(r@.subrange(i * 3, i * 3 + 3) =~= out_bytes(c));
            assert forall|k: int| 0 <= k < i implies #[trigger] r@.subrange(k * 3, k * 3 + 3) == out_bytes(self.buf@[k]) by {
                assert(r@.subrange(k * 3, k * 3 + 3) =~= r0.subrange(k * 3, k * 3 + 3));
            }
            i = i + 1;
        }
        assert forall|j: int| 0 <= j < r@.len() implies #[trigger] r@[j] == canvas_rgb(self.buf@)[j] by {
            let k = j / 3;
            assert(r@.subrange(k * 3, k * 3 + 3) == out_bytes(self.buf@[k]));
            assert(r@.subrange(k * 3, k * 3 + 3)[j - k * 3] == r@[j]);
        }
        assert(r@ =~= canvas_rgb(self.buf@));
        r
    }

    /// The file bytes of the canvas in the format that the extension of
    /// `path` names (`image_of_rgb` of its RGB bytes): a PNG for `.png`, and
    /// so on. The encoder's own failures are passed on in words.
    pub fn image_bytes(&self, path: &str) -> (r: Result<Vec<u8>, String>)
        requires
            self.wf(),
        ensures
            r is Ok <==> image_of_rgb(path@, self.width as u32, self.height as u32, canvas_rgb(self.buf@)) is Some,
            r matches Ok(v) ==> image_of_rgb(path@, self.width as u32, self.height as u32, canvas_rgb(self.buf@))
                == Some(v@),
    {
        let bytes = self.rgb_bytes();
        match encode_image_rgb(path, self.width as u32, self.height as u32, bytes.as_slice()) {
            Ok(v) => Ok(v),
            Err(e) => Err(image_error_text(e)),
        }
    }
}
} // verus!
