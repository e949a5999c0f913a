//! Growing a region over a grid: the cells reached from a start through
//! side-by-side accepted cells. The magic wand and the fill with tolerance
//! take their regions from here.
use crate::canvas::adjacent;
use vstd::prelude::*;

verus! {

/// Cell `(x, y)` lies in the `w`×`h` grid and is accepted.
pub open spec fn cell_ok(acc: Seq<bool>, w: int, h: int, x: int, y: int) -> bool {
    0 <= x < w && 0 <= y < h && acc[y * w + x]
}

/// `path` walks through side-by-side accepted cells.
pub open spec fn region_path(acc: Seq<bool>, w: int, h: int, path: Seq<(int, int)>) -> bool {
    &&& path.len() >= 1
    &&& forall|i: int| 0 <= i < path.len() ==> cell_ok(acc, w, h, #[trigger] path[i].0, path[i].1)
    &&& forall|i: int| 0 <= i < path.len() - 1 ==> adjacent(#[trigger] path[i], path[i + 1])
}

/// `(x, y)` is reached from `(sx, sy)` through side-by-side accepted cells.
pub open spec fn in_region(acc: Seq<bool>, w: int, h: int, sx: int, sy: int, x: int, y: int) -> bool {
    exists|path: Seq<(int, int)>| #[trigger] region_path(acc, w, h, path) && path[0] == (sx, sy) && path.last() == (x, y)
}

/// The number of cells not yet in the region.
spec fn count_false(s: Seq<bool>) -> nat
    decreases s.len(),
{
    if s.len() == 0 {
        0
    } else {
        count_false(s.drop_last()) + if s.last() {
            0nat
        } else {
            1nat
        }
    }
}

proof fn lemma_count_false_update(s: Seq<bool>, i: int)
    requires
        0 <= i < s.len(),
        !s[i],
    ensures
        count_false(s.update(i, true)) + 1 == count_false(s),
    decreases s.len(),
{
    let t = s.update(i, true);
    if i == s.len() - 1 {
        assert(t.drop_last() =~= s.drop_last());
    } else {
        lemma_count_false_update(s.drop_last(), i);
        assert(t.drop_last() =~= s.drop_last().update(i, true));
    }
}

/// Cell `(x, y)` is marked as in the region.
spec fn marked(inr: Seq<bool>, w: int, h: int, x: int, y: int) -> bool {
    0 <= x < w && 0 <= y < h && inr[y * w + x]
}

/// `(x, y)` waits on the stack.
spec fn waiting(st: Seq<(usize, usize)>, x: int, y: int) -> bool {
    exists|i: int| 0 <= i < st.len() && (#[trigger] st[i]).0 == x && st[i].1 == y
}

/// A neighbour of a marked cell is taken care of: outside, not accepted,
/// marked, or waiting.
spec fn settled(acc: Seq<bool>, inr: Seq<bool>, w: int, h: int, st: Seq<(usize, usize)>, x: int, y: int) -> bool {
    ||| !(0 <= x < w && 0 <= y < h)
    ||| !acc[y * w + x]
    ||| marked(inr, w, h, x, y)
    ||| waiting(st, x, y)
}

/// A waiting cell is the start or touches a marked cell.
spec fn seeded(inr: Seq<bool>, w: int, h: int, sx: int, sy: int, x: int, y: int) -> bool {
    ||| (x == sx && y == sy)
    ||| marked(inr, w, h, x - 1, y)
    ||| marked(inr, w, h, x + 1, y)
    ||| marked(inr, w, h, x, y - 1)
    ||| marked(inr, w, h, x, y + 1)
}

/// What holds at the top of each round of the growth.
#[verifier::opaque]
spec fn grow_inv(acc: Seq<bool>, inr: Seq<bool>, w: int, h: int, sx: int, sy: int, st: Seq<(usize, usize)>) -> bool {
    &&& forall|x: int, y: int| #[trigger] marked(inr, w, h, x, y) ==> acc[y * w + x]
    &&& forall|x: int, y: int| #[trigger] marked(inr, w, h, x, y) ==> in_region(acc, w, h, sx, sy, x, y)
    &&& forall|i: int|
        0 <= i < st.len() ==> (#[trigger] st[i]).0 < w && st[i].1 < h && seeded(inr, w, h, sx, sy, st[i].0 as int, st[i].1 as int)
    &&& forall|x: int, y: int|
        #[trigger] marked(inr, w, h, x, y) ==> {
            &&& settled(acc, inr, w, h, st, x + 1, y)
            &&& settled(acc, inr, w, h, st, x - 1, y)
            &&& settled(acc, inr, w, h, st, x, y + 1)
            &&& settled(acc, inr, w, h, st, x, y - 1)
        }
    &&& marked(inr, w, h, sx, sy) || waiting(st, sx, sy)
}

/// The fixed facts of a growth.
spec fn grow_ctx(acc: Seq<bool>, inr: Seq<bool>, w: int, h: int, sx: int, sy: int) -> bool {
    &&& acc.len() == w * h
    &&& inr.len() == w * h
    &&& cell_ok(acc, w, h, sx, sy)
}

proof fn lemma_index(w: int, h: int, x: int, y: int)
    requires
        0 <= x < w,
        0 <= y < h,
    ensures
        0 <= y * w + x < w * h,
{
    assert(y * w + x < w * h) by (nonlinear_arith)
        requires
            0 <= x < w,
            0 <= y < h,
    ;
    assert(0 <= y * w) by (nonlinear_arith)
        requires
            0 <= y,
            0 <= w,
    ;
}

proof fn lemma_index_unique(w: int, a: int, b: int, x: int, y: int)
    requires
        0 <= a < w,
        0 <= x < w,
        0 <= b,
        0 <= y,
        b * w + a == y * w + x,
    ensures
        a == x && b == y,
{
    vstd::arithmetic::div_mod::lemma_fundamental_div_mod_converse(b * w + a, w, b, a);
    vstd::arithmetic::div_mod::lemma_fundamental_div_mod_converse(y * w + x, w, y, x);
}

proof fn lemma_waiting_push(st: Seq<(usize, usize)>, e: (usize, usize), x: int, y: int)
    ensures
        waiting(st.push(e), x, y) == (waiting(st, x, y) || (e.0 == x && e.1 == y)),
{
    let t = st.push(e);
    if waiting(st, x, y) {
        let i = choose|i: int| 0 <= i < st.len() && (#[trigger] st[i]).0 == x && st[i].1 == y;
        assert(t[i] == st[i]);
    }
    if e.0 == x && e.1 == y {
        assert(t[st.len() as int] == e);
    }
    if waiting(t, x, y) {
        let i = choose|i: int| 0 <= i < t.len() && (#[trigger] t[i]).0 == x && t[i].1 == y;
        if i < st.len() {
            assert(t[i] == st[i]);
        }
    }
}

proof fn lemma_path_push(acc: Seq<bool>, w: int, h: int, path: Seq<(int, int)>, q: (int, int))
    requires
        region_path(acc, w, h, path),
        adjacent(path.last(), q),
        cell_ok(acc, w, h, q.0, q.1),
    ensures
        region_path(acc, w, h, path.push(q)),
        path.push(q)[0] == path[0],
        path.push(q).last() == q,
{
    let t = path.push(q);
    assert forall|i: int| 0 <= i < t.len() implies cell_ok(acc, w, h, #[trigger] t[i].0, t[i].1) by {
        if i < path.len() {
            assert(t[i] == path[i]);
        }
    }
    assert forall|i: int| 0 <= i < t.len() - 1 implies adjacent(#[trigger] t[i], t[i + 1]) by {
        if i < path.len() - 1 {
            assert(t[i] == path[i] && t[i + 1] == path[i + 1]);
        } else {
            assert(t[i] == path.last());
        }
    }
}

proof fn lemma_path_marked(acc: Seq<bool>, inr: Seq<bool>, w: int, h: int, path: Seq<(int, int)>, k: int)
    requires
        region_path(acc, w, h, path),
        0 <= k < path.len(),
        marked(inr, w, h, path[0].0, path[0].1),
        forall|x: int, y: int|
            #[trigger] marked(inr, w, h, x, y) ==> {
                &&& settled(acc, inr, w, h, Seq::empty(), x + 1, y)
                &&& settled(acc, inr, w, h, Seq::empty(), x - 1, y)
                &&& settled(acc, inr, w, h, Seq::empty(), x, y + 1)
                &&& settled(acc, inr, w, h, Seq::empty(), x, y - 1)
            },
    ensures
        marked(inr, w, h, path[k].0, path[k].1),
    decreases k,
{
    if k > 0 {
        lemma_path_marked(acc, inr, w, h, path, k - 1);
        let p = path[k - 1];
        let q = path[k];
        assert(adjacent(path[k - 1], path[k - 1 + 1]));
        assert(marked(inr, w, h, p.0, p.1));
        assert(cell_ok(acc, w, h, q.0, q.1));
        assert(!waiting(Seq::<(usize, usize)>::empty(), q.0, q.1));
    }
}

/// The neighbours of `(x, y)` inside the grid, in the order left, right,
/// above, below.
spec fn nbrs(w: usize, h: usize, x: usize, y: usize) -> Seq<(usize, usize)> {
    (if x > 0 {
        seq![((x - 1) as usize, y)]
    } else {
        Seq::empty()
    }) + (if x + 1 < w {
        seq![((x + 1) as usize, y)]
    } else {
        Seq::empty()
    }) + (if y > 0 {
        seq![(x, (y - 1) as usize)]
    } else {
        Seq::empty()
    }) + (if y + 1 < h {
        seq![(x, (y + 1) as usize)]
    } else {
        Seq::empty()
    })
}

proof fn lemma_waiting_concat(st: Seq<(usize, usize)>, ns: Seq<(usize, usize)>, a: int, b: int)
    ensures
        waiting(st + ns, a, b) == (waiting(st, a, b) || waiting(ns, a, b)),
{
    let t = st + ns;
    if waiting(st, a, b) {
        let i = choose|i: int| 0 <= i < st.len() && (#[trigger] st[i]).0 == a && st[i].1 == b;
        assert(t[i] == st[i]);
    }
    if waiting(ns, a, b) {
        let i = choose|i: int| 0 <= i < ns.len() && (#[trigger] ns[i]).0 == a && ns[i].1 == b;
        assert(t[st.len() + i] == ns[i]);
    }
    if waiting(t, a, b) {
        let i = choose|i: int| 0 <= i < t.len() && (#[trigger] t[i]).0 == a && t[i].1 == b;
        if i < st.len() {
            assert(t[i] == st[i]);
        } else {
            assert(t[i] == ns[i - st.len()]);
        }
    }
}

proof fn lemma_nbrs(w: usize, h: usize, x: usize, y: usize)
    requires
        x < w,
        y < h,
    ensures
        forall|i: int|
            0 <= i < nbrs(w, h, x, y).len() ==> (#[trigger] nbrs(w, h, x, y)[i]).0 < w && nbrs(w, h, x, y)[i].1 < h
                && adjacent((x as int, y as int), (nbrs(w, h, x, y)[i].0 as int, nbrs(w, h, x, y)[i].1 as int)),
        x + 1 < w ==> waiting(nbrs(w, h, x, y), x + 1, y as int),
        x > 0 ==> waiting(nbrs(w, h, x, y), x - 1, y as int),
        y + 1 < h ==> waiting(nbrs(w, h, x, y), x as int, y + 1),
        y > 0 ==> waiting(nbrs(w, h, x, y), x as int, y - 1),
{
    let a: Seq<(usize, usize)> = if x > 0 {
        seq![((x - 1) as usize, y)]
    } else {
        Seq::empty()
    };
    let b: Seq<(usize, usize)> = if x + 1 < w {
        seq![((x + 1) as usize, y)]
    } else {
        Seq::empty()
    };
    let c: Seq<(usize, usize)> = if y > 0 {
        seq![(x, (y - 1) as usize)]
    } else {
        Seq::empty()
    };
    let d: Seq<(usize, usize)> = if y + 1 < h {
        seq![(x, (y + 1) as usize)]
    } else {
        Seq::empty()
    };
    let n = nbrs(w, h, x, y);
    assert(n == a + b + c + d);
    assert forall|i: int| 0 <= i < n.len() implies (#[trigger] n[i]).0 < w && n[i].1 < h && adjacent(
        (x as int, y as int),
        (n[i].0 as int, n[i].1 as int),
    ) by {
        if i < a.len() {
            assert(n[i] == a[i]);
        } else if i < a.len() + b.len() {
            assert(n[i] == b[i - a.len()]);
        } else if i < a.len() + b.len() + c.len() {
            assert(n[i] == c[i - a.len() - b.len()]);
        } else {
            assert(n[i] == d[i - a.len() - b.len() - c.len()]);
        }
    }
    if x > 0 {
        assert(n[0] == a[0]);
    }
    if x + 1 < w {
        assert(n[a.len() as int] == b[0]);
    }
    if y > 0 {
        assert(n[(a.len() + b.len()) as int] == c[0]);
    }
    if y + 1 < h {
        assert(n[(a.len() + b.len() + c.len()) as int] == d[0]);
    }
}

proof fn lemma_grow_init(acc: Seq<bool>, inr: Seq<bool>, w: int, h: int, sx: usize, sy: usize)
    requires
        grow_ctx(acc, inr, w, h, sx as int, sy as int),
        forall|i: int| 0 <= i < inr.len() ==> !inr[i],
    ensures
        grow_inv(acc, inr, w, h, sx as int, sy as int, seq![(sx, sy)]),
{
    reveal(grow_inv);
    let st = seq![(sx, sy)];
    assert(st[0] == (sx, sy));
    assert(waiting(st, sx as int, sy as int));
    assert forall|x: int, y: int| !marked(inr, w, h, x, y) by {
        if 0 <= x < w && 0 <= y < h {
            lemma_index(w, h, x, y);
        }
    }
}

proof fn lemma_grow_discard(
    acc: Seq<bool>,
    inr: Seq<bool>,
    w: int,
    h: int,
    sx: int,
    sy: int,
    st: Seq<(usize, usize)>,
    q: (usize, usize),
)
    requires
        grow_ctx(acc, inr, w, h, sx, sy),
        grow_inv(acc, inr, w, h, sx, sy, st.push(q)),
        q.0 < w && q.1 < h,
        marked(inr, w, h, q.0 as int, q.1 as int) || !acc[q.1 * w + q.0],
    ensures
        grow_inv(acc, inr, w, h, sx, sy, st),
{
    reveal(grow_inv);
    let t = st.push(q);
    assert(t[st.len() as int] == q);
    assert forall|i: int| 0 <= i < st.len() implies (#[trigger] st[i]).0 < w && st[i].1 < h && seeded(
        inr,
        w,
        h,
        sx,
        sy,
        st[i].0 as int,
        st[i].1 as int,
    ) by {
        assert(t[i] == st[i]);
    }
    assert forall|a: int, b: int| #[trigger] settled(acc, inr, w, h, t, a, b) implies settled(acc, inr, w, h, st, a, b) by {
        lemma_waiting_push(st, q, a, b);
    }
    lemma_waiting_push(st, q, sx, sy);
}

proof fn lemma_grow_step(
    acc: Seq<bool>,
    inr0: Seq<bool>,
    inr1: Seq<bool>,
    w: usize,
    h: usize,
    sx: int,
    sy: int,
    st: Seq<(usize, usize)>,
    q: (usize, usize),
)
    requires
        grow_ctx(acc, inr0, w as int, h as int, sx, sy),
        grow_inv(acc, inr0, w as int, h as int, sx, sy, st.push(q)),
        q.0 < w && q.1 < h,
        !marked(inr0, w as int, h as int, q.0 as int, q.1 as int),
        acc[q.1 * w + q.0],
        inr1 == inr0.update(q.1 * w + q.0, true),
    ensures
        grow_inv(acc, inr1, w as int, h as int, sx, sy, st + nbrs(w, h, q.0, q.1)),
{
    reveal(grow_inv);
    let wi = w as int;
    let hi = h as int;
    let x = q.0 as int;
    let y = q.1 as int;
    let t = st.push(q);
    let ns = nbrs(w, h, q.0, q.1);
    let st2 = st + ns;
    assert(t[st.len() as int] == q);
    lemma_nbrs(w, h, q.0, q.1);
    lemma_index(wi, hi, x, y);
    // Marks only grow, by `q`.
    assert forall|a: int, b: int| marked(inr1, wi, hi, a, b) == (marked(inr0, wi, hi, a, b) || (a == x && b == y)) by {
        if 0 <= a < wi && 0 <= b < hi {
            lemma_index(wi, hi, a, b);
            if b * wi + a == y * wi + x {
                lemma_index_unique(wi, a, b, x, y);
            }
        }
    }
    // The new cell is reached from the start.
    assert(seeded(inr0, wi, hi, sx, sy, x, y));
    if x == sx && y == sy {
        let path = seq![(sx, sy)];
        assert(region_path(acc, wi, hi, path));
        assert(in_region(acc, wi, hi, sx, sy, x, y));
    } else {
        let nb: (int, int) = if marked(inr0, wi, hi, x - 1, y) {
            (x - 1, y)
        } else if marked(inr0, wi, hi, x + 1, y) {
            (x + 1, y)
        } else if marked(inr0, wi, hi, x, y - 1) {
            (x, y - 1)
        } else {
            (x, y + 1)
        };
        assert(marked(inr0, wi, hi, nb.0, nb.1));
        assert(in_region(acc, wi, hi, sx, sy, nb.0, nb.1));
        let path = choose|path: Seq<(int, int)>|
            #[trigger] region_path(acc, wi, hi, path) && path[0] == (sx, sy) && path.last() == nb;
        lemma_path_push(acc, wi, hi, path, (x, y));
        assert(in_region(acc, wi, hi, sx, sy, x, y));
    }
    assert forall|a: int, b: int| #[trigger] marked(inr1, wi, hi, a, b) implies acc[b * wi + a] && in_region(
        acc,
        wi,
        hi,
        sx,
        sy,
        a,
        b,
    ) by {
        if !(a == x && b == y) {
            assert(marked(inr0, wi, hi, a, b));
        }
    }
    // Waiting cells.
    assert forall|i: int| 0 <= i < st2.len() implies (#[trigger] st2[i]).0 < w && st2[i].1 < h && seeded(
        inr1,
        wi,
        hi,
        sx,
        sy,
        st2[i].0 as int,
        st2[i].1 as int,
    ) by {
        if i < st.len() {
            assert(st2[i] == st[i]);
            assert(t[i] == st[i]);
            assert(seeded(inr0, wi, hi, sx, sy, st[i].0 as int, st[i].1 as int));
        } else {
            assert(st2[i] == ns[i - st.len()]);
            assert(adjacent((x, y), (ns[i - st.len()].0 as int, ns[i - st.len()].1 as int)));
        }
    }
    // Neighbours of marked cells.
    assert forall|a: int, b: int| #[trigger] settled(acc, inr0, wi, hi, t, a, b) implies settled(acc, inr1, wi, hi, st2, a, b) by {
        lemma_waiting_push(st, q, a, b);
        lemma_waiting_concat(st, ns, a, b);
    }
    assert forall|a: int, b: int| #[trigger] marked(inr1, wi, hi, a, b) implies {
        &&& settled(acc, inr1, wi, hi, st2, a + 1, b)
        &&& settled(acc, inr1, wi, hi, st2, a - 1, b)
        &&& settled(acc, inr1, wi, hi, st2, a, b + 1)
        &&& settled(acc, inr1, wi, hi, st2, a, b - 1)
    } by {
        if a == x && b == y {
            lemma_waiting_concat(st, ns, a + 1, b);
            lemma_waiting_concat(st, ns, a - 1, b);
            lemma_waiting_concat(st, ns, a, b + 1);
            lemma_waiting_concat(st, ns, a, b - 1);
        } else {
            assert(marked(inr0, wi, hi, a, b));
            assert(settled(acc, inr0, wi, hi, t, a + 1, b));
            assert(settled(acc, inr0, wi, hi, t, a - 1, b));
            assert(settled(acc, inr0, wi, hi, t, a, b + 1));
            assert(settled(acc, inr0, wi, hi, t, a, b - 1));
        }
    }
    lemma_waiting_push(st, q, sx, sy);
    lemma_waiting_concat(st, ns, sx, sy);
}

proof fn lemma_grow_done(acc: Seq<bool>, inr: Seq<bool>, w: int, h: int, sx: int, sy: int)
    requires
        grow_ctx(acc, inr, w, h, sx, sy),
        grow_inv(acc, inr, w, h, sx, sy, Seq::empty()),
    ensures
        forall|x: int, y: int| 0 <= x < w && 0 <= y < h ==> inr[y * w + x] == in_region(acc, w, h, sx, sy, x, y),
{
    reveal(grow_inv);
    assert(!waiting(Seq::<(usize, usize)>::empty(), sx, sy));
    assert forall|x: int, y: int| 0 <= x < w && 0 <= y < h implies inr[y * w + x] == in_region(
        acc,
        w,
        h,
        sx,
        sy,
        x,
        y,
    ) by {
        if in_region(acc, w, h, sx, sy, x, y) {
            let path = choose|path: Seq<(int, int)>|
                #[trigger] region_path(acc, w, h, path) && path[0] == (sx, sy) && path.last() == (x, y);
            lemma_path_marked(acc, inr, w, h, path, path.len() - 1);
        } else {
            assert(!marked(inr, w, h, x, y));
        }
    }
}

/// Which cells of a `w`×`h` grid are reached from `(sx, sy)` through
/// side-by-side accepted cells; the start must be accepted.
pub fn grow_region(acc: &Vec<bool>, w: usize, h: usize, sx: usize, sy: usize) -> (inr: Vec<bool>)
    requires
        acc@.len() == w * h,
        sx < w,
        sy < h,
        acc@[sy * w + sx],
    ensures
        inr@.len() == w * h,
        forall|x: int, y: int|
            0 <= x < w && 0 <= y < h ==> inr@[y * w + x] == in_region(acc@, w as int, h as int, sx as int, sy as int, x, y),
{
    let n = acc.len();
    let mut inr: Vec<bool> = Vec::new();
    let mut i: usize = 0;
    while i < n
        invariant
            i <= n,
            inr@.len() == i,
            forall|j: int| 0 <= j < i ==> !inr@[j],
        decreases n - i,
    {
        inr.push(false);
        i = i + 1;
    }
    let mut stack: Vec<(usize, usize)> = Vec::new();
    stack.push((sx, sy));
    proof {
        assert(stack@ =~= seq![(sx, sy)]);
        lemma_grow_init(acc@, inr@, w as int, h as int, sx, sy);
    }
    while stack.len() > 0
        invariant
            n == w * h,
            grow_ctx(acc@, inr@, w as int, h as int, sx as int, sy as int),
            grow_inv(acc@, inr@, w as int, h as int, sx as int, sy as int, stack@),
        decreases count_false(inr@), stack@.len(),
    {
        let ghost inr0 = inr@;
        let ghost st0 = stack@;
        let q = stack.pop().unwrap();
        let x = q.0;
        let y = q.1;
        proof {
            assert(st0 =~= stack@.push(q));
            reveal(grow_inv);
            assert(st0[st0.len() - 1] == q);
            lemma_index(w as int, h as int, x as int, y as int);
        }
        let k = y * w + x;
        if !inr[k] && acc[k] {
            inr.set(k, true);
            proof {
                lemma_count_false_update(inr0, k as int);
                lemma_grow_step(acc@, inr0, inr@, w, h, sx as int, sy as int, stack@, q);
            }
            let ghost st1 = stack@;
            if x > 0 {
                stack.push((x - 1, y));
            }
            if x + 1 < w {
                stack.push((x + 1, y));
            }
            if y > 0 {
                stack.push((x, y - 1));
            }
            if y + 1 < h {
                stack.push((x, y + 1));
            }
            proof {
                assert(stack@ =~= st1 + nbrs(w, h, x, y));
            }
        } else {
            proof {
                lemma_grow_discard(acc@, inr@, w as int, h as int, sx as int, sy as int, stack@, q);
            }
        }
    }
    proof {
        assert(stack@ =~= Seq::<(usize, usize)>::empty());
        lemma_grow_done(acc@, inr@, w as int, h as int, sx as int, sy as int);
    }
    inr
}


/// Cell `(x, y)` of a `w`×`h` grid has index `y * w + x` inside it.
pub proof fn lemma_cell_index(w: int, h: int, x: int, y: int)
    requires
        0 <= x < w,
        0 <= y < h,
    ensures
        0 <= y * w + x < w * h,
{
    lemma_index(w, h, x, y);
}

/// Index `k` of a `w`×`h` grid is cell `(k % w, k / w)`.
pub proof fn lemma_split_index(w: int, h: int, k: int)
    requires
        0 <= k < w * h,
        0 <= w,
    ensures
        0 <= k % w < w,
        0 <= k / w < h,
        k == (k / w) * w + k % w,
{
    assert(w > 0) by (nonlinear_arith)
        requires
            0 <= k < w * h,
            0 <= w,
    ;
    vstd::arithmetic::div_mod::lemma_fundamental_div_mod(k, w);
    vstd::arithmetic::div_mod::lemma_div_pos_is_pos(k, w);
    vstd::arithmetic::div_mod::lemma_mod_pos_bound(k, w);
    assert(k / w < h) by (nonlinear_arith)
        requires
            0 <= k < w * h,
            k == w * (k / w) + k % w,
            0 <= k % w,
            w > 0,
    ;
    assert(w * (k / w) == (k / w) * w) by (nonlinear_arith);
}

} // verus!
