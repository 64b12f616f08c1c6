//! Extremal boundary points of the foreground region.
//!
//! Given a grid in which intensity 0 is background and any nonzero
//! intensity is foreground, a single scan (x outermost, y innermost)
//! computes eight extremal foreground coordinates, clockwise from the
//! top-left corner.  The four edge labels track an extremum along one
//! axis; the four corner labels are taken over only by a pixel that
//! strictly improves both of their axes at once, which is stricter than a
//! per-axis extremum and is kept deliberately.  A label no foreground
//! pixel ever takes stays unset.

use vstd::prelude::*;

use crate::grid::Grid;
use crate::grid::lemma_scan_coord_in_range;
use crate::grid::lemma_scan_step_of_coord;
use crate::grid::scan_x;
use crate::grid::scan_y;

verus! {

/// The eight extremal boundary labels, clockwise from the top-left:
///
/// ```text
/// x0 x1 x2
/// x7    x3
/// x6 x5 x4
/// ```
///
/// Each label holds an (x, y) grid coordinate, or is unset when no
/// foreground pixel qualified for it.
#[derive(Clone, Copy, Debug, PartialEq, Eq)]
pub struct Bounds {
    pub x0: Option<(usize, usize)>,
    pub x1: Option<(usize, usize)>,
    pub x2: Option<(usize, usize)>,
    pub x3: Option<(usize, usize)>,
    pub x4: Option<(usize, usize)>,
    pub x5: Option<(usize, usize)>,
    pub x6: Option<(usize, usize)>,
    pub x7: Option<(usize, usize)>,
}

/// The top-left corner label: taken over only by strictly smaller x and
/// strictly smaller y at once.
pub open spec fn upd_nw(cur: Option<(usize, usize)>, x: usize, y: usize) -> Option<
    (usize, usize),
> {
    match cur {
        Option::None => Option::Some((x, y)),
        Option::Some(c) => if x < c.0 && y < c.1 {
            Option::Some((x, y))
        } else {
            cur
        },
    }
}

/// The top edge label: taken over by strictly smaller y.
pub open spec fn upd_n(cur: Option<(usize, usize)>, x: usize, y: usize) -> Option<
    (usize, usize),
> {
    match cur {
        Option::None => Option::Some((x, y)),
        Option::Some(c) => if y < c.1 {
            Option::Some((x, y))
        } else {
            cur
        },
    }
}

/// The top-right corner label: strictly larger x and strictly smaller y.
pub open spec fn upd_ne(cur: Option<(usize, usize)>, x: usize, y: usize) -> Option<
    (usize, usize),
> {
    match cur {
        Option::None => Option::Some((x, y)),
        Option::Some(c) => if x > c.0 && y < c.1 {
            Option::Some((x, y))
        } else {
            cur
        },
    }
}

/// The right edge label: taken over by strictly larger x.
pub open spec fn upd_e(cur: Option<(usize, usize)>, x: usize, y: usize) -> Option<
    (usize, usize),
> {
    match cur {
        Option::None => Option::Some((x, y)),
        Option::Some(c) => if x > c.0 {
            Option::Some((x, y))
        } else {
            cur
        },
    }
}

/// The bottom-right corner label: strictly larger x and strictly larger y.
pub open spec fn upd_se(cur: Option<(usize, usize)>, x: usize, y: usize) -> Option<
    (usize, usize),
> {
    match cur {
        Option::None => Option::Some((x, y)),
        Option::Some(c) => if x > c.0 && y > c.1 {
            Option::Some((x, y))
        } else {
            cur
        },
    }
}

/// The bottom edge label: taken over by strictly larger y.
pub open spec fn upd_s(cur: Option<(usize, usize)>, x: usize, y: usize) -> Option<
    (usize, usize),
> {
    match cur {
        Option::None => Option::Some((x, y)),
        Option::Some(c) => if y > c.1 {
            Option::Some((x, y))
        } else {
            cur
        },
    }
}

/// The bottom-left corner label: strictly smaller x and strictly larger y.
pub open spec fn upd_sw(cur: Option<(usize, usize)>, x: usize, y: usize) -> Option<
    (usize, usize),
> {
    match cur {
        Option::None => Option::Some((x, y)),
        Option::Some(c) => if x < c.0 && y > c.1 {
            Option::Some((x, y))
        } else {
            cur
        },
    }
}

/// The left edge label: taken over by strictly smaller x.
pub open spec fn upd_w(cur: Option<(usize, usize)>, x: usize, y: usize) -> Option<
    (usize, usize),
> {
    match cur {
        Option::None => Option::Some((x, y)),
        Option::Some(c) => if x < c.0 {
            Option::Some((x, y))
        } else {
            cur
        },
    }
}

/// All eight labels unset.
pub open spec fn bounds_unset() -> Bounds {
    Bounds {
        x0: Option::None,
        x1: Option::None,
        x2: Option::None,
        x3: Option::None,
        x4: Option::None,
        x5: Option::None,
        x6: Option::None,
        x7: Option::None,
    }
}

/// One scan step: a background pixel changes nothing; a foreground pixel
/// offers itself to all eight labels.
pub open spec fn bounds_step(b: Bounds, x: usize, y: usize, fg: bool) -> Bounds {
    if !fg {
        b
    } else {
        Bounds {
            x0: upd_nw(b.x0, x, y),
            x1: upd_n(b.x1, x, y),
            x2: upd_ne(b.x2, x, y),
            x3: upd_e(b.x3, x, y),
            x4: upd_se(b.x4, x, y),
            x5: upd_s(b.x5, x, y),
            x6: upd_sw(b.x6, x, y),
            x7: upd_w(b.x7, x, y),
        }
    }
}

/// The labels after the first `k` scan steps.
pub open spec fn bounds_scan(g: Grid, k: int) -> Bounds
    decreases k,
{
    if k <= 0 {
        bounds_unset()
    } else {
        let x = scan_x(k - 1, g.height as int);
        let y = scan_y(k - 1, g.height as int);
        bounds_step(bounds_scan(g, k - 1), x as usize, y as usize, g.pix(x, y) != 0)
    }
}

/// The labels after scanning the whole grid.
pub open spec fn bounds_of(g: Grid) -> Bounds {
    bounds_scan(g, g.width * g.height)
}

/// Applies `upd_nw` in executable code.
fn take_nw(cur: Option<(usize, usize)>, x: usize, y: usize) -> (r: Option<(usize, usize)>)
    ensures
        r == upd_nw(cur, x, y),
{
    match cur {
        None => Some((x, y)),
        Some(c) => if x < c.0 && y < c.1 {
            Some((x, y))
        } else {
            Some(c)
        },
    }
}

/// Applies `upd_n` in executable code.
fn take_n(cur: Option<(usize, usize)>, x: usize, y: usize) -> (r: Option<(usize, usize)>)
    ensures
        r == upd_n(cur, x, y),
{
    match cur {
        None => Some((x, y)),
        Some(c) => if y < c.1 {
            Some((x, y))
        } else {
            Some(c)
        },
    }
}

/// Applies `upd_ne` in executable code.
fn take_ne(cur: Option<(usize, usize)>, x: usize, y: usize) -> (r: Option<(usize, usize)>)
    ensures
        r == upd_ne(cur, x, y),
{
    match cur {
        None => Some((x, y)),
        Some(c) => if x > c.0 && y < c.1 {
            Some((x, y))
        } else {
            Some(c)
        },
    }
}

/// Applies `upd_e` in executable code.
fn take_e(cur: Option<(usize, usize)>, x: usize, y: usize) -> (r: Option<(usize, usize)>)
    ensures
        r == upd_e(cur, x, y),
{
    match cur {
        None => Some((x, y)),
        Some(c) => if x > c.0 {
            Some((x, y))
        } else {
            Some(c)
        },
    }
}

/// Applies `upd_se` in executable code.
fn take_se(cur: Option<(usize, usize)>, x: usize, y: usize) -> (r: Option<(usize, usize)>)
    ensures
        r == upd_se(cur, x, y),
{
    match cur {
        None => Some((x, y)),
        Some(c) => if x > c.0 && y > c.1 {
            Some((x, y))
        } else {
            Some(c)
        },
    }
}

/// Applies `upd_s` in executable code.
fn take_s(cur: Option<(usize, usize)>, x: usize, y: usize) -> (r: Option<(usize, usize)>)
    ensures
        r == upd_s(cur, x, y),
{
    match cur {
        None => Some((x, y)),
        Some(c) => if y > c.1 {
            Some((x, y))
        } else {
            Some(c)
        },
    }
}

/// Applies `upd_sw` in executable code.
fn take_sw(cur: Option<(usize, usize)>, x: usize, y: usize) -> (r: Option<(usize, usize)>)
    ensures
        r == upd_sw(cur, x, y),
{
    match cur {
        None => Some((x, y)),
        Some(c) => if x < c.0 && y > c.1 {
            Some((x, y))
        } else {
            Some(c)
        },
    }
}

/// Applies `upd_w` in executable code.
fn take_w(cur: Option<(usize, usize)>, x: usize, y: usize) -> (r: Option<(usize, usize)>)
    ensures
        r == upd_w(cur, x, y),
{
    match cur {
        None => Some((x, y)),
        Some(c) => if x < c.0 {
            Some((x, y))
        } else {
            Some(c)
        },
    }
}

impl Bounds {
    /// Scans the grid once and returns the eight extremal foreground
    /// coordinates; `bounds_of` pins the exact result.
    pub fn from_grid(g: &Grid) -> (b: Bounds)
        requires
            g.wf(),
        ensures
            b == bounds_of(*g),
    {
        let w = g.width;
        let h = g.height;
        let ghost hh = h as int;
        let mut b = Bounds {
            x0: None,
            x1: None,
            x2: None,
            x3: None,
            x4: None,
            x5: None,
            x6: None,
            x7: None,
        };
        let mut x: usize = 0;
        while x < w
            invariant
                x <= w,
                w == g.width,
                h == g.height,
                hh == h as int,
                g.wf(),
                b == bounds_scan(*g, x as int * hh),
            decreases w - x,
        {
            let mut y: usize = 0;
            while y < h
                invariant
                    x < w,
                    y <= h,
                    w == g.width,
                    h == g.height,
                    hh == h as int,
                    g.wf(),
                    b == bounds_scan(*g, x as int * hh + y as int),
                decreases h - y,
            {
                let ghost k = x as int * hh + y as int;
                proof {
                    lemma_scan_step_of_coord(w as int, hh, x as int, y as int);
                }
                let v = g.get(x, y);
                if v != 0 {
                    b = Bounds {
                        x0: take_nw(b.x0, x, y),
                        x1: take_n(b.x1, x, y),
                        x2: take_ne(b.x2, x, y),
                        x3: take_e(b.x3, x, y),
                        x4: take_se(b.x4, x, y),
                        x5: take_s(b.x5, x, y),
                        x6: take_sw(b.x6, x, y),
                        x7: take_w(b.x7, x, y),
                    };
                }
                proof {
                    assert(scan_x(k, hh) == x as int && scan_y(k, hh) == y as int);
                    assert(b == bounds_scan(*g, k + 1));
                    assert(x as int * hh + (y + 1) == k + 1);
                }
                y = y + 1;
            }
            proof {
                assert(x as int * hh + hh == (x + 1) as int * hh) by (nonlinear_arith);
            }
            x = x + 1;
        }
        b
    }
}

/// Whether any of the first `k` scan steps lands on a foreground pixel.
pub open spec fn fg_before(g: Grid, k: int) -> bool {
    exists|j: int|
        0 <= j < k && #[trigger] g.pix(scan_x(j, g.height as int), scan_y(j, g.height as int))
            != 0
}

/// Whether label value `c` names a foreground pixel of `g`.
pub open spec fn is_fg_coord(g: Grid, c: (usize, usize)) -> bool {
    g.valid(c.0 as int, c.1 as int) && g.pix(c.0 as int, c.1 as int) != 0
}

/// Invariants of the scan after `k` steps: the eight labels are set
/// exactly when a foreground pixel was scanned; a set label names a
/// foreground pixel; the edge labels bound every scanned foreground pixel
/// along their axis; and each corner label matches every scanned
/// foreground pixel on at least one of its two axis directions.
proof fn lemma_bounds_scan_props(g: Grid, k: int)
    requires
        g.wf(),
        0 <= k <= g.width * g.height,
    ensures
        (bounds_scan(g, k).x0 is Some) == fg_before(g, k),
        (bounds_scan(g, k).x1 is Some) == fg_before(g, k),
        (bounds_scan(g, k).x2 is Some) == fg_before(g, k),
        (bounds_scan(g, k).x3 is Some) == fg_before(g, k),
        (bounds_scan(g, k).x4 is Some) == fg_before(g, k),
        (bounds_scan(g, k).x5 is Some) == fg_before(g, k),
        (bounds_scan(g, k).x6 is Some) == fg_before(g, k),
        (bounds_scan(g, k).x7 is Some) == fg_before(g, k),
        fg_before(g, k) ==> is_fg_coord(g, bounds_scan(g, k).x0->0) && is_fg_coord(
            g,
            bounds_scan(g, k).x1->0,
        ) && is_fg_coord(g, bounds_scan(g, k).x2->0) && is_fg_coord(g, bounds_scan(g, k).x3->0)
            && is_fg_coord(g, bounds_scan(g, k).x4->0) && is_fg_coord(
            g,
            bounds_scan(g, k).x5->0,
        ) && is_fg_coord(g, bounds_scan(g, k).x6->0) && is_fg_coord(g, bounds_scan(g, k).x7->0),
        forall|j: int|
            0 <= j < k && #[trigger] g.pix(scan_x(j, g.height as int), scan_y(j, g.height as int))
                != 0 ==> {
                let xj = scan_x(j, g.height as int);
                let yj = scan_y(j, g.height as int);
                &&& (bounds_scan(g, k).x1->0).1 <= yj
                &&& (bounds_scan(g, k).x5->0).1 >= yj
                &&& (bounds_scan(g, k).x3->0).0 >= xj
                &&& (bounds_scan(g, k).x7->0).0 <= xj
                &&& ((bounds_scan(g, k).x0->0).0 <= xj || (bounds_scan(g, k).x0->0).1 <= yj)
                &&& ((bounds_scan(g, k).x2->0).0 >= xj || (bounds_scan(g, k).x2->0).1 <= yj)
                &&& ((bounds_scan(g, k).x4->0).0 >= xj || (bounds_scan(g, k).x4->0).1 >= yj)
                &&& ((bounds_scan(g, k).x6->0).0 <= xj || (bounds_scan(g, k).x6->0).1 >= yj)
            },
    decreases k,
{
    let h = g.height as int;
    if k > 0 {
        lemma_bounds_scan_props(g, k - 1);
        lemma_scan_coord_in_range(g.width as int, h, k - 1);
        let cx = scan_x(k - 1, h);
        let cy = scan_y(k - 1, h);
        let fgk = g.pix(cx, cy) != 0;
        let prev = bounds_scan(g, k - 1);
        assert(bounds_scan(g, k) == bounds_step(prev, cx as usize, cy as usize, fgk));
        if fgk {
            assert(fg_before(g, k));
            assert forall|j: int|
                0 <= j < k && #[trigger] g.pix(scan_x(j, h), scan_y(j, h)) != 0 implies {
                let xj = scan_x(j, h);
                let yj = scan_y(j, h);
                &&& (bounds_scan(g, k).x1->0).1 <= yj
                &&& (bounds_scan(g, k).x5->0).1 >= yj
                &&& (bounds_scan(g, k).x3->0).0 >= xj
                &&& (bounds_scan(g, k).x7->0).0 <= xj
                &&& ((bounds_scan(g, k).x0->0).0 <= xj || (bounds_scan(g, k).x0->0).1 <= yj)
                &&& ((bounds_scan(g, k).x2->0).0 >= xj || (bounds_scan(g, k).x2->0).1 <= yj)
                &&& ((bounds_scan(g, k).x4->0).0 >= xj || (bounds_scan(g, k).x4->0).1 >= yj)
                &&& ((bounds_scan(g, k).x6->0).0 <= xj || (bounds_scan(g, k).x6->0).1 >= yj)
            } by {
                if j < k - 1 {
                    assert(fg_before(g, k - 1));
                }
            }
        } else {
            assert(fg_before(g, k) == fg_before(g, k - 1)) by {
                if fg_before(g, k) {
                    let j = choose|j: int|
                        0 <= j < k && #[trigger] g.pix(scan_x(j, h), scan_y(j, h)) != 0;
                    assert(j != k - 1);
                    assert(0 <= j < k - 1 && g.pix(scan_x(j, h), scan_y(j, h)) != 0);
                }
                if fg_before(g, k - 1) {
                    let j = choose|j: int|
                        0 <= j < k - 1 && #[trigger] g.pix(scan_x(j, h), scan_y(j, h)) != 0;
                    assert(0 <= j < k && g.pix(scan_x(j, h), scan_y(j, h)) != 0);
                }
            }
        }
    }
}

/// Law: the edge labels bound every foreground pixel along their axis:
/// the N point's y is least, the S point's y greatest, the E point's x
/// greatest, and the W point's x least.
pub proof fn lemma_edge_bounds(g: Grid, x: int, y: int)
    requires
        g.wf(),
        g.valid(x, y),
        g.pix(x, y) != 0,
    ensures
        bounds_of(g).x1 is Some && (bounds_of(g).x1->0).1 <= y,
        bounds_of(g).x5 is Some && (bounds_of(g).x5->0).1 >= y,
        bounds_of(g).x3 is Some && (bounds_of(g).x3->0).0 >= x,
        bounds_of(g).x7 is Some && (bounds_of(g).x7->0).0 <= x,
{
    let h = g.height as int;
    let total = g.width * g.height;
    lemma_bounds_scan_props(g, total);
    lemma_scan_step_of_coord(g.width as int, h, x, y);
    assert(g.pix(scan_x(x * h + y, h), scan_y(x * h + y, h)) != 0);
}

/// Law: each corner label, always set once any foreground pixel exists,
/// matches every foreground pixel on at least one of its two axis
/// directions.  This is the guarantee the strict joint-improvement rule
/// leaves: the NW point, say, cannot be beaten on both axes at once.
pub proof fn lemma_corner_bounds(g: Grid, x: int, y: int)
    requires
        g.wf(),
        g.valid(x, y),
        g.pix(x, y) != 0,
    ensures
        bounds_of(g).x0 is Some && ((bounds_of(g).x0->0).0 <= x || (bounds_of(g).x0->0).1 <= y),
        bounds_of(g).x2 is Some && ((bounds_of(g).x2->0).0 >= x || (bounds_of(g).x2->0).1 <= y),
        bounds_of(g).x4 is Some && ((bounds_of(g).x4->0).0 >= x || (bounds_of(g).x4->0).1 >= y),
        bounds_of(g).x6 is Some && ((bounds_of(g).x6->0).0 <= x || (bounds_of(g).x6->0).1 >= y),
{
    let h = g.height as int;
    let total = g.width * g.height;
    lemma_bounds_scan_props(g, total);
    lemma_scan_step_of_coord(g.width as int, h, x, y);
    assert(g.pix(scan_x(x * h + y, h), scan_y(x * h + y, h)) != 0);
}

/// Law: a set label names a foreground pixel of the grid, and the eight
/// labels are set together: all are set as soon as the grid has any
/// foreground pixel, and all stay unset on an all-background grid.
pub proof fn lemma_labels_foreground(g: Grid)
    requires
        g.wf(),
    ensures
        (bounds_of(g).x0 is Some) == exists|x: int, y: int|
            g.valid(x, y) && #[trigger] g.pix(x, y) != 0,
        bounds_of(g).x0 is Some == bounds_of(g).x1 is Some,
        bounds_of(g).x0 is Some == bounds_of(g).x2 is Some,
        bounds_of(g).x0 is Some == bounds_of(g).x3 is Some,
        bounds_of(g).x0 is Some == bounds_of(g).x4 is Some,
        bounds_of(g).x0 is Some == bounds_of(g).x5 is Some,
        bounds_of(g).x0 is Some == bounds_of(g).x6 is Some,
        bounds_of(g).x0 is Some == bounds_of(g).x7 is Some,
        bounds_of(g).x0 is Some ==> is_fg_coord(g, bounds_of(g).x0->0) && is_fg_coord(
            g,
            bounds_of(g).x1->0,
        ) && is_fg_coord(g, bounds_of(g).x2->0) && is_fg_coord(g, bounds_of(g).x3->0)
            && is_fg_coord(g, bounds_of(g).x4->0) && is_fg_coord(g, bounds_of(g).x5->0)
            && is_fg_coord(g, bounds_of(g).x6->0) && is_fg_coord(g, bounds_of(g).x7->0),
{
    let w = g.width as int;
    let h = g.height as int;
    let total = g.width * g.height;
    lemma_bounds_scan_props(g, total);
    assert(fg_before(g, total) == exists|x: int, y: int|
        g.valid(x, y) && #[trigger] g.pix(x, y) != 0) by {
        if fg_before(g, total) {
            let j = choose|j: int|
                0 <= j < total && #[trigger] g.pix(scan_x(j, h), scan_y(j, h)) != 0;
            lemma_scan_coord_in_range(w, h, j);
            assert(g.valid(scan_x(j, h), scan_y(j, h)) && g.pix(scan_x(j, h), scan_y(j, h)) != 0);
        }
        if exists|x: int, y: int| g.valid(x, y) && #[trigger] g.pix(x, y) != 0 {
            let (x, y) = choose|x: int, y: int| g.valid(x, y) && #[trigger] g.pix(x, y) != 0;
            lemma_scan_step_of_coord(w, h, x, y);
            assert(0 <= x * h + y < total && g.pix(
                scan_x(x * h + y, h),
                scan_y(x * h + y, h),
            ) != 0);
        }
    }
}

} // verus!
