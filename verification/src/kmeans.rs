//! K-means-style clustering over pixel intensities.
//!
//! Each cluster holds a representative intensity and the pixels currently
//! assigned to it.  An assignment pass walks the grid in scan order (x
//! outermost, y innermost), assigns every pixel to the cluster whose
//! representative minimizes the squared-intensity distance
//! `|rep^2 - intensity^2|` (ties go to the lowest cluster index), and then
//! moves each representative to the truncated mean of its assigned
//! intensities.  A final pass rewrites the grid so that every pixel carries
//! its cluster's representative.

use vstd::prelude::*;

use crate::grid::Grid;
use crate::grid::lemma_scan_step_of_coord;
use crate::grid::lemma_scan_coord_in_range;
use crate::grid::scan_x;
use crate::grid::scan_y;

verus! {

/// One intensity class: a representative intensity together with the
/// intensities and coordinates of the pixels currently assigned to it.
pub struct ClusterCenter {
    pub color: u8,
    pub pixel_colors: Vec<u8>,
    pub pixel_coords: Vec<(usize, usize)>,
}

/// The squared-intensity distance `|rep^2 - v^2|`.  It deliberately weights
/// bright values more heavily than dim ones.
pub open spec fn dist(rep: u8, v: u8) -> int {
    if rep * rep >= v * v {
        rep * rep - v * v
    } else {
        v * v - rep * rep
    }
}

/// The representatives of a cluster sequence, in cluster order.
pub open spec fn reps_of(cs: Seq<ClusterCenter>) -> Seq<u8> {
    cs.map_values(|c: ClusterCenter| c.color)
}

/// `i` is the lowest index among `reps` at minimal distance from `v`.
pub open spec fn is_best_index(reps: Seq<u8>, v: u8, i: int) -> bool {
    &&& 0 <= i < reps.len()
    &&& forall|j: int| 0 <= j < reps.len() ==> dist(reps[i], v) <= dist(#[trigger] reps[j], v)
    &&& forall|j: int| 0 <= j < i ==> dist(#[trigger] reps[j], v) > dist(reps[i], v)
}

/// The index a pixel of intensity `v` is assigned to: the first index among
/// `reps` whose distance from `v` is minimal.
pub open spec fn best_index(reps: Seq<u8>, v: u8) -> int
    decreases reps.len(),
{
    if reps.len() <= 1 {
        0
    } else {
        let b = best_index(reps.drop_last(), v);
        if dist(reps[reps.len() - 1], v) < dist(reps[b], v) {
            reps.len() - 1
        } else {
            b
        }
    }
}

/// `best_index` indeed picks the first minimal-distance index.
pub proof fn lemma_best_index_is_best(reps: Seq<u8>, v: u8)
    requires
        reps.len() >= 1,
    ensures
        is_best_index(reps, v, best_index(reps, v)),
    decreases reps.len(),
{
    if reps.len() > 1 {
        lemma_best_index_is_best(reps.drop_last(), v);
        assert(forall|j: int| 0 <= j < reps.len() - 1 ==> reps.drop_last()[j] == #[trigger] reps[j]);
    }
}

/// No other index satisfies `is_best_index`.
pub proof fn lemma_best_index_unique(reps: Seq<u8>, v: u8, i: int)
    requires
        reps.len() >= 1,
        is_best_index(reps, v, i),
    ensures
        i == best_index(reps, v),
{
    let b = best_index(reps, v);
    lemma_best_index_is_best(reps, v);
    assert(dist(reps[i], v) <= dist(reps[b], v));
    assert(dist(reps[b], v) <= dist(reps[i], v));
}

/// The squared-intensity distance, computed exactly in integers.
pub fn intensity_dist(rep: u8, v: u8) -> (d: u32)
    ensures
        d == dist(rep, v),
{
    proof {
        assert((rep as u32) * (rep as u32) <= 65025 && (v as u32) * (v as u32) <= 65025)
            by (nonlinear_arith)
            requires
                rep <= 255,
                v <= 255,
        ;
    }
    let r = (rep as u32) * (rep as u32);
    let p = (v as u32) * (v as u32);
    if r >= p {
        r - p
    } else {
        p - r
    }
}

/// Finds the cluster a pixel of intensity `v` is assigned to: the lowest
/// index at minimal squared-intensity distance.
pub fn find_best(clusters: &Vec<ClusterCenter>, v: u8) -> (i: usize)
    requires
        clusters.len() >= 1,
    ensures
        i < clusters.len(),
        i == best_index(reps_of(clusters@), v),
{
    let ghost reps = reps_of(clusters@);
    let mut best: usize = 0;
    let mut best_d: u32 = intensity_dist(clusters[0].color, v);
    let mut j: usize = 1;
    while j < clusters.len()
        invariant
            1 <= j <= clusters.len(),
            best < j,
            reps == reps_of(clusters@),
            reps.len() == clusters.len(),
            best_d == dist(reps[best as int], v),
            is_best_index(reps.take(j as int), v, best as int),
        decreases clusters.len() - j,
    {
        let d = intensity_dist(clusters[j].color, v);
        proof {
            assert(forall|m: int| 0 <= m < j + 1 ==> reps.take(j + 1)[m] == #[trigger] reps[m]);
            assert(forall|m: int| 0 <= m < j ==> reps.take(j as int)[m] == #[trigger] reps[m]);
        }
        if d < best_d {
            best = j;
            best_d = d;
        }
        j = j + 1;
    }
    proof {
        assert(reps.take(clusters.len() as int) == reps);
        lemma_best_index_unique(reps, v, best as int);
    }
    best
}

impl ClusterCenter {
    /// A cluster with the given representative and no assigned pixels.
    pub fn new(color: u8) -> (c: ClusterCenter)
        ensures
            c.color == color,
            c.pixel_colors@ == Seq::<u8>::empty(),
            c.pixel_coords@ == Seq::<(usize, usize)>::empty(),
    {
        ClusterCenter { color, pixel_colors: Vec::new(), pixel_coords: Vec::new() }
    }

    /// Records one pixel as assigned to this cluster.
    pub fn add_pixel(&mut self, pixel_color: u8, pixel_coord: (usize, usize))
        ensures
            final(self).color == old(self).color,
            final(self).pixel_colors@ == old(self).pixel_colors@.push(pixel_color),
            final(self).pixel_coords@ == old(self).pixel_coords@.push(pixel_coord),
    {
        self.pixel_colors.push(pixel_color);
        self.pixel_coords.push(pixel_coord)
    }

    /// Clears the cluster's assignment, keeping its representative.
    pub fn reset_pixels(&mut self)
        ensures
            final(self).color == old(self).color,
            final(self).pixel_colors@ == Seq::<u8>::empty(),
            final(self).pixel_coords@ == Seq::<(usize, usize)>::empty(),
    {
        self.pixel_colors.clear();
        self.pixel_coords.clear();
    }

    /// Moves the representative to the truncated mean of the assigned
    /// intensities.  An empty cluster keeps its previous representative,
    /// so the recomputation is total.
    pub fn recalculate(&mut self)
        ensures
            final(self).pixel_colors@ == old(self).pixel_colors@,
            final(self).pixel_coords@ == old(self).pixel_coords@,
            final(self).color == recalced_color(old(self).color, old(self).pixel_colors@),
    {
        let n = self.pixel_colors.len();
        if n == 0 {
            return;
        }
        let mut sum: u128 = 0;
        let mut j: usize = 0;
        while j < n
            invariant
                j <= n,
                n == self.pixel_colors@.len(),
                self.pixel_colors@ == old(self).pixel_colors@,
                self.pixel_coords@ == old(self).pixel_coords@,
                self.color == old(self).color,
                sum == sum_of(self.pixel_colors@.take(j as int)),
                sum <= 255 * j,
            decreases n - j,
        {
            let c = self.pixel_colors[j];
            proof {
                let s = self.pixel_colors@;
                assert(s.take(j + 1).drop_last() == s.take(j as int));
                assert(s.take(j + 1).last() == s[j as int]);
            }
            sum = sum + c as u128;
            j = j + 1;
        }
        proof {
            assert(self.pixel_colors@.take(n as int) == self.pixel_colors@);
            assert(sum / (n as u128) <= 255) by (nonlinear_arith)
                requires
                    sum <= 255 * (n as u128),
                    n >= 1,
            ;
        }
        self.color = (sum / (n as u128)) as u8;
    }
}

/// The sum of a sequence of intensities.
pub open spec fn sum_of(s: Seq<u8>) -> int
    decreases s.len(),
{
    if s.len() == 0 {
        0
    } else {
        sum_of(s.drop_last()) + s.last()
    }
}

/// The sum of intensities is bounded by 255 per element.
pub proof fn lemma_sum_of_bounds(s: Seq<u8>)
    ensures
        0 <= sum_of(s) <= 255 * s.len(),
    decreases s.len(),
{
    if s.len() > 0 {
        lemma_sum_of_bounds(s.drop_last());
    }
}

/// The representative a cluster ends an iteration with: the truncated mean
/// of its assigned intensities, or the previous representative if nothing
/// was assigned.
pub open spec fn recalced_color(prev: u8, colors: Seq<u8>) -> u8 {
    if colors.len() == 0 {
        prev
    } else {
        (sum_of(colors) / colors.len() as int) as u8
    }
}

/// The coordinates among the first `k` scan steps whose pixel is assigned
/// to cluster `i` under representatives `reps`, in scan order.
pub open spec fn assigned_coords(g: Grid, reps: Seq<u8>, i: int, k: int) -> Seq<(usize, usize)>
    decreases k,
{
    if k <= 0 {
        Seq::empty()
    } else {
        let prev = assigned_coords(g, reps, i, k - 1);
        let x = scan_x(k - 1, g.height as int);
        let y = scan_y(k - 1, g.height as int);
        if best_index(reps, g.pix(x, y)) == i {
            prev.push((x as usize, y as usize))
        } else {
            prev
        }
    }
}

/// The intensities of those pixels, in the same order.
pub open spec fn assigned_colors(g: Grid, reps: Seq<u8>, i: int, k: int) -> Seq<u8>
    decreases k,
{
    if k <= 0 {
        Seq::empty()
    } else {
        let prev = assigned_colors(g, reps, i, k - 1);
        let x = scan_x(k - 1, g.height as int);
        let y = scan_y(k - 1, g.height as int);
        if best_index(reps, g.pix(x, y)) == i {
            prev.push(g.pix(x, y))
        } else {
            prev
        }
    }
}

/// The representative cluster `i` ends a full assignment pass with.
pub open spec fn next_rep(g: Grid, reps: Seq<u8>, i: int) -> u8 {
    recalced_color(reps[i], assigned_colors(g, reps, i, g.width * g.height))
}

/// All representatives after one full assignment pass.
pub open spec fn next_reps(g: Grid, reps: Seq<u8>) -> Seq<u8> {
    Seq::new(reps.len(), |i: int| next_rep(g, reps, i))
}

/// One clustering iteration: clears every cluster's assignment, assigns
/// each grid pixel in scan order to the cluster with the nearest
/// representative (ties to the lowest index), and then moves every
/// representative to the truncated mean of its assigned intensities.
pub fn iteration(grid: &Grid, clusters: &mut Vec<ClusterCenter>)
    requires
        grid.wf(),
        old(clusters).len() >= 1,
    ensures
        final(clusters).len() == old(clusters).len(),
        forall|i: int| #![trigger final(clusters)@[i]]
            0 <= i < old(clusters).len() ==> {
                &&& final(clusters)@[i].pixel_coords@ == assigned_coords(
                    *grid,
                    reps_of(old(clusters)@),
                    i,
                    grid.width * grid.height,
                )
                &&& final(clusters)@[i].pixel_colors@ == assigned_colors(
                    *grid,
                    reps_of(old(clusters)@),
                    i,
                    grid.width * grid.height,
                )
                &&& final(clusters)@[i].color == next_rep(*grid, reps_of(old(clusters)@), i)
            },
        reps_of(final(clusters)@) == next_reps(*grid, reps_of(old(clusters)@)),
{
    let ghost reps = reps_of(old(clusters)@);
    let n = clusters.len();
    let mut i: usize = 0;
    while i < n
        invariant
            i <= n,
            n == clusters.len(),
            reps == reps_of(old(clusters)@),
            reps.len() == n,
            reps_of(clusters@) == reps,
            forall|m: int| #![trigger clusters@[m]]
                0 <= m < i ==> clusters@[m].pixel_coords@.len() == 0
                    && clusters@[m].pixel_colors@.len() == 0,
            forall|m: int| #![trigger clusters@[m]]
                i <= m < n ==> clusters@[m] == old(clusters)@[m],
        decreases n - i,
    {
        clusters[i].reset_pixels();
        proof {
            assert(reps_of(clusters@) =~= reps);
        }
        i = i + 1;
    }

    let w = grid.width;
    let h = grid.height;
    let ghost hh = h as int;
    let mut x: usize = 0;
    while x < w
        invariant
            x <= w,
            w == grid.width,
            h == grid.height,
            hh == h as int,
            grid.wf(),
            n == clusters.len(),
            n >= 1,
            reps == reps_of(old(clusters)@),
            reps.len() == n,
            reps_of(clusters@) == reps,
            forall|m: int| #![trigger clusters@[m]]
                0 <= m < n ==> clusters@[m].pixel_coords@ == assigned_coords(
                    *grid, reps, m, x as int * hh)
                    && clusters@[m].pixel_colors@ == assigned_colors(
                        *grid, reps, m, x as int * hh),
        decreases w - x,
    {
        let mut y: usize = 0;
        while y < h
            invariant
                x < w,
                y <= h,
                w == grid.width,
                h == grid.height,
                hh == h as int,
                grid.wf(),
                n == clusters.len(),
                n >= 1,
                reps == reps_of(old(clusters)@),
                reps.len() == n,
                reps_of(clusters@) == reps,
                forall|m: int| #![trigger clusters@[m]]
                    0 <= m < n ==> clusters@[m].pixel_coords@ == assigned_coords(
                        *grid, reps, m, x as int * hh + y as int)
                        && clusters@[m].pixel_colors@ == assigned_colors(
                            *grid, reps, m, x as int * hh + y as int),
            decreases h - y,
        {
            let ghost k = x as int * hh + y as int;
            proof {
                lemma_scan_step_of_coord(w as int, hh, x as int, y as int);
            }
            let v = grid.get(x, y);
            let id = find_best(clusters, v);
            clusters[id].add_pixel(v, (x, y));
            proof {
                assert(reps_of(clusters@) =~= reps);
                assert forall|m: int| #![trigger clusters@[m]]
                    0 <= m < n implies clusters@[m].pixel_coords@ == assigned_coords(
                        *grid, reps, m, k + 1)
                        && clusters@[m].pixel_colors@ == assigned_colors(
                            *grid, reps, m, k + 1) by {
                    assert(scan_x(k, hh) == x as int && scan_y(k, hh) == y as int);
                    assert(best_index(reps, grid.pix(x as int, y as int)) == id);
                }
                assert(x as int * hh + (y + 1) == k + 1);
            }
            y = y + 1;
        }
        proof {
            assert(x as int * hh + hh == (x + 1) as int * hh) by (nonlinear_arith);
        }
        x = x + 1;
    }

    let ghost total = w as int * hh;
    proof {
        assert(total == grid.width * grid.height);
    }
    let mut i2: usize = 0;
    while i2 < n
        invariant
            i2 <= n,
            n == clusters.len(),
            grid.wf(),
            w == grid.width,
            h == grid.height,
            total == grid.width * grid.height,
            reps == reps_of(old(clusters)@),
            reps.len() == n,
            forall|m: int| #![trigger clusters@[m]]
                0 <= m < n ==> clusters@[m].pixel_coords@ == assigned_coords(
                    *grid, reps, m, total)
                    && clusters@[m].pixel_colors@ == assigned_colors(*grid, reps, m, total),
            forall|m: int| #![trigger clusters@[m]] 0 <= m < i2 ==> clusters@[m].color
                == next_rep(*grid, reps, m),
            forall|m: int| #![trigger clusters@[m]] i2 <= m < n ==> clusters@[m].color == reps[m],
        decreases n - i2,
    {
        clusters[i2].recalculate();
        i2 = i2 + 1;
    }
    proof {
        assert(reps_of(clusters@) =~= next_reps(*grid, reps));
    }
}

/// The scan step at which a coordinate is visited.
pub open spec fn scan_step_of(c: (usize, usize), h: int) -> int {
    c.0 * h + c.1
}

/// Invariants of the assignment after `k` scan steps: every listed
/// coordinate is in range, was scanned, belongs to its list's cluster,
/// and is listed together with its intensity; lists grow in scan order;
/// and every scanned pixel is listed under its best cluster.
proof fn lemma_assigned_props(g: Grid, reps: Seq<u8>, k: int)
    requires
        g.wf(),
        reps.len() >= 1,
        0 <= k <= g.width * g.height,
    ensures
        forall|i: int| #![trigger assigned_coords(g, reps, i, k)]
            0 <= i < reps.len() ==> assigned_colors(g, reps, i, k).len() == assigned_coords(
                g, reps, i, k).len(),
        forall|i: int, j: int| #![trigger assigned_coords(g, reps, i, k)[j]]
            0 <= i < reps.len() && 0 <= j < assigned_coords(g, reps, i, k).len() ==> {
                let c = assigned_coords(g, reps, i, k)[j];
                &&& g.valid(c.0 as int, c.1 as int)
                &&& scan_step_of(c, g.height as int) < k
                &&& best_index(reps, g.pix(c.0 as int, c.1 as int)) == i
                &&& assigned_colors(g, reps, i, k)[j] == g.pix(c.0 as int, c.1 as int)
            },
        forall|i: int, j1: int, j2: int|
            #![trigger assigned_coords(g, reps, i, k)[j1], assigned_coords(g, reps, i, k)[j2]]
            0 <= i < reps.len() && 0 <= j1 < j2 < assigned_coords(g, reps, i, k).len()
                ==> scan_step_of(assigned_coords(g, reps, i, k)[j1], g.height as int)
                    < scan_step_of(assigned_coords(g, reps, i, k)[j2], g.height as int),
        forall|x: int, y: int| #![trigger g.pix(x, y)]
            g.valid(x, y) && x * (g.height as int) + y < k ==> assigned_coords(
                g, reps, best_index(reps, g.pix(x, y)), k).contains((x as usize, y as usize)),
    decreases k,
{
    broadcast use vstd::seq_lib::lemma_seq_contains_after_push;

    let w = g.width as int;
    let h = g.height as int;
    if k > 0 {
        lemma_assigned_props(g, reps, k - 1);
        lemma_scan_coord_in_range(w, h, k - 1);
        let cx = scan_x(k - 1, h);
        let cy = scan_y(k - 1, h);
        let b = best_index(reps, g.pix(cx, cy));
        lemma_best_index_is_best(reps, g.pix(cx, cy));
        let c = ((cx as usize), (cy as usize));
        assert(scan_step_of(c, h) == k - 1);
        assert forall|i: int| #![trigger assigned_coords(g, reps, i, k)]
            0 <= i < reps.len() implies {
            let prev = assigned_coords(g, reps, i, k - 1);
            let prevc = assigned_colors(g, reps, i, k - 1);
            if i == b {
                assigned_coords(g, reps, i, k) == prev.push(c) && assigned_colors(g, reps, i, k)
                    == prevc.push(g.pix(cx, cy))
            } else {
                assigned_coords(g, reps, i, k) == prev && assigned_colors(g, reps, i, k) == prevc
            }
        } by {
            assert(assigned_coords(g, reps, i, k) == if b == i {
                assigned_coords(g, reps, i, k - 1).push(c)
            } else {
                assigned_coords(g, reps, i, k - 1)
            });
            assert(assigned_colors(g, reps, i, k) == if b == i {
                assigned_colors(g, reps, i, k - 1).push(g.pix(cx, cy))
            } else {
                assigned_colors(g, reps, i, k - 1)
            });
        }
        assert forall|i: int, j: int| #![trigger assigned_coords(g, reps, i, k)[j]]
            0 <= i < reps.len() && 0 <= j < assigned_coords(g, reps, i, k).len() implies {
            let cc = assigned_coords(g, reps, i, k)[j];
            &&& g.valid(cc.0 as int, cc.1 as int)
            &&& scan_step_of(cc, h) < k
            &&& best_index(reps, g.pix(cc.0 as int, cc.1 as int)) == i
            &&& assigned_colors(g, reps, i, k)[j] == g.pix(cc.0 as int, cc.1 as int)
        } by {
            let prev = assigned_coords(g, reps, i, k - 1);
            if i == b && j == prev.len() {
                assert(assigned_coords(g, reps, i, k)[j] == c);
                assert(assigned_colors(g, reps, i, k)[j] == g.pix(cx, cy));
            } else {
                assert(assigned_coords(g, reps, i, k)[j] == prev[j]);
                assert(assigned_colors(g, reps, i, k)[j] == assigned_colors(g, reps, i, k - 1)[j]);
            }
        }
        assert forall|x: int, y: int| #![trigger g.pix(x, y)]
            g.valid(x, y) && x * h + y < k implies assigned_coords(
                g, reps, best_index(reps, g.pix(x, y)), k).contains((x as usize, y as usize)) by {
            lemma_scan_step_of_coord(w, h, x, y);
            if x * h + y < k - 1 {
                assert(assigned_coords(g, reps, best_index(reps, g.pix(x, y)), k - 1).contains(
                    (x as usize, y as usize)));
            } else {
                assert(x == cx && y == cy);
                assert(assigned_coords(g, reps, b, k).last() == c);
                assert(assigned_coords(g, reps, b, k).contains(c));
            }
        }
    }
}

/// Law: after a full assignment pass, every grid pixel belongs to exactly
/// one cluster: the coordinate lists jointly cover the grid, no list
/// repeats a coordinate, no coordinate appears in two lists, and every
/// listed coordinate is in range and assigned to its nearest
/// representative.
pub proof fn lemma_coverage(g: Grid, reps: Seq<u8>)
    requires
        g.wf(),
        reps.len() >= 1,
    ensures
        forall|x: int, y: int| #![trigger g.pix(x, y)]
            g.valid(x, y) ==> assigned_coords(
                g, reps, best_index(reps, g.pix(x, y)), g.width * g.height).contains(
                (x as usize, y as usize)),
        forall|i: int, j: int|
            #![trigger assigned_coords(g, reps, i, g.width * g.height)[j]]
            0 <= i < reps.len() && 0 <= j < assigned_coords(g, reps, i, g.width * g.height).len()
                ==> {
                let c = assigned_coords(g, reps, i, g.width * g.height)[j];
                &&& g.valid(c.0 as int, c.1 as int)
                &&& best_index(reps, g.pix(c.0 as int, c.1 as int)) == i
            },
        forall|i: int, j1: int, j2: int|
            #![trigger assigned_coords(g, reps, i, g.width * g.height)[j1],
                assigned_coords(g, reps, i, g.width * g.height)[j2]]
            0 <= i < reps.len() && 0 <= j1 < assigned_coords(g, reps, i, g.width * g.height).len()
                && 0 <= j2 < assigned_coords(g, reps, i, g.width * g.height).len() && j1 != j2
                ==> assigned_coords(g, reps, i, g.width * g.height)[j1] != assigned_coords(
                    g, reps, i, g.width * g.height)[j2],
        forall|i1: int, i2: int, j1: int, j2: int|
            #![trigger assigned_coords(g, reps, i1, g.width * g.height)[j1],
                assigned_coords(g, reps, i2, g.width * g.height)[j2]]
            0 <= i1 < reps.len() && 0 <= i2 < reps.len() && i1 != i2
                && 0 <= j1 < assigned_coords(g, reps, i1, g.width * g.height).len()
                && 0 <= j2 < assigned_coords(g, reps, i2, g.width * g.height).len()
                ==> assigned_coords(g, reps, i1, g.width * g.height)[j1] != assigned_coords(
                    g, reps, i2, g.width * g.height)[j2],
{
    let total = g.width * g.height;
    lemma_assigned_props(g, reps, total);
    assert forall|x: int, y: int| #![trigger g.pix(x, y)] g.valid(x, y)
        implies x * (g.height as int) + y < total by {
        lemma_scan_step_of_coord(g.width as int, g.height as int, x, y);
    }
}

/// Every coordinate listed by the clusters is in range for the grid.
pub open spec fn coords_in_range(g: Grid, cs: Seq<ClusterCenter>) -> bool {
    forall|i: int, j: int| #![trigger cs[i].pixel_coords@[j]]
        0 <= i < cs.len() && 0 <= j < cs[i].pixel_coords@.len() ==> g.valid(
            cs[i].pixel_coords@[j].0 as int,
            cs[i].pixel_coords@[j].1 as int,
        )
}

/// No coordinate is listed twice, within one cluster or across two.
pub open spec fn coords_distinct(cs: Seq<ClusterCenter>) -> bool {
    forall|i1: int, j1: int, i2: int, j2: int|
        #![trigger cs[i1].pixel_coords@[j1], cs[i2].pixel_coords@[j2]]
        0 <= i1 < cs.len() && 0 <= j1 < cs[i1].pixel_coords@.len() && 0 <= i2 < cs.len() && 0
            <= j2 < cs[i2].pixel_coords@.len() && (i1 != i2 || j1 != j2)
            ==> cs[i1].pixel_coords@[j1] != cs[i2].pixel_coords@[j2]
}

/// Whether some cluster lists the coordinate (x, y).
pub open spec fn listed_coord(cs: Seq<ClusterCenter>, x: int, y: int) -> bool {
    exists|i: int, j: int| #![trigger cs[i].pixel_coords@[j]]
        0 <= i < cs.len() && 0 <= j < cs[i].pixel_coords@.len() && cs[i].pixel_coords@[j] == ((
        x as usize,
        y as usize,
        ))
}

/// The final pass: overwrites every assigned coordinate with its
/// cluster's representative intensity, leaving unassigned pixels alone.
pub fn finalize(grid: &mut Grid, clusters: &Vec<ClusterCenter>)
    requires
        old(grid).wf(),
        coords_in_range(*old(grid), clusters@),
        coords_distinct(clusters@),
    ensures
        final(grid).wf(),
        final(grid).width == old(grid).width,
        final(grid).height == old(grid).height,
        forall|i: int, j: int| #![trigger clusters@[i].pixel_coords@[j]]
            0 <= i < clusters@.len() && 0 <= j < clusters@[i].pixel_coords@.len()
                ==> final(grid).pix(
                clusters@[i].pixel_coords@[j].0 as int,
                clusters@[i].pixel_coords@[j].1 as int,
            ) == clusters@[i].color,
        forall|x: int, y: int| #![trigger final(grid).pix(x, y)]
            old(grid).valid(x, y) && !listed_coord(clusters@, x, y) ==> final(grid).pix(x, y)
                == old(grid).pix(x, y),
{
    let n = clusters.len();
    let mut i: usize = 0;
    while i < n
        invariant
            i <= n,
            n == clusters.len(),
            grid.wf(),
            grid.width == old(grid).width,
            grid.height == old(grid).height,
            coords_in_range(*old(grid), clusters@),
            coords_distinct(clusters@),
            forall|i2: int, j2: int| #![trigger clusters@[i2].pixel_coords@[j2]]
                0 <= i2 < i && 0 <= j2 < clusters@[i2].pixel_coords@.len() ==> grid.pix(
                    clusters@[i2].pixel_coords@[j2].0 as int,
                    clusters@[i2].pixel_coords@[j2].1 as int,
                ) == clusters@[i2].color,
            forall|x: int, y: int| #![trigger grid.pix(x, y)]
                old(grid).valid(x, y) && !listed_coord(clusters@, x, y) ==> grid.pix(x, y)
                    == old(grid).pix(x, y),
        decreases n - i,
    {
        let m = clusters[i].pixel_coords.len();
        let color = clusters[i].color;
        let mut j: usize = 0;
        while j < m
            invariant
                i < n,
                j <= m,
                n == clusters.len(),
                m == clusters@[i as int].pixel_coords@.len(),
                color == clusters@[i as int].color,
                grid.wf(),
                grid.width == old(grid).width,
                grid.height == old(grid).height,
                coords_in_range(*old(grid), clusters@),
                coords_distinct(clusters@),
                forall|i2: int, j2: int| #![trigger clusters@[i2].pixel_coords@[j2]]
                    0 <= i2 < n && 0 <= j2 < clusters@[i2].pixel_coords@.len() && (i2 < i || (i2
                        == i && j2 < j)) ==> grid.pix(
                        clusters@[i2].pixel_coords@[j2].0 as int,
                        clusters@[i2].pixel_coords@[j2].1 as int,
                    ) == clusters@[i2].color,
                forall|x: int, y: int| #![trigger grid.pix(x, y)]
                    old(grid).valid(x, y) && !listed_coord(clusters@, x, y) ==> grid.pix(x, y)
                        == old(grid).pix(x, y),
            decreases m - j,
        {
            let coord = clusters[i].pixel_coords[j];
            grid.set(coord.0, coord.1, color);
            proof {
                assert forall|x: int, y: int| #![trigger grid.pix(x, y)]
                    old(grid).valid(x, y) && !listed_coord(clusters@, x, y) implies grid.pix(x, y)
                        == old(grid).pix(x, y) by {
                    if x == coord.0 as int && y == coord.1 as int {
                        assert(clusters@[i as int].pixel_coords@[j as int] == ((
                            x as usize,
                            y as usize,
                        )));
                        assert(listed_coord(clusters@, x, y));
                    }
                }
            }
            j = j + 1;
        }
        i = i + 1;
    }
}

/// Relies on rand::random: one uniformly sampled 8-bit value.  The result
/// is arbitrary, so nothing is assumed of it.
#[verifier::external_body]
fn random_intensity() -> u8 {
    rand::random::<u8>()
}

/// Creates `n` clusters with representative intensities sampled uniformly
/// at random from the full 8-bit range and no assigned pixels.
pub fn generate_clusters(n: usize) -> (cs: Vec<ClusterCenter>)
    ensures
        cs@.len() == n,
        forall|i: int| #![trigger cs@[i]]
            0 <= i < n ==> cs@[i].pixel_colors@.len() == 0 && cs@[i].pixel_coords@.len() == 0,
{
    let mut cs: Vec<ClusterCenter> = Vec::new();
    let mut i: usize = 0;
    while i < n
        invariant
            i <= n,
            cs@.len() == i,
            forall|m: int| #![trigger cs@[m]]
                0 <= m < i ==> cs@[m].pixel_colors@.len() == 0 && cs@[m].pixel_coords@.len() == 0,
        decreases n - i,
    {
        cs.push(ClusterCenter::new(random_intensity()));
        i = i + 1;
    }
    cs
}

/// Creates one cluster per given representative, with no assigned pixels.
/// Starting from these, the whole segmentation is deterministic.
pub fn clusters_from_reps(reps: &Vec<u8>) -> (cs: Vec<ClusterCenter>)
    ensures
        cs@.len() == reps@.len(),
        reps_of(cs@) == reps@,
        forall|i: int| #![trigger cs@[i]]
            0 <= i < reps@.len() ==> cs@[i].pixel_colors@.len() == 0 && cs@[i].pixel_coords@.len()
                == 0,
{
    let mut cs: Vec<ClusterCenter> = Vec::new();
    let mut i: usize = 0;
    while i < reps.len()
        invariant
            i <= reps@.len(),
            cs@.len() == i,
            forall|m: int| #![trigger cs@[m]]
                0 <= m < i ==> cs@[m].color == reps@[m] && cs@[m].pixel_colors@.len() == 0
                    && cs@[m].pixel_coords@.len() == 0,
        decreases reps@.len() - i,
    {
        cs.push(ClusterCenter::new(reps[i]));
        i = i + 1;
    }
    proof {
        assert(reps_of(cs@) =~= reps@);
    }
    cs
}

/// Law: once no pixel changes cluster between two passes, the
/// representatives stop changing as well: each one is already the
/// truncated mean of its unchanged assignment, or keeps its value when
/// its cluster is empty.
pub proof fn lemma_stable_assignment_fixes_reps(g: Grid, reps: Seq<u8>)
    requires
        g.wf(),
        reps.len() >= 1,
        forall|i: int| 0 <= i < reps.len() ==> #[trigger] assigned_colors(
            g,
            next_reps(g, reps),
            i,
            g.width * g.height,
        ) == assigned_colors(g, reps, i, g.width * g.height),
    ensures
        next_reps(g, next_reps(g, reps)) == next_reps(g, reps),
{
    let r1 = next_reps(g, reps);
    let r2 = next_reps(g, r1);
    assert forall|i: int| 0 <= i < reps.len() implies r2[i] == r1[i] by {
        let colors = assigned_colors(g, reps, i, g.width * g.height);
        assert(r1[i] == recalced_color(reps[i], colors));
        assert(r2[i] == recalced_color(r1[i], colors));
    }
    assert(r2 =~= r1);
}

/// Law: once the representatives are at a fixed point of the update, one
/// more iteration changes neither the representatives nor the assignment.
pub proof fn lemma_convergence_stable(g: Grid, reps: Seq<u8>)
    requires
        g.wf(),
        reps.len() >= 1,
        next_reps(g, reps) == reps,
    ensures
        next_reps(g, next_reps(g, reps)) == reps,
        forall|i: int| #![trigger assigned_coords(g, next_reps(g, reps), i, g.width * g.height)]
            0 <= i < reps.len() ==> assigned_coords(g, next_reps(g, reps), i, g.width * g.height)
                == assigned_coords(g, reps, i, g.width * g.height),
{
}

/// The representatives after `t` full assignment passes.
pub open spec fn reps_after(g: Grid, reps: Seq<u8>, t: int) -> Seq<u8>
    decreases t,
{
    if t <= 0 {
        reps
    } else {
        next_reps(g, reps_after(g, reps, t - 1))
    }
}

/// An assignment pass keeps the number of representatives.
pub proof fn lemma_reps_after_len(g: Grid, reps: Seq<u8>, t: int)
    ensures
        reps_after(g, reps, t).len() == reps.len(),
    decreases t,
{
    if t > 0 {
        lemma_reps_after_len(g, reps, t - 1);
    }
}

/// Runs the whole segmentation: `iterations` assignment passes starting
/// from the clusters' current representatives, then the final rewrite of
/// the grid.  Given the initial representatives, the outcome is a
/// function of the input grid alone: the contract pins the final
/// representatives, the final assignment, and every final pixel, which
/// then carries one of the final representative intensities.
pub fn segment(grid: &mut Grid, clusters: &mut Vec<ClusterCenter>, iterations: usize)
    requires
        old(grid).wf(),
        old(clusters).len() >= 1,
        forall|i: int| #![trigger old(clusters)@[i]]
            0 <= i < old(clusters).len() ==> old(clusters)@[i].pixel_colors@.len() == 0
                && old(clusters)@[i].pixel_coords@.len() == 0,
    ensures
        final(grid).wf(),
        final(grid).width == old(grid).width,
        final(grid).height == old(grid).height,
        final(clusters).len() == old(clusters).len(),
        reps_of(final(clusters)@) == reps_after(
            *old(grid),
            reps_of(old(clusters)@),
            iterations as int,
        ),
        iterations == 0 ==> forall|x: int, y: int| #![trigger final(grid).pix(x, y)]
            old(grid).valid(x, y) ==> final(grid).pix(x, y) == old(grid).pix(x, y),
        iterations >= 1 ==> forall|i: int| #![trigger final(clusters)@[i]]
            0 <= i < old(clusters).len() ==> final(clusters)@[i].pixel_coords@ == assigned_coords(
                *old(grid),
                reps_after(*old(grid), reps_of(old(clusters)@), iterations - 1),
                i,
                old(grid).width * old(grid).height,
            ) && final(clusters)@[i].pixel_colors@ == assigned_colors(
                *old(grid),
                reps_after(*old(grid), reps_of(old(clusters)@), iterations - 1),
                i,
                old(grid).width * old(grid).height,
            ),
        iterations >= 1 ==> forall|x: int, y: int| #![trigger final(grid).pix(x, y)]
            old(grid).valid(x, y) ==> final(grid).pix(x, y) == reps_after(
                *old(grid),
                reps_of(old(clusters)@),
                iterations as int,
            )[best_index(
                reps_after(*old(grid), reps_of(old(clusters)@), iterations - 1),
                old(grid).pix(x, y),
            )],
        iterations >= 1 ==> forall|x: int, y: int| #![trigger old(grid).pix(x, y)]
            old(grid).valid(x, y) ==> 0 <= best_index(
                reps_after(*old(grid), reps_of(old(clusters)@), iterations - 1),
                old(grid).pix(x, y),
            ) < old(clusters).len(),
{
    let ghost g0 = *old(grid);
    let ghost reps0 = reps_of(old(clusters)@);
    let n = clusters.len();
    let ghost total = g0.width * g0.height;
    let mut t: usize = 0;
    while t < iterations
        invariant
            t <= iterations,
            grid.wf(),
            *grid == g0,
            n == clusters.len(),
            n >= 1,
            reps0 == reps_of(old(clusters)@),
            reps0.len() == n,
            total == g0.width * g0.height,
            reps_of(clusters@) == reps_after(g0, reps0, t as int),
            t == 0 ==> clusters@ == old(clusters)@,
            t >= 1 ==> forall|i: int| #![trigger clusters@[i]]
                0 <= i < n ==> clusters@[i].pixel_coords@ == assigned_coords(
                    g0,
                    reps_after(g0, reps0, t - 1),
                    i,
                    total,
                ) && clusters@[i].pixel_colors@ == assigned_colors(
                    g0,
                    reps_after(g0, reps0, t - 1),
                    i,
                    total,
                ),
        decreases iterations - t,
    {
        proof {
            lemma_reps_after_len(g0, reps0, t as int);
        }
        iteration(grid, clusters);
        t = t + 1;
    }
    proof {
        lemma_reps_after_len(g0, reps0, iterations as int);
        if iterations >= 1 {
            let reps_prev = reps_after(g0, reps0, iterations - 1);
            lemma_reps_after_len(g0, reps0, iterations - 1);
            lemma_coverage(g0, reps_prev);
            assert forall|i1: int, j1: int, i2: int, j2: int|
                #![trigger clusters@[i1].pixel_coords@[j1], clusters@[i2].pixel_coords@[j2]]
                0 <= i1 < n && 0 <= j1 < clusters@[i1].pixel_coords@.len() && 0 <= i2 < n && 0
                    <= j2 < clusters@[i2].pixel_coords@.len() && (i1 != i2 || j1 != j2)
                implies clusters@[i1].pixel_coords@[j1] != clusters@[i2].pixel_coords@[j2] by {
                assert(clusters@[i1].pixel_coords@ == assigned_coords(g0, reps_prev, i1, total));
                assert(clusters@[i2].pixel_coords@ == assigned_coords(g0, reps_prev, i2, total));
            }
            assert(coords_distinct(clusters@));
            assert(coords_in_range(*grid, clusters@));
        } else {
            assert(coords_in_range(*grid, clusters@));
            assert(coords_distinct(clusters@));
        }
    }
    let ghost cs_before = clusters@;
    finalize(grid, clusters);
    proof {
        if iterations >= 1 {
            let reps_prev = reps_after(g0, reps0, iterations - 1);
            let reps_fin = reps_after(g0, reps0, iterations as int);
            assert(reps_fin == next_reps(g0, reps_prev));
            assert forall|x: int, y: int| #![trigger final(grid).pix(x, y)]
                g0.valid(x, y) implies final(grid).pix(x, y) == reps_fin[best_index(
                    reps_prev,
                    g0.pix(x, y),
                )] by {
                let b = best_index(reps_prev, g0.pix(x, y));
                lemma_best_index_is_best(reps_prev, g0.pix(x, y));
                assert(assigned_coords(g0, reps_prev, b, total).contains(
                    ((x as usize), (y as usize)),
                ));
                let j = choose|j: int|
                    0 <= j < assigned_coords(g0, reps_prev, b, total).len() && assigned_coords(
                        g0,
                        reps_prev,
                        b,
                        total,
                    )[j] == ((x as usize), (y as usize));
                assert(cs_before[b].pixel_coords@[j] == ((x as usize), (y as usize)));
                assert(final(grid).pix(
                    cs_before[b].pixel_coords@[j].0 as int,
                    cs_before[b].pixel_coords@[j].1 as int,
                ) == cs_before[b].color);
            }
            assert forall|x: int, y: int| #![trigger final(grid).pix(x, y)]
                old(grid).valid(x, y) implies final(grid).pix(x, y) == reps_after(
                    *old(grid),
                    reps_of(old(clusters)@),
                    iterations as int,
                )[best_index(
                    reps_after(*old(grid), reps_of(old(clusters)@), iterations - 1),
                    old(grid).pix(x, y),
                )] by {
                assert(final(grid).pix(x, y) == reps_fin[best_index(reps_prev, g0.pix(x, y))]);
            }
            assert forall|x: int, y: int| #![trigger old(grid).pix(x, y)]
                old(grid).valid(x, y) implies 0 <= best_index(
                    reps_after(*old(grid), reps_of(old(clusters)@), iterations - 1),
                    old(grid).pix(x, y),
                ) < old(clusters).len() by {
                lemma_best_index_is_best(reps_prev, g0.pix(x, y));
            }
        } else {
            assert forall|x: int, y: int| #![trigger final(grid).pix(x, y)]
                g0.valid(x, y) implies final(grid).pix(x, y) == g0.pix(x, y) by {
                assert(!listed_coord(cs_before, x, y));
            }
        }
    }
}

} // verus!
