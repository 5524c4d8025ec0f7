use crate::camera::{Camera, PixelPoint, RealPoint, SCREEN_DIM_MAX};
use vstd::pervasive::VecAdditionalExecFns;
use vstd::prelude::*;

verus! {

/// Row-major cell index of a pixel in a grid `w` cells wide.
pub open spec fn idx_of(p: PixelPoint, w: int) -> int {
    p.y * w + p.x
}

/// A visitation count grown by one, saturating at the counter's limit.
pub open spec fn bump(c: u64) -> u64 {
    if c < u64::MAX {
        (c + 1) as u64
    } else {
        c
    }
}

/// The cells after one plane point is folded in: the cell the camera maps
/// the point to is bumped, and a point outside the screen changes nothing.
pub open spec fn step_spec(cells: Seq<u64>, cam: Camera, pt: RealPoint) -> Seq<u64> {
    match cam.to_screen_spec(pt) {
        Some(p) => cells.update(
            idx_of(p, cam.screen_size.0 as int),
            bump(cells[idx_of(p, cam.screen_size.0 as int)]),
        ),
        None => cells,
    }
}

/// The cells after a whole point sequence is folded in, in order.
pub open spec fn acc_spec(cells: Seq<u64>, cam: Camera, pts: Seq<RealPoint>) -> Seq<u64>
    decreases pts.len(),
{
    if pts.len() == 0 {
        cells
    } else {
        step_spec(acc_spec(cells, cam, pts.drop_last()), cam, pts.last())
    }
}

/// How many points of the sequence the camera maps onto the screen.
pub open spec fn hits(cam: Camera, pts: Seq<RealPoint>) -> int
    decreases pts.len(),
{
    if pts.len() == 0 {
        0
    } else {
        hits(cam, pts.drop_last()) + if cam.to_screen_spec(pts.last()) is Some {
            1int
        } else {
            0int
        }
    }
}

/// Sum of all visitation counts.
pub open spec fn sum_cells(s: Seq<u64>) -> int
    decreases s.len(),
{
    if s.len() == 0 {
        0
    } else {
        sum_cells(s.drop_last()) + s.last()
    }
}

pub proof fn lemma_sum_nonneg(s: Seq<u64>)
    ensures
        sum_cells(s) >= 0,
    decreases s.len(),
{
    if s.len() > 0 {
        lemma_sum_nonneg(s.drop_last());
    }
}

/// No single cell exceeds the sum of all cells.
pub proof fn lemma_sum_ge_elem(s: Seq<u64>, i: int)
    requires
        0 <= i < s.len(),
    ensures
        sum_cells(s) >= s[i],
    decreases s.len(),
{
    if i == s.len() - 1 {
        lemma_sum_nonneg(s.drop_last());
    } else {
        lemma_sum_ge_elem(s.drop_last(), i);
    }
}

/// Replacing one cell changes the sum by the difference at that cell.
pub proof fn lemma_sum_update(s: Seq<u64>, i: int, v: u64)
    requires
        0 <= i < s.len(),
    ensures
        sum_cells(s.update(i, v)) == sum_cells(s) - s[i] + v,
    decreases s.len(),
{
    let t = s.update(i, v);
    if i == s.len() - 1 {
        assert(t.drop_last() =~= s.drop_last());
    } else {
        assert(t.drop_last() =~= s.drop_last().update(i, v));
        lemma_sum_update(s.drop_last(), i, v);
    }
}

/// The on-screen points are between none and all of them.
pub proof fn lemma_hits_bounds(cam: Camera, pts: Seq<RealPoint>)
    ensures
        0 <= hits(cam, pts) <= pts.len(),
    decreases pts.len(),
{
    if pts.len() > 0 {
        lemma_hits_bounds(cam, pts.drop_last());
    }
}

/// Accumulation only grows the grid: no cell's count ever shrinks, and
/// the grid keeps its size, however many points are folded in.
pub proof fn lemma_counts_only_grow(cells: Seq<u64>, cam: Camera, pts: Seq<RealPoint>)
    requires
        cam.wf(),
        cells.len() == cam.screen_size.0 * cam.screen_size.1,
    ensures
        acc_spec(cells, cam, pts).len() == cells.len(),
        forall|i: int|
            0 <= i < cells.len() ==> acc_spec(cells, cam, pts)[i] >= cells[i],
    decreases pts.len(),
{
    if pts.len() > 0 {
        lemma_counts_only_grow(cells, cam, pts.drop_last());
        if cam.to_screen_spec(pts.last()) is Some {
            lemma_screen_idx_in_range(cam, pts.last());
        }
    }
}

/// Per-pixel visitation counts for a screen-sized grid, row-major;
/// initialized to all zeros and only ever grown by the accumulator.
pub struct DensityGrid {
    pub counts: Vec<u64>,
    pub width: usize,
    pub height: usize,
}

impl DensityGrid {
    /// One cell per pixel, and dimensions small enough that every
    /// row-major index fits in `usize`.
    pub open spec fn wf(self) -> bool {
        &&& self.counts@.len() == self.width * self.height
        &&& self.width <= SCREEN_DIM_MAX
        &&& self.height <= SCREEN_DIM_MAX
    }

    /// A grid of the given dimensions with every count zero.
    pub fn new(width: usize, height: usize) -> (g: DensityGrid)
        requires
            width <= SCREEN_DIM_MAX,
            height <= SCREEN_DIM_MAX,
        ensures
            g.wf(),
            g.width == width,
            g.height == height,
            g.counts@ =~= Seq::new((width * height) as nat, |i: int| 0u64),
            sum_cells(g.counts@) == 0,
    {
        proof {
            assert(width * height <= 65535 * 65535) by (nonlinear_arith)
                requires
                    width <= 65535,
                    height <= 65535,
            ;
            assert(0 <= width * height) by (nonlinear_arith);
        }
        let n: usize = width * height;
        let mut counts: Vec<u64> = Vec::new();
        let mut i: usize = 0;
        while i < n
            invariant
                i <= n,
                counts@.len() == i,
                forall|j: int| 0 <= j < i ==> counts@[j] == 0u64,
                sum_cells(counts@) == 0,
            decreases n - i,
        {
            proof {
                assert(counts@.push(0u64).drop_last() =~= counts@);
            }
            counts.push(0u64);
            i = i + 1;
        }
        DensityGrid { counts, width, height }
    }

    /// Count of the grid cell at a pixel.
    pub fn count_at(&self, p: PixelPoint) -> (c: u64)
        requires
            self.wf(),
            p.x < self.width,
            p.y < self.height,
        ensures
            c == self.counts@[idx_of(p, self.width as int)],
    {
        proof {
            lemma_idx_in_range(p, self.width as int, self.height as int);
            lemma_grid_size_bound(self.width as int, self.height as int);
        }
        self.counts[p.y * self.width + p.x]
    }

    /// Fold one plane point into the grid: the cell the camera maps it to
    /// is incremented, a point outside the screen is discarded, and the
    /// result says which of the two happened.
    pub fn add_point(&mut self, cam: &Camera, pt: RealPoint) -> (counted: bool)
        requires
            old(self).wf(),
            cam.wf(),
            old(self).width == cam.screen_size.0,
            old(self).height == cam.screen_size.1,
        ensures
            final(self).wf(),
            final(self).width == old(self).width,
            final(self).height == old(self).height,
            final(self).counts@ == step_spec(old(self).counts@, *cam, pt),
            counted == (cam.to_screen_spec(pt) is Some),
    {
        match cam.to_screen(pt) {
            Some(p) => {
                proof {
                    lemma_idx_in_range(p, self.width as int, self.height as int);
                    lemma_grid_size_bound(self.width as int, self.height as int);
                }
                let idx: usize = p.y * self.width + p.x;
                let c: u64 = self.counts[idx];
                if c < u64::MAX {
                    self.counts.set(idx, c + 1);
                }
                true
            },
            None => false,
        }
    }

    /// Fold a finite prefix of the attractor's orbit into the grid, in
    /// order, and report how many points fell off screen and were
    /// discarded. As long as the total count stays within the counters'
    /// range, the grid's sum grows by exactly the number of points kept.
    pub fn accumulate(&mut self, cam: &Camera, points: &Vec<RealPoint>) -> (discarded: usize)
        requires
            old(self).wf(),
            cam.wf(),
            old(self).width == cam.screen_size.0,
            old(self).height == cam.screen_size.1,
        ensures
            final(self).wf(),
            final(self).width == old(self).width,
            final(self).height == old(self).height,
            final(self).counts@ == acc_spec(old(self).counts@, *cam, points@),
            discarded == points@.len() - hits(*cam, points@),
            sum_cells(old(self).counts@) + points@.len() <= u64::MAX ==> sum_cells(
                final(self).counts@,
            ) == sum_cells(old(self).counts@) + hits(*cam, points@),
    {
        let ghost cells0 = self.counts@;
        let ghost sum0 = sum_cells(self.counts@);
        let mut discarded: usize = 0;
        let mut i: usize = 0;
        while i < points.len()
            invariant
                self.wf(),
                cam.wf(),
                self.width == cam.screen_size.0,
                self.height == cam.screen_size.1,
                i <= points@.len(),
                self.counts@ == acc_spec(cells0, *cam, points@.take(i as int)),
                discarded == i - hits(*cam, points@.take(i as int)),
                sum0 == sum_cells(cells0),
                sum0 + points@.len() <= u64::MAX ==> sum_cells(self.counts@) == sum0 + hits(
                    *cam,
                    points@.take(i as int),
                ),
            decreases points@.len() - i,
        {
            proof {
                lemma_hits_bounds(*cam, points@.take(i as int));
                assert(points@.take(i + 1).drop_last() =~= points@.take(i as int));
                assert(points@.take(i + 1).last() == points@[i as int]);
            }
            let ghost pre = self.counts@;
            let counted = self.add_point(cam, points[i]);
            proof {
                if sum0 + points@.len() <= u64::MAX {
                    if counted {
                        let p = cam.to_screen_spec(points@[i as int])->Some_0;
                        let idx = idx_of(p, cam.screen_size.0 as int);
                        lemma_screen_idx_in_range(*cam, points@[i as int]);
                        lemma_sum_ge_elem(pre, idx);
                        lemma_sum_update(pre, idx, bump(pre[idx]));
                    }
                }
            }
            if !counted {
                discarded = discarded + 1;
            }
            i = i + 1;
        }
        proof {
            assert(points@.take(points@.len() as int) =~= points@);
            lemma_hits_bounds(*cam, points@);
        }
        discarded
    }
}

/// A pixel inside the grid has a row-major index inside the cell vector.
proof fn lemma_idx_in_range(p: PixelPoint, w: int, h: int)
    by (nonlinear_arith)
    requires
        0 <= p.x < w,
        0 <= p.y < h,
    ensures
        0 <= p.y * w + p.x < w * h,
        p.y * w + p.x <= (h - 1) * w + p.x,
{
}

/// A grid within the accepted dimensions has fewer cells than `usize`
/// can count.
proof fn lemma_grid_size_bound(w: int, h: int)
    by (nonlinear_arith)
    requires
        0 <= w <= 65535,
        0 <= h <= 65535,
    ensures
        w * h <= 65535 * 65535,
{
}

/// A pixel the camera produces is inside its own screen grid.
proof fn lemma_screen_idx_in_range(cam: Camera, pt: RealPoint)
    requires
        cam.wf(),
        cam.to_screen_spec(pt) is Some,
    ensures
        0 <= idx_of(cam.to_screen_spec(pt)->Some_0, cam.screen_size.0 as int) < cam.screen_size.0
            * cam.screen_size.1,
{
    let p = cam.to_screen_spec(pt)->Some_0;
    lemma_idx_in_range(p, cam.screen_size.0 as int, cam.screen_size.1 as int);
}

} // verus!
