use crate::camera::{Camera, RealPoint};
use crate::color::{gradient, grad_spec, Color};
use crate::density::{acc_spec, DensityGrid};
use vstd::prelude::*;

verus! {

/// A density count clamped to the gradient table's index range,
/// saturating instead of wrapping.
pub open spec fn sat255(c: u64) -> int {
    if c > 255 {
        255int
    } else {
        c as int
    }
}

/// The 256-entry lookup table built from the control colors.
pub open spec fn table_spec(stops: Seq<Color>) -> Seq<Color> {
    Seq::new(256, |i: int| grad_spec(stops, i))
}

/// The color buffer of a whole frame: the point sequence folded into a
/// fresh screen-sized density grid, each count saturated to the table's
/// index range and looked up in the table built from the stops.
pub open spec fn render_spec(cam: Camera, stops: Seq<Color>, pts: Seq<RealPoint>) -> Seq<Color> {
    let zero = Seq::new((cam.screen_size.0 * cam.screen_size.1) as nat, |i: int| 0u64);
    let cells = acc_spec(zero, cam, pts);
    Seq::new(cells.len(), |k: int| table_spec(stops)[sat255(cells[k])])
}

/// Two saturated density counts at or above the table's top index map to
/// the same table entry, whatever the counts are.
pub proof fn lemma_index_saturation(c1: u64, c2: u64)
    requires
        c1 >= 255,
        c2 >= 255,
    ensures
        sat255(c1) == sat255(c2),
{
}

/// Rendering is a pure function of the camera, the control colors and
/// the point sequence: identical parameters give an identical color
/// buffer, so two runs of the renderer produce byte-identical frames.
pub proof fn lemma_render_deterministic(
    cam1: Camera,
    cam2: Camera,
    stops1: Seq<Color>,
    stops2: Seq<Color>,
    pts1: Seq<RealPoint>,
    pts2: Seq<RealPoint>,
)
    requires
        cam1 == cam2,
        stops1 == stops2,
        pts1 == pts2,
    ensures
        render_spec(cam1, stops1, pts1) == render_spec(cam2, stops2, pts2),
{
}

/// Convert every density count to a color: saturate it to the table's
/// index range and look it up, keeping the grid's row-major order.
pub fn assemble(grid: &DensityGrid, table: &Vec<Color>) -> (img: Vec<Color>)
    requires
        grid.wf(),
        table@.len() == 256,
    ensures
        img@.len() == grid.counts@.len(),
        forall|k: int| 0 <= k < img@.len() ==> img@[k] == table@[sat255(grid.counts@[k])],
{
    let mut img: Vec<Color> = Vec::new();
    let n: usize = grid.counts.len();
    let mut k: usize = 0;
    while k < n
        invariant
            n == grid.counts@.len(),
            table@.len() == 256,
            k <= n,
            img@.len() == k,
            forall|j: int| 0 <= j < k ==> img@[j] == table@[sat255(grid.counts@[j])],
        decreases n - k,
    {
        let c: u64 = grid.counts[k];
        let idx: usize = if c > 255 {
            255
        } else {
            c as usize
        };
        img.push(table[idx]);
        k = k + 1;
    }
    img
}

/// Render a whole frame: build the gradient table from the stops, fold
/// the point sequence into a fresh density grid sized to the camera's
/// screen, and map every count to its color.
pub fn render(cam: &Camera, stops: Vec<Color>, points: &Vec<RealPoint>) -> (img: Vec<Color>)
    requires
        cam.wf(),
        stops@.len() <= 256,
    ensures
        img@ == render_spec(*cam, stops@, points@),
{
    let ghost stops_view = stops@;
    let table = gradient(stops);
    let mut grid = DensityGrid::new(cam.screen_size.0, cam.screen_size.1);
    grid.accumulate(cam, points);
    let img = assemble(&grid, &table);
    proof {
        assert(table@ =~= table_spec(stops_view));
        assert(img@ =~= render_spec(*cam, stops_view, points@));
    }
    img
}

} // verus!
