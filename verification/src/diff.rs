//! Cheap frame-change detection. Rather than hashing every pixel, a coarse
//! grid of cells is sampled and each cell's average luminance kept. Two
//! frames are compared by the number of cells that changed noticeably.
use vstd::prelude::*;

use crate::image::{box_count, box_sum, box_sums, lemma_box_sum_bounds};

verus! {

/// Cells per side in the sampling grid. 24x24 = 576 samples per frame.
pub const SAMPLE_GRID: u32 = 24;

/// A per-cell byte difference of at least this marks the cell changed.
pub const CELL_CHANGE_DELTA: u8 = 24;

/// The pixel rectangle `x0..x1` × `y0..y1` sampled for one grid cell.
#[derive(Debug, Clone, Copy, PartialEq, Eq, Structural)]
pub struct CellBounds {
    pub x0: u32,
    pub x1: u32,
    pub y0: u32,
    pub y1: u32,
}

/// Compact, comparable representation of a frame's visual content.
#[derive(Debug, Clone, PartialEq, Eq)]
pub struct FrameSignature {
    cells: Vec<u8>,
}

/// The luminance byte of one cell: `(30 R + 59 G + 11 B) / 100` of the
/// cell's average color, 0 for an empty cell.
pub open spec fn cell_luma(px: Seq<u8>, width: int, b: CellBounds) -> int {
    let n = box_count(b.x0 as int, b.x1 as int, b.y0 as int, b.y1 as int);
    if n == 0 {
        0
    } else {
        let blue = box_sum(px, width * 4, b.x0 as int, b.x1 as int, b.y0 as int, b.y1 as int, 0);
        let green = box_sum(px, width * 4, b.x0 as int, b.x1 as int, b.y0 as int, b.y1 as int, 1);
        let red = box_sum(px, width * 4, b.x0 as int, b.x1 as int, b.y0 as int, b.y1 as int, 2);
        (30 * red + 59 * green + 11 * blue) / (100 * n)
    }
}

/// The cells lie inside a `width`×`height` frame.
pub open spec fn cells_inside(bounds: Seq<CellBounds>, width: int, height: int) -> bool {
    forall|i: int|
        0 <= i < bounds.len() ==> {
            let b = #[trigger] bounds[i];
            b.x1 > b.x0 && b.y1 > b.y0 ==> b.x1 <= width && b.y1 <= height
        }
}

/// Two cell values differ by at least `CELL_CHANGE_DELTA`.
pub open spec fn cell_changed(a: u8, b: u8) -> bool {
    if a >= b {
        a - b >= 24
    } else {
        b - a >= 24
    }
}

/// The number of positions where two equally long cell sequences changed.
pub open spec fn changed_count(a: Seq<u8>, b: Seq<u8>) -> nat
    decreases a.len(),
{
    if a.len() == 0 || b.len() == 0 {
        0
    } else {
        changed_count(a.drop_last(), b.drop_last()) + if cell_changed(a.last(), b.last()) {
            1nat
        } else {
            0nat
        }
    }
}

impl FrameSignature {
    pub closed spec fn cells_view(&self) -> Seq<u8> {
        self.cells@
    }

    /// Samples the cells `bounds` of a BGRA8 frame of `width`×`height`
    /// pixels, in order: one luminance byte per cell.
    pub fn from_cells(pixels: &[u8], width: u32, height: u32, bounds: &Vec<CellBounds>) -> (s: Self)
        requires
            cells_inside(bounds@, width as int, height as int),
            pixels.len() >= height as int * width as int * 4,
            width as int * height as int <= 0x1_0000_0000_0000,
        ensures
            s.cells_view().len() == bounds.len(),
            forall|i: int|
                0 <= i < bounds.len() ==> s.cells_view()[i] == cell_luma(
                    pixels@,
                    width as int,
                    #[trigger] bounds@[i],
                ),
    {
        let mut cells: Vec<u8> = Vec::new();
        let mut i: usize = 0;
        while i < bounds.len()
            invariant
                i <= bounds.len(),
                cells_inside(bounds@, width as int, height as int),
                pixels.len() >= height as int * width as int * 4,
                width as int * height as int <= 0x1_0000_0000_0000,
                cells.len() == i,
                forall|j: int|
                    0 <= j < i ==> cells@[j] == cell_luma(pixels@, width as int, #[trigger] bounds@[j]),
            decreases bounds.len() - i,
        {
            let b = bounds[i];
            assert(b == bounds@[i as int]);
            let (blue, green, red, n) = box_sums(pixels, width, height, b.x0, b.x1, b.y0, b.y1);
            if n == 0 {
                cells.push(0);
            } else {
                proof {
                    let s = width as int * 4;
                    lemma_box_sum_bounds(pixels@, s, b.x0 as int, b.x1 as int, b.y0 as int, b.y1 as int, 0);
                    lemma_box_sum_bounds(pixels@, s, b.x0 as int, b.x1 as int, b.y0 as int, b.y1 as int, 1);
                    lemma_box_sum_bounds(pixels@, s, b.x0 as int, b.x1 as int, b.y0 as int, b.y1 as int, 2);
                    assert(n as int <= width as int * height as int) by (nonlinear_arith)
                        requires
                            n == box_count(b.x0 as int, b.x1 as int, b.y0 as int, b.y1 as int),
                            n > 0,
                            b.x1 <= width,
                            b.y1 <= height,
                    ;
                    assert((30 * red + 59 * green + 11 * blue) / (100 * n as int) <= 255) by (nonlinear_arith)
                        requires
                            red <= 255 * n,
                            green <= 255 * n,
                            blue <= 255 * n,
                            n > 0,
                    ;
                }
                let lum = (30 * red + 59 * green + 11 * blue) / (100 * n);
                cells.push(lum as u8);
            }
            i = i + 1;
        }
        FrameSignature { cells }
    }

    pub fn cells(&self) -> (c: &[u8])
        ensures
            c@ == self.cells_view(),
    {
        self.cells.as_slice()
    }
}

/// The number of sampled cells that changed between two signatures, or
/// `None` when they have different numbers of cells (then everything is
/// considered changed).
pub fn changed_cells(a: &FrameSignature, b: &FrameSignature) -> (r: Option<usize>)
    ensures
        a.cells_view().len() != b.cells_view().len() ==> r is None,
        a.cells_view().len() == b.cells_view().len() ==> r == Some(
            changed_count(a.cells_view(), b.cells_view()) as usize,
        ),
{
    if a.cells.len() != b.cells.len() {
        return None;
    }
    let mut changed: usize = 0;
    let mut i: usize = 0;
    assert(a.cells@.take(0) =~= Seq::<u8>::empty());
    assert(b.cells@.take(0) =~= Seq::<u8>::empty());
    while i < a.cells.len()
        invariant
            a.cells.len() == b.cells.len(),
            i <= a.cells.len(),
            changed == changed_count(a.cells@.take(i as int), b.cells@.take(i as int)),
            changed <= i,
        decreases a.cells.len() - i,
    {
        let x = a.cells[i];
        let y = b.cells[i];
        assert(a.cells@.take(i + 1).drop_last() == a.cells@.take(i as int));
        assert(b.cells@.take(i + 1).drop_last() == b.cells@.take(i as int));
        let d = if x >= y {
            x - y
        } else {
            y - x
        };
        if d >= CELL_CHANGE_DELTA {
            changed = changed + 1;
        }
        i = i + 1;
    }
    assert(a.cells@.take(a.cells.len() as int) == a.cells@);
    assert(b.cells@.take(b.cells.len() as int) == b.cells@);
    Some(changed)
}

/// A frame compared with itself has no changed cell.
pub proof fn law_identical_frames_unchanged(a: Seq<u8>)
    ensures
        changed_count(a, a) == 0,
    decreases a.len(),
{
    if a.len() > 0 {
        law_identical_frames_unchanged(a.drop_last());
    }
}

/// Change counting does not depend on the order of the two frames.
pub proof fn law_changed_count_symmetric(a: Seq<u8>, b: Seq<u8>)
    ensures
        changed_count(a, b) == changed_count(b, a),
    decreases a.len(),
{
    if a.len() > 0 && b.len() > 0 {
        law_changed_count_symmetric(a.drop_last(), b.drop_last());
    }
}

/// At most every cell changes.
pub proof fn law_changed_count_bounded(a: Seq<u8>, b: Seq<u8>)
    ensures
        changed_count(a, b) <= a.len(),
    decreases a.len(),
{
    if a.len() > 0 && b.len() > 0 {
        law_changed_count_bounded(a.drop_last(), b.drop_last());
    }
}

} // verus!
