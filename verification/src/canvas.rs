//! Pixel colors and the canvas types.

pub mod canvas_buffer;
pub mod canvas_pos;
pub mod raster;

use vstd::prelude::*;
use std::ops::Add;
use vstd::std_specs::ops::AddSpecImpl;
use vstd::std_specs::cmp::PartialEqSpecImpl;
use crate::canvas::canvas_buffer::{
    lemma_grid_kept_along, lemma_painted_determined, lemma_painted_same_region, painted, same_grid,
    CanvasBuffer,
};
use crate::canvas::canvas_pos::CanvasPos;
use crate::canvas::raster::{
    circle_fits, in_disk, in_grid, line_covers, line_fits, line_is_shallow, signed_of,
};

verus! {

/// A single RGBA pixel stored as four `u8` bytes.
#[derive(Clone, Copy, Debug, PartialEq, Eq, Structural)]
pub struct PixelColor {
    pub r: u8,
    pub g: u8,
    pub b: u8,
    pub a: u8,
}

/// Channel `k` of a color: red, green, blue, then alpha.
pub open spec fn channel(c: PixelColor, k: int) -> u8 {
    if k == 0 {
        c.r
    } else if k == 1 {
        c.g
    } else if k == 2 {
        c.b
    } else {
        c.a
    }
}

/// The pixels laid out as a flat RGBA byte sequence, four bytes per pixel.
pub open spec fn rgba_bytes(pixels: Seq<PixelColor>) -> Seq<u8> {
    Seq::new(4 * pixels.len(), |i: int| channel(pixels[i / 4], i % 4))
}

/// Channel `k` of pixel `i` is byte `4 * i + k` of the RGBA bytes.
pub proof fn lemma_rgba_bytes_of_pixel(pixels: Seq<PixelColor>, i: int, k: int)
    requires
        0 <= i < pixels.len(),
        0 <= k < 4,
    ensures
        rgba_bytes(pixels).len() == 4 * pixels.len(),
        rgba_bytes(pixels)[4 * i + k] == channel(pixels[i], k),
        k == 0 ==> rgba_bytes(pixels)[4 * i + k] == pixels[i].r,
        k == 1 ==> rgba_bytes(pixels)[4 * i + k] == pixels[i].g,
        k == 2 ==> rgba_bytes(pixels)[4 * i + k] == pixels[i].b,
        k == 3 ==> rgba_bytes(pixels)[4 * i + k] == pixels[i].a,
{
    assert((4 * i + k) / 4 == i && (4 * i + k) % 4 == k) by (nonlinear_arith)
        requires
            0 <= k < 4,
    ;
}

impl PixelColor {
    /// Opaque white, the background of a new canvas.
    #[verifier::allow_in_spec]
    pub fn white() -> PixelColor
        returns
            (PixelColor { r: 255, g: 255, b: 255, a: 255 }),
    {
        PixelColor { r: 255, g: 255, b: 255, a: 255 }
    }

    /// Opaque black, the pencil color.
    #[verifier::allow_in_spec]
    pub fn black() -> PixelColor
        returns
            (PixelColor { r: 0, g: 0, b: 0, a: 255 }),
    {
        PixelColor { r: 0, g: 0, b: 0, a: 255 }
    }
}

/// A position in pixels relative to the canvas.
///
/// Note that positions off the canvas are valid values for `PxCoords`. This includes
/// negative coordinates, even though all positions displayed on the canvas are positive.
#[derive(Copy, Clone, Eq, Debug)]
pub struct PxCoords {
    pub x: i32,
    pub y: i32,
}

impl PxCoords {
    /// The same position as a `CanvasPos`.
    pub open spec fn as_canvas_pos(self) -> CanvasPos {
        CanvasPos { x: self.x, y: self.y }
    }
}

impl Add for PxCoords {
    type Output = PxCoords;

    /// Adds the two positions component by component.
    fn add(self, rhs: Self) -> (sum: Self::Output) {
        PxCoords { x: self.x + rhs.x, y: self.y + rhs.y }
    }
}

impl AddSpecImpl for PxCoords {
    open spec fn obeys_add_spec() -> bool {
        true
    }

    /// Neither coordinate sum leaves the range of `i32`.
    open spec fn add_req(self, rhs: Self) -> bool {
        &&& i32::MIN <= self.x + rhs.x <= i32::MAX
        &&& i32::MIN <= self.y + rhs.y <= i32::MAX
    }

    open spec fn add_spec(self, rhs: Self) -> Self {
        PxCoords { x: (self.x + rhs.x) as i32, y: (self.y + rhs.y) as i32 }
    }
}

impl PartialEq for PxCoords {
    /// Two positions are equal when both coordinates are equal.
    fn eq(&self, other: &Self) -> (same: bool) {
        self.x == other.x && self.y == other.y
    }
}

impl PartialEqSpecImpl for PxCoords {
    open spec fn obeys_eq_spec() -> bool {
        true
    }

    open spec fn eq_spec(&self, other: &Self) -> bool {
        self.x == other.x && self.y == other.y
    }
}

/// Stores and manages the state of the canvas. Data is stored in a CPU-side 2D pixel buffer.
///
/// This is the canvas without change tracking; its pixel grid is a
/// `CanvasBuffer` whose `dirty` flag it does not use.
pub struct Canvas {
    buffer: CanvasBuffer,
}

impl View for Canvas {
    type V = Seq<PixelColor>;

    /// The pixels in row-major order.
    closed spec fn view(&self) -> Seq<PixelColor> {
        self.buffer@
    }
}

impl Canvas {
    /// The pixel grid of the canvas.
    pub closed spec fn grid(&self) -> CanvasBuffer {
        self.buffer
    }

    /// The pixel grid is well formed.
    pub open spec fn wf(&self) -> bool {
        &&& self.grid().wf()
        &&& self@ == self.grid()@
    }

    /// Creates a new canvas filled with a solid white background.
    pub fn new(width: u32, height: u32) -> (canvas: Self)
        requires
            width * height <= u32::MAX,
            width * height * 4 <= isize::MAX,
        ensures
            canvas.wf(),
            canvas.grid().width() == width,
            canvas.grid().height() == height,
            forall|i: int| 0 <= i < canvas@.len() ==> #[trigger] canvas@[i] == PixelColor::white(),
    {
        Canvas { buffer: CanvasBuffer::new(width, height) }
    }

    pub fn width(&self) -> (w: u32)
        ensures
            w == self.grid().width(),
    {
        self.buffer.width()
    }

    pub fn height(&self) -> (h: u32)
        ensures
            h == self.grid().height(),
    {
        self.buffer.height()
    }

    /// Exports the entire buffer as a flat RGBA byte sequence.
    ///
    /// The sequence has length `width * height * 4`.
    pub fn as_bytes(&self) -> (bytes: Vec<u8>)
        requires
            self.wf(),
        ensures
            bytes@ == rgba_bytes(self@),
            bytes@.len() == self.grid().width() * self.grid().height() * 4,
            forall|i: int|
                0 <= i < self@.len() ==> {
                    &&& #[trigger] bytes@[4 * i] == self@[i].r
                    &&& bytes@[4 * i + 1] == self@[i].g
                    &&& bytes@[4 * i + 2] == self@[i].b
                    &&& bytes@[4 * i + 3] == self@[i].a
                },
    {
        self.buffer.as_bytes()
    }

    /// Sets the pixel at `(x, y)` to the given color.
    ///
    /// Coordinates outside the canvas are ignored.
    pub fn set_pixel(&mut self, x: i32, y: i32, color: PixelColor)
        requires
            old(self).wf(),
            old(self).grid().index_fits(x as int, y as int),
        ensures
            final(self).wf(),
            same_grid(old(self).grid(), final(self).grid()),
            painted(old(self).grid(), final(self).grid(), |a: int, b: int| a == x && b == y, color),
    {
        self.buffer.set_pixel(x, y, color);
    }

    /// A quick test that `draw_line(pos1, pos2, radius, _)` may be called on
    /// this canvas; see `CanvasBuffer::can_draw_line`. A `true` answer meets
    /// `draw_line`'s `requires`.
    pub fn can_draw_line(&self, pos1: PxCoords, pos2: PxCoords, radius: u32) -> (ok: bool)
        requires
            self.wf(),
        ensures
            ok == self.grid().quick_line_check(
                pos1.as_canvas_pos(),
                pos2.as_canvas_pos(),
                signed_of(radius),
            ),
            ok ==> line_fits(pos1.as_canvas_pos(), pos2.as_canvas_pos(), signed_of(radius)),
            ok ==> forall|x: int, y: int|
                line_covers(pos1.as_canvas_pos(), pos2.as_canvas_pos(), signed_of(radius), x, y)
                    ==> #[trigger] self.grid().index_fits(x, y),
    {
        self.buffer.can_draw_line(
            CanvasPos { x: pos1.x, y: pos1.y },
            CanvasPos { x: pos2.x, y: pos2.y },
            radius,
        )
    }

    /// Draws a line from `pos1` to `pos2` with the specified thickness and color.
    pub fn draw_line(&mut self, pos1: PxCoords, pos2: PxCoords, radius: u32, color: PixelColor)
        requires
            old(self).wf(),
            line_fits(pos1.as_canvas_pos(), pos2.as_canvas_pos(), signed_of(radius)),
            line_is_shallow(pos1.as_canvas_pos(), pos2.as_canvas_pos()) ==> forall|x: int, y: int|
                line_covers(pos1.as_canvas_pos(), pos2.as_canvas_pos(), signed_of(radius), x, y)
                    ==> #[trigger] old(self).grid().index_fits(x, y),
        ensures
            final(self).wf(),
            same_grid(old(self).grid(), final(self).grid()),
            painted(
                old(self).grid(),
                final(self).grid(),
                |x: int, y: int|
                    line_covers(pos1.as_canvas_pos(), pos2.as_canvas_pos(), signed_of(radius), x, y),
                color,
            ),
    {
        self.buffer.draw_line(
            CanvasPos { x: pos1.x, y: pos1.y },
            CanvasPos { x: pos2.x, y: pos2.y },
            radius,
            color,
        );
    }

    /// Fills a circle with a solid color using a scanline approach.
    ///
    /// The radius is the distance from the center to the edge, so a radius 0
    /// circle is a single pixel, and a radius 1 circle has a diameter of 3.
    pub fn fill_circle(&mut self, center: PxCoords, radius: u32, color: PixelColor)
        requires
            old(self).wf(),
            circle_fits(center.as_canvas_pos(), signed_of(radius)),
        ensures
            final(self).wf(),
            same_grid(old(self).grid(), final(self).grid()),
            painted(
                old(self).grid(),
                final(self).grid(),
                |x: int, y: int| in_disk(center.x as int, center.y as int, signed_of(radius), x, y),
                color,
            ),
    {
        self.buffer.fill_circle(CanvasPos { x: center.x, y: center.y }, radius, color);
    }

    /// Fills a scanline from `start_x` to `end_x` with a solid color.
    ///
    /// Writes outside the canvas are ignored.
    pub fn fill_scanline(&mut self, scan_y: i32, start_x: i32, end_x: i32, color: PixelColor)
        requires
            old(self).wf(),
        ensures
            final(self).wf(),
            same_grid(old(self).grid(), final(self).grid()),
            painted(
                old(self).grid(),
                final(self).grid(),
                |x: int, y: int| y == scan_y && start_x <= x <= end_x,
                color,
            ),
    {
        self.buffer.fill_scanline(scan_y, start_x, end_x, color);
    }

}

/// A `Canvas` and a `CanvasBuffer` with the same size and pixels, drawing the
/// same line with the same radius and color, end with the same pixels.
pub proof fn lemma_canvas_draws_like_buffer(
    c0: Canvas,
    c1: Canvas,
    b0: CanvasBuffer,
    b1: CanvasBuffer,
    pos1: PxCoords,
    pos2: PxCoords,
    q1: CanvasPos,
    q2: CanvasPos,
    radius: u32,
    color: PixelColor,
)
    requires
        c0.wf(),
        c1.wf(),
        b0@ == c0@,
        b0.width() == c0.grid().width(),
        b0.height() == c0.grid().height(),
        q1 == pos1.as_canvas_pos(),
        q2 == pos2.as_canvas_pos(),
        painted(
            c0.grid(),
            c1.grid(),
            |x: int, y: int|
                line_covers(pos1.as_canvas_pos(), pos2.as_canvas_pos(), signed_of(radius), x, y),
            color,
        ),
        painted(b0, b1, |x: int, y: int| line_covers(q1, q2, signed_of(radius), x, y), color),
    ensures
        c1@ == b1@,
{
    let rc = |x: int, y: int|
        line_covers(pos1.as_canvas_pos(), pos2.as_canvas_pos(), signed_of(radius), x, y);
    let rb = |x: int, y: int| line_covers(q1, q2, signed_of(radius), x, y);
    assert forall|x: int, y: int|
        in_grid(b0.width(), b0.height(), x, y) implies #[trigger] rb(x, y) == rc(x, y) by {}
    lemma_painted_same_region(b0, b1, rb, rc, color);
    lemma_painted_determined(c0.grid(), c1.grid(), b0, b1, rc, color);
}

/// Along any sequence of canvases in which each step keeps the grid, as every
/// operation of `Canvas` does, the width, height and pixel count of the
/// first canvas hold for the last.
pub proof fn lemma_canvas_grid_kept_along(history: Seq<Canvas>)
    requires
        history.len() >= 1,
        forall|i: int|
            0 <= i < history.len() - 1 ==> same_grid(#[trigger] history[i].grid(), history[i + 1].grid()),
    ensures
        same_grid(history[0].grid(), history.last().grid()),
        history[0].wf() ==> history.last().grid().wf(),
{
    let grids = history.map_values(|c: Canvas| c.grid());
    assert forall|i: int| 0 <= i < grids.len() - 1 implies same_grid(#[trigger] grids[i], grids[i + 1]) by {
        assert(same_grid(history[i].grid(), history[i + 1].grid()));
    }
    lemma_grid_kept_along(grids);
    assert(grids.last() == history.last().grid());
}

} // verus!
