//! The CPU-side pixel buffer of the canvas and its drawing routines.
use vstd::prelude::*;
use crate::canvas::{lemma_rgba_bytes_of_pixel, PixelColor, rgba_bytes};
use crate::canvas::canvas_pos::CanvasPos;
use crate::canvas::raster::{
    cast_signed, circle_fits, disk_half_width, grid_index, in_disk, in_grid, isqrt,
    lemma_disk_row, lemma_disk_rows, lemma_grid_every_index, lemma_grid_index_bounds,
    lemma_grid_index_injective, lemma_grid_index_row, lemma_line_covers_upto_succ, lemma_line_ends,
    lemma_line_state_inv, line_covers, line_covers_upto,
    line_dx, line_dy, line_fits, line_is_shallow, line_point, line_stamp_fits, line_state,
    line_step_fits, line_steps, signed_of, stamp_covers, iabs, stamp_bounds_fit, lemma_line_fits_when_short, fits_i32,
};

verus! {

/// Stores and manages the state of the canvas. Data is stored in a CPU-side 2D pixel buffer.
pub struct CanvasBuffer {
    width: u32,
    height: u32,
    /// Row-major layout: pixel `(x, y)` is at index `y * width + x`.
    pixels: Vec<PixelColor>,
    /// Whether the buffer has been modified since the last GPU upload.
    pub dirty: bool,
}

impl View for CanvasBuffer {
    type V = Seq<PixelColor>;

    /// The pixels in row-major order.
    closed spec fn view(&self) -> Seq<PixelColor> {
        self.pixels@
    }
}

/// `after` is `before` with every pixel of the canvas in `region` set to `color`;
/// the size and every other pixel are unchanged.
pub open spec fn painted(
    before: CanvasBuffer,
    after: CanvasBuffer,
    region: spec_fn(int, int) -> bool,
    color: PixelColor,
) -> bool {
    let w = before.width();
    let h = before.height();
    &&& after.width() == w
    &&& after.height() == h
    &&& after@.len() == before@.len()
    &&& forall|x: int, y: int|
        in_grid(w, h, x, y) ==> #[trigger] after.pixel(x, y) == if region(x, y) {
            color
        } else {
            before.pixel(x, y)
        }
}

/// Whether `region` holds a pixel of `canvas`.
pub open spec fn touches(canvas: CanvasBuffer, region: spec_fn(int, int) -> bool) -> bool {
    exists|x: int, y: int| in_grid(canvas.width(), canvas.height(), x, y) && #[trigger] region(x, y)
}

/// `after` has the width, height and pixel count of `before`.
pub open spec fn same_grid(before: CanvasBuffer, after: CanvasBuffer) -> bool {
    &&& after.width() == before.width()
    &&& after.height() == before.height()
    &&& after@.len() == before@.len()
}

/// Along any sequence of buffers in which each step keeps the grid, as every
/// operation of `CanvasBuffer` does, the width, height and pixel count of the
/// first buffer hold for the last, and a well-formed start stays well formed.
pub proof fn lemma_grid_kept_along(history: Seq<CanvasBuffer>)
    requires
        history.len() >= 1,
        forall|i: int| 0 <= i < history.len() - 1 ==> same_grid(#[trigger] history[i], history[i + 1]),
    ensures
        same_grid(history[0], history.last()),
        history[0].wf() ==> history.last().wf(),
    decreases history.len(),
{
    if history.len() > 1 {
        let shorter = history.drop_last();
        assert forall|i: int| 0 <= i < shorter.len() - 1 implies same_grid(#[trigger] shorter[i], shorter[i + 1]) by {
            assert(shorter[i] == history[i] && shorter[i + 1] == history[i + 1]);
        }
        lemma_grid_kept_along(shorter);
        assert(same_grid(history[history.len() - 2], history[history.len() - 1]));
    }
}

/// A stroke continues from the previous drag position when there is one, and
/// from the current position when the drag has just started.
pub proof fn lemma_stroke_from(pos: CanvasPos, p: CanvasPos)
    ensures
        stroke_from(pos, Some(p)) == p,
        stroke_from(pos, None) == pos,
{
}

/// Where a pencil stroke continues from: the previous drag position, or the
/// current one when the drag has just started.
pub open spec fn stroke_from(pos: CanvasPos, last_drag_pos: Option<CanvasPos>) -> CanvasPos {
    match last_drag_pos {
        Some(p) => p,
        None => pos,
    }
}

/// `after` is `before` after `set_pixel(x, y, color)`: the pixel at `(x, y)`
/// takes the color and the buffer becomes dirty when `(x, y)` is on the
/// canvas; otherwise nothing changes.
pub open spec fn pixel_set(before: CanvasBuffer, after: CanvasBuffer, x: int, y: int, color: PixelColor) -> bool {
    let w = before.width();
    let h = before.height();
    &&& after.width() == w
    &&& after.height() == h
    &&& after@ == if in_grid(w, h, x, y) {
        before@.update(grid_index(w, x, y), color)
    } else {
        before@
    }
    &&& after.is_dirty() == (before.is_dirty() || in_grid(w, h, x, y))
}

/// Setting two different pixels gives the same buffer in either order.
pub proof fn lemma_set_pixel_commutes(
    c0: CanvasBuffer,
    c1: CanvasBuffer,
    c2: CanvasBuffer,
    d1: CanvasBuffer,
    d2: CanvasBuffer,
    x1: int,
    y1: int,
    a: PixelColor,
    x2: int,
    y2: int,
    b: PixelColor,
)
    requires
        c0.wf(),
        (x1, y1) != (x2, y2),
        pixel_set(c0, c1, x1, y1, a),
        pixel_set(c1, c2, x2, y2, b),
        pixel_set(c0, d1, x2, y2, b),
        pixel_set(d1, d2, x1, y1, a),
    ensures
        c2@ == d2@,
        c2.is_dirty() == d2.is_dirty(),
        c2.width() == d2.width(),
        c2.height() == d2.height(),
{
    let w = c0.width();
    let h = c0.height();
    if in_grid(w, h, x1, y1) && in_grid(w, h, x2, y2) {
        if grid_index(w, x1, y1) == grid_index(w, x2, y2) {
            lemma_grid_index_injective(w, h, x1, y1, x2, y2);
        }
        lemma_grid_index_bounds(w, h, x1, y1);
        lemma_grid_index_bounds(w, h, x2, y2);
        assert(c2@ =~= d2@);
    }
}

/// Setting the same pixel twice leaves the last color: the result is that of
/// the second write alone.
pub proof fn lemma_set_pixel_last_wins(
    c0: CanvasBuffer,
    c1: CanvasBuffer,
    c2: CanvasBuffer,
    d: CanvasBuffer,
    x: int,
    y: int,
    a: PixelColor,
    b: PixelColor,
)
    requires
        c0.wf(),
        pixel_set(c0, c1, x, y, a),
        pixel_set(c1, c2, x, y, b),
        pixel_set(c0, d, x, y, b),
    ensures
        c2@ == d@,
        c2.is_dirty() == d.is_dirty(),
        c2.width() == d.width(),
        c2.height() == d.height(),
{
    if in_grid(c0.width(), c0.height(), x, y) {
        lemma_grid_index_bounds(c0.width(), c0.height(), x, y);
        assert(c2@ =~= d@);
    }
}

/// Painting one region in one color from equal buffers gives equal buffers:
/// the result depends only on the region, the color and the pixels before.
pub proof fn lemma_painted_determined(
    a1: CanvasBuffer,
    b1: CanvasBuffer,
    a2: CanvasBuffer,
    b2: CanvasBuffer,
    region: spec_fn(int, int) -> bool,
    color: PixelColor,
)
    requires
        a1.wf(),
        a2@ == a1@,
        a2.width() == a1.width(),
        a2.height() == a1.height(),
        painted(a1, b1, region, color),
        painted(a2, b2, region, color),
    ensures
        b1@ == b2@,
{
    let w = a1.width();
    let h = a1.height();
    assert forall|i: int| 0 <= i < b1@.len() implies #[trigger] b1@[i] == b2@[i] by {
        lemma_grid_every_index(w, h, i);
        let x = i % (w as int);
        let y = i / (w as int);
        assert(b1.pixel(x, y) == b2.pixel(x, y));
    }
    assert(b1@ =~= b2@);
}

/// Painting `r1` and then `r2` in the same color paints their union.
proof fn lemma_painted_compose(
    a: CanvasBuffer,
    b: CanvasBuffer,
    c: CanvasBuffer,
    r1: spec_fn(int, int) -> bool,
    r2: spec_fn(int, int) -> bool,
    color: PixelColor,
)
    requires
        painted(a, b, r1, color),
        painted(b, c, r2, color),
    ensures
        painted(a, c, |x: int, y: int| r1(x, y) || r2(x, y), color),
{
    assert forall|x: int, y: int| in_grid(a.width(), a.height(), x, y) implies #[trigger] c.pixel(x, y)
        == if in_grid(a.width(), a.height(), x, y) && (r1(x, y) || r2(x, y)) {
        color
    } else {
        a.pixel(x, y)
    } by {
        assert(b.pixel(x, y) == if in_grid(a.width(), a.height(), x, y) && r1(x, y) {
            color
        } else {
            a.pixel(x, y)
        });
    }
}

/// Painting is determined by the pixels of the region, not by how it is written.
pub proof fn lemma_painted_same_region(
    a: CanvasBuffer,
    b: CanvasBuffer,
    r1: spec_fn(int, int) -> bool,
    r2: spec_fn(int, int) -> bool,
    color: PixelColor,
)
    requires
        painted(a, b, r1, color),
        forall|x: int, y: int|
            in_grid(a.width(), a.height(), x, y) ==> #[trigger] r1(x, y) == r2(x, y),
    ensures
        painted(a, b, r2, color),
        touches(a, r1) == touches(a, r2),
{
    assert forall|x: int, y: int| in_grid(a.width(), a.height(), x, y) implies #[trigger] b.pixel(x, y)
        == if in_grid(a.width(), a.height(), x, y) && r2(x, y) {
        color
    } else {
        a.pixel(x, y)
    } by {
        if in_grid(a.width(), a.height(), x, y) {
            assert(r1(x, y) == r2(x, y));
        }
    }
    if touches(a, r1) {
        let (x, y) = choose|x: int, y: int| in_grid(a.width(), a.height(), x, y) && #[trigger] r1(x, y);
        assert(r2(x, y));
    }
    if touches(a, r2) {
        let (x, y) = choose|x: int, y: int| in_grid(a.width(), a.height(), x, y) && #[trigger] r2(x, y);
        assert(r1(x, y));
    }
}

/// A region touches the canvas when one of its two parts does.
proof fn lemma_touches_union(
    a: CanvasBuffer,
    b: CanvasBuffer,
    r1: spec_fn(int, int) -> bool,
    r2: spec_fn(int, int) -> bool,
)
    requires
        a.width() == b.width(),
        a.height() == b.height(),
    ensures
        touches(a, |x: int, y: int| r1(x, y) || r2(x, y)) == (touches(a, r1) || touches(b, r2)),
{
    let u = |x: int, y: int| r1(x, y) || r2(x, y);
    if touches(a, u) {
        let (x, y) = choose|x: int, y: int| in_grid(a.width(), a.height(), x, y) && #[trigger] u(x, y);
        if r1(x, y) {
            assert(touches(a, r1));
        } else {
            assert(touches(b, r2));
        }
    }
    if touches(a, r1) {
        let (x, y) = choose|x: int, y: int| in_grid(a.width(), a.height(), x, y) && #[trigger] r1(x, y);
        assert(u(x, y));
    }
    if touches(b, r2) {
        let (x, y) = choose|x: int, y: int| in_grid(b.width(), b.height(), x, y) && #[trigger] r2(x, y);
        assert(u(x, y));
    }
}

/// Painting `r1` and then `r2` in one color paints any region `r3` that is
/// their union, and the dirty flag follows.
proof fn lemma_paint_then_paint(
    a: CanvasBuffer,
    b: CanvasBuffer,
    c: CanvasBuffer,
    r1: spec_fn(int, int) -> bool,
    r2: spec_fn(int, int) -> bool,
    r3: spec_fn(int, int) -> bool,
    color: PixelColor,
)
    requires
        painted(a, b, r1, color),
        painted(b, c, r2, color),
        forall|x: int, y: int| #[trigger] r3(x, y) == (r1(x, y) || r2(x, y)),
        b.is_dirty() == (a.is_dirty() || touches(a, r1)),
        c.is_dirty() == (b.is_dirty() || touches(b, r2)),
    ensures
        painted(a, c, r3, color),
        c.is_dirty() == (a.is_dirty() || touches(a, r3)),
{
    let u = |x: int, y: int| r1(x, y) || r2(x, y);
    lemma_painted_compose(a, b, c, r1, r2, color);
    lemma_touches_union(a, b, r1, r2);
    assert forall|x: int, y: int| #[trigger] u(x, y) == r3(x, y) by {
        assert(r3(x, y) == (r1(x, y) || r2(x, y)));
    }
    lemma_painted_same_region(a, c, u, r3, color);
}

/// Painting a region twice in one color leaves the canvas as painting it once.
pub proof fn lemma_paint_twice(
    a: CanvasBuffer,
    b: CanvasBuffer,
    c: CanvasBuffer,
    region: spec_fn(int, int) -> bool,
    color: PixelColor,
)
    requires
        a.wf(),
        painted(a, b, region, color),
        painted(b, c, region, color),
    ensures
        c@ == b@,
{
    let w = a.width();
    let h = a.height();
    assert forall|i: int| 0 <= i < c@.len() implies #[trigger] c@[i] == b@[i] by {
        lemma_grid_every_index(w, h, i);
        let x = i % (w as int);
        let y = i / (w as int);
        assert(c.pixel(x, y) == b.pixel(x, y));
    }
    assert(c@ =~= b@);
}

/// Whether `c - r`, `c + r` and `c + r - 1` fit in `i32`.
fn stamp_bounds_ok(c: i32, r: i64) -> (ok: bool)
    requires
        fits_i32(r as int),
    ensures
        ok == stamp_bounds_fit(c as int, r as int),
{
    let c = c as i64;
    -0x8000_0000 <= c - r && c - r <= 0x7fff_ffff && -0x8000_0000 <= c + r && c + r <= 0x7fff_ffff
        && -0x8000_0000 <= c + r - 1 && c + r - 1 <= 0x7fff_ffff
}

impl CanvasBuffer {
    pub closed spec fn spec_width(&self) -> u32 {
        self.width
    }

    pub closed spec fn spec_height(&self) -> u32 {
        self.height
    }

    /// The value of the public `dirty` flag.
    pub closed spec fn spec_is_dirty(&self) -> bool {
        self.dirty
    }

    /// One pixel per grid position, and the pixel count fits in `u32`.
    pub open spec fn wf(&self) -> bool {
        &&& self@.len() == self.width() * self.height()
        &&& self.width() * self.height() <= u32::MAX
    }

    /// The color of pixel `(x, y)`.
    pub open spec fn pixel(&self, x: int, y: int) -> PixelColor {
        self@[grid_index(self.width(), x, y)]
    }

    /// `set_pixel` computes the index of a pixel of the canvas in `i32`; this says
    /// that the index of `(x, y)` fits there.
    pub open spec fn index_fits(&self, x: int, y: int) -> bool {
        in_grid(self.width(), self.height(), x, y) ==> grid_index(self.width(), x, y) <= i32::MAX
    }

    /// On a canvas of at most `2^31` pixels every pixel index fits in `i32`.
    pub proof fn lemma_index_fits_when_small(&self, x: int, y: int)
        requires
            self.wf(),
            self.width() * self.height() <= 0x8000_0000,
        ensures
            self.index_fits(x, y),
    {
        if in_grid(self.width(), self.height(), x, y) {
            lemma_grid_index_bounds(self.width(), self.height(), x, y);
        }
    }

    /// The test of `can_draw_line`: the line's distances are at most a third
    /// of `i32::MAX`, the brush of radius `r` fits within `i32` around both
    /// end points, and the canvas has at most `2^31` pixels.
    pub open spec fn quick_line_check(&self, pos1: CanvasPos, pos2: CanvasPos, r: int) -> bool {
        &&& 3 * line_dx(pos1, pos2) <= i32::MAX
        &&& 3 * line_dy(pos1, pos2) <= i32::MAX
        &&& stamp_bounds_fit(pos1.x as int, r)
        &&& stamp_bounds_fit(pos1.y as int, r)
        &&& stamp_bounds_fit(pos2.x as int, r)
        &&& stamp_bounds_fit(pos2.y as int, r)
        &&& self.width() * self.height() <= 0x8000_0000
    }

    /// The quick line check passes exactly when its three conditions hold; in
    /// particular a short line, a line from a point to itself among them,
    /// passes on a small canvas.
    pub proof fn lemma_quick_line_check(&self, pos1: CanvasPos, pos2: CanvasPos, r: int)
        ensures
            self.quick_line_check(pos1, pos2, r) == {
                let brush = |c: int|
                    i32::MIN <= c - r <= i32::MAX && i32::MIN <= c + r <= i32::MAX && i32::MIN <= c
                        + r - 1 <= i32::MAX;
                &&& 3 * iabs(pos1.x - pos2.x) <= i32::MAX
                &&& 3 * iabs(pos1.y - pos2.y) <= i32::MAX
                &&& brush(pos1.x as int) && brush(pos1.y as int)
                &&& brush(pos2.x as int) && brush(pos2.y as int)
                &&& self.width() * self.height() <= 0x8000_0000
            },
            pos1 == pos2 && -0x4000_0000 <= pos1.x <= 0x4000_0000 && -0x4000_0000 <= pos1.y
                <= 0x4000_0000 && 0 <= r <= 0x100_0000 && self.width() * self.height()
                <= 0x8000_0000 ==> self.quick_line_check(pos1, pos2, r),
    {
    }

    /// Creates a new canvas filled with a solid white background.
    pub fn new(width: u32, height: u32) -> (canvas: Self)
        requires
            width * height <= u32::MAX,
            width * height * 4 <= isize::MAX,
        ensures
            canvas.wf(),
            canvas.width() == width,
            canvas.height() == height,
            !canvas.is_dirty(),
            forall|i: int| 0 <= i < canvas@.len() ==> #[trigger] canvas@[i] == PixelColor::white(),
    {
        let pixel_count = (width * height) as usize;
        let mut pixels: Vec<PixelColor> = Vec::new();
        let mut i: usize = 0;
        while i < pixel_count
            invariant
                i <= pixel_count,
                pixel_count == width * height,
                pixels@.len() == i,
                forall|k: int| 0 <= k < i ==> #[trigger] pixels@[k] == PixelColor::white(),
            decreases pixel_count - i,
        {
            pixels.push(PixelColor::white());
            i = i + 1;
        }
        CanvasBuffer { width, height, pixels, dirty: false }
    }

    /// Whether the buffer has been modified since the flag was last cleared.
    #[verifier::when_used_as_spec(spec_is_dirty)]
    pub fn is_dirty(&self) -> (dirty: bool)
        ensures
            dirty == self.spec_is_dirty(),
    {
        self.dirty
    }

    /// Clears the `dirty` flag, as after an upload of the buffer; the size and
    /// the pixels are unchanged.
    pub fn clear_dirty(&mut self)
        ensures
            !final(self).is_dirty(),
            same_grid(*old(self), *final(self)),
            final(self)@ == old(self)@,
    {
        self.dirty = false;
    }

    /// Sets the `dirty` flag, so that the buffer is uploaded again; the size
    /// and the pixels are unchanged.
    pub fn mark_dirty(&mut self)
        ensures
            final(self).is_dirty(),
            same_grid(*old(self), *final(self)),
            final(self)@ == old(self)@,
    {
        self.dirty = true;
    }

    #[verifier::when_used_as_spec(spec_width)]
    pub fn width(&self) -> (w: u32)
        ensures
            w == self.spec_width(),
    {
        self.width
    }

    #[verifier::when_used_as_spec(spec_height)]
    pub fn height(&self) -> (h: u32)
        ensures
            h == self.spec_height(),
    {
        self.height
    }

    /// Exports the entire buffer as a flat RGBA byte sequence.
    ///
    /// The sequence has length `width * height * 4`.
    pub fn as_bytes(&self) -> (bytes: Vec<u8>)
        requires
            self.wf(),
        ensures
            bytes@ == rgba_bytes(self@),
            bytes@.len() == self.width() * self.height() * 4,
            forall|i: int|
                0 <= i < self@.len() ==> {
                    &&& #[trigger] bytes@[4 * i] == self@[i].r
                    &&& bytes@[4 * i + 1] == self@[i].g
                    &&& bytes@[4 * i + 2] == self@[i].b
                    &&& bytes@[4 * i + 3] == self@[i].a
                },
    {
        let mut bytes: Vec<u8> = Vec::new();
        let mut i: usize = 0;
        while i < self.pixels.len()
            invariant
                i <= self.pixels@.len(),
                bytes@ == rgba_bytes(self.pixels@.take(i as int)),
            decreases self.pixels@.len() - i,
        {
            let c = self.pixels[i];
            let ghost prev = bytes@;
            bytes.push(c.r);
            bytes.push(c.g);
            bytes.push(c.b);
            bytes.push(c.a);
            proof {
                let next = rgba_bytes(self.pixels@.take(i + 1));
                assert forall|j: int| 0 <= j < next.len() implies #[trigger] next[j] == bytes@[j] by {
                    if j < 4 * i {
                        assert(self.pixels@.take(i + 1)[j / 4] == self.pixels@.take(i as int)[j / 4]);
                    }
                }
                assert(bytes@ =~= next);
            }
            i = i + 1;
        }
        proof {
            assert(self.pixels@.take(i as int) =~= self.pixels@);
            assert(self@.len() * 4 == self.width() * self.height() * 4);
            assert forall|i: int| 0 <= i < self@.len() implies {
                &&& #[trigger] bytes@[4 * i] == self@[i].r
                &&& bytes@[4 * i + 1] == self@[i].g
                &&& bytes@[4 * i + 2] == self@[i].b
                &&& bytes@[4 * i + 3] == self@[i].a
            } by {
                lemma_rgba_bytes_of_pixel(self@, i, 0);
                lemma_rgba_bytes_of_pixel(self@, i, 1);
                lemma_rgba_bytes_of_pixel(self@, i, 2);
                lemma_rgba_bytes_of_pixel(self@, i, 3);
            }
        }
        bytes
    }

    /// Sets the pixel at `(x, y)` to the given color.
    ///
    /// Coordinates outside the canvas are ignored.
    pub fn set_pixel(&mut self, x: i32, y: i32, color: PixelColor)
        requires
            old(self).wf(),
            old(self).index_fits(x as int, y as int),
        ensures
            final(self).wf(),
            final(self).width() == old(self).width(),
            final(self).height() == old(self).height(),
            same_grid(*old(self), *final(self)),
            pixel_set(*old(self), *final(self), x as int, y as int, color),
            painted(*old(self), *final(self), |a: int, b: int| a == x && b == y, color),
            touches(*old(self), |a: int, b: int| a == x && b == y) == in_grid(
                old(self).width(),
                old(self).height(),
                x as int,
                y as int,
            ),
    {
        let ghost before = *self;
        let ghost region = |a: int, b: int| a == x && b == y;
        let sw = cast_signed(self.width);
        if x >= 0 && (x as u32) < self.width && y >= 0 && (y as u32) < self.height {
            proof {
                lemma_grid_index_bounds(self.width, self.height, x as int, y as int);
                if y > 0 {
                    // A canvas of two or more rows is at most `u32::MAX / 2` wide,
                    // so its width reads the same as `i32`.
                    assert(self.width <= 0x7fff_ffff) by (nonlinear_arith)
                        requires
                            self.width * self.height <= 0xffff_ffff,
                            self.height >= 2,
                    ;
                }
                assert(y * sw == y * self.width) by (nonlinear_arith)
                    requires
                        y == 0 || sw == self.width,
                ;
            }
            self.dirty = true;
            self.pixels.set((y * sw + x) as usize, color);
        }
        proof {
            assert forall|a: int, b: int| in_grid(self.width, self.height, a, b) implies #[trigger] self.pixel(a, b)
                == if region(a, b) {
                color
            } else {
                before.pixel(a, b)
            } by {
                lemma_grid_index_bounds(self.width, self.height, a, b);
                if in_grid(self.width, self.height, x as int, y as int) && !(a == x && b == y) {
                    if grid_index(self.width, a, b) == grid_index(self.width, x as int, y as int) {
                        lemma_grid_index_injective(self.width, self.height, a, b, x as int, y as int);
                    }
                }
            }
            if in_grid(self.width, self.height, x as int, y as int) {
                assert(region(x as int, y as int));
            }
        }
    }

    /// Fills a scanline from `start_x` to `end_x` with a solid color.
    ///
    /// Writes outside the canvas are ignored.
    pub fn fill_scanline(&mut self, scan_y: i32, start_x: i32, end_x: i32, color: PixelColor)
        requires
            old(self).wf(),
        ensures
            final(self).wf(),
            same_grid(*old(self), *final(self)),
            painted(
                *old(self),
                *final(self),
                |x: int, y: int| y == scan_y && start_x <= x <= end_x,
                color,
            ),
            final(self).is_dirty() == (old(self).is_dirty() || touches(
                *old(self),
                |x: int, y: int| y == scan_y && start_x <= x <= end_x,
            )),
    {
        let ghost before = *self;
        let ghost region = |x: int, y: int| y == scan_y && start_x <= x <= end_x;
        if start_x <= end_x && end_x >= 0 && 0 < self.width && (start_x < 0 || (start_x as u32)
            < self.width) && scan_y >= 0 && (scan_y as u32) < self.height {
            self.dirty = true;
            // Clamp the span to the row: columns `0 ..= width - 1`.
            let first: u32 = if start_x > 0 {
                start_x as u32
            } else {
                0
            };
            let last: u32 = if (end_x as u32) < self.width - 1 {
                end_x as u32
            } else {
                self.width - 1
            };
            proof {
                lemma_grid_index_bounds(self.width, self.height, first as int, scan_y as int);
                lemma_grid_index_bounds(self.width, self.height, last as int, scan_y as int);
                assert(in_grid(self.width, self.height, first as int, scan_y as int));
                assert(region(first as int, scan_y as int));
            }
            let row_start: u32 = (scan_y as u32) * self.width;
            let start_idx = (row_start + first) as usize;
            let end_idx = (row_start + last) as usize;
            let pixel_count = self.pixels.len();
            let mut i = start_idx;
            while i <= end_idx
                invariant
                    start_idx <= i <= end_idx + 1,
                    end_idx < pixel_count,
                    pixel_count == self.pixels@.len(),
                    self.pixels@.len() == before@.len(),
                    self.width == before.width,
                    self.height == before.height,
                    self.dirty,
                    forall|k: int|
                        0 <= k < self.pixels@.len() ==> #[trigger] self.pixels@[k] == if start_idx
                            <= k < i {
                            color
                        } else {
                            before@[k]
                        },
                decreases end_idx + 1 - i,
            {
                self.pixels.set(i, color);
                i = i + 1;
            }
            assert forall|x: int, y: int| in_grid(self.width, self.height, x, y) implies #[trigger] self.pixel(x, y)
                == if region(x, y) {
                color
            } else {
                before.pixel(x, y)
            } by {
                lemma_grid_index_bounds(self.width, self.height, x, y);
                lemma_grid_index_row(self.width, self.height, x, y, scan_y as int);
            }
        } else {
            assert forall|x: int, y: int| in_grid(self.width, self.height, x, y) implies #[trigger] self.pixel(x, y)
                == if region(x, y) {
                color
            } else {
                before.pixel(x, y)
            } by {}
        }
    }

    /// A quick test that `draw_line(pos1, pos2, radius, _)` may be called on
    /// this canvas: the line's distances are at most a third of `i32::MAX`,
    /// the brush fits within `i32` around both end points, and the canvas has
    /// at most `2^31` pixels. A `true` answer meets `draw_line`'s `requires`.
    pub fn can_draw_line(&self, pos1: CanvasPos, pos2: CanvasPos, radius: u32) -> (ok: bool)
        requires
            self.wf(),
        ensures
            ok == self.quick_line_check(pos1, pos2, signed_of(radius)),
            ok == {
                let r = signed_of(radius);
                let brush = |c: int|
                    i32::MIN <= c - r <= i32::MAX && i32::MIN <= c + r <= i32::MAX && i32::MIN <= c
                        + r - 1 <= i32::MAX;
                &&& 3 * iabs(pos1.x - pos2.x) <= i32::MAX
                &&& 3 * iabs(pos1.y - pos2.y) <= i32::MAX
                &&& brush(pos1.x as int) && brush(pos1.y as int)
                &&& brush(pos2.x as int) && brush(pos2.y as int)
                &&& self.width() * self.height() <= 0x8000_0000
            },
            ok ==> line_fits(pos1, pos2, signed_of(radius)),
            ok ==> forall|x: int, y: int|
                line_covers(pos1, pos2, signed_of(radius), x, y) ==> #[trigger] self.index_fits(x, y),
    {
        let r = cast_signed(radius) as i64;
        let ddx = pos1.x as i64 - pos2.x as i64;
        let ddy = pos1.y as i64 - pos2.y as i64;
        let dx = if ddx < 0 {
            -ddx
        } else {
            ddx
        };
        let dy = if ddy < 0 {
            -ddy
        } else {
            ddy
        };
        let short = 3 * dx <= 0x7fff_ffff && 3 * dy <= 0x7fff_ffff;
        let brush_fits = stamp_bounds_ok(pos1.x, r) && stamp_bounds_ok(pos1.y, r) && stamp_bounds_ok(
            pos2.x,
            r,
        ) && stamp_bounds_ok(pos2.y, r);
        let small = (self.width as u64) * (self.height as u64) <= 0x8000_0000;
        let ok = short && brush_fits && small;
        proof {
            if ok {
                lemma_line_fits_when_short(pos1, pos2, signed_of(radius));
                assert forall|x: int, y: int|
                    line_covers(pos1, pos2, signed_of(radius), x, y) implies #[trigger] self.index_fits(x, y) by {
                    self.lemma_index_fits_when_small(x, y);
                }
            }
        }
        ok
    }

    /// Draws a line from `pos1` to `pos2` with the specified thickness and color.
    ///
    /// The line is Bresenham's walk from `pos1` to `pos2`; at each of its
    /// pixels a run of `2 * radius` pixels is stamped across the major axis.
    pub fn draw_line(&mut self, pos1: CanvasPos, pos2: CanvasPos, radius: u32, color: PixelColor)
        requires
            old(self).wf(),
            line_fits(pos1, pos2, signed_of(radius)),
            line_is_shallow(pos1, pos2) ==> forall|x: int, y: int|
                line_covers(pos1, pos2, signed_of(radius), x, y) ==> #[trigger] old(self).index_fits(
                    x,
                    y,
                ),
        ensures
            final(self).wf(),
            same_grid(*old(self), *final(self)),
            painted(
                *old(self),
                *final(self),
                |x: int, y: int| line_covers(pos1, pos2, signed_of(radius), x, y),
                color,
            ),
            final(self).is_dirty() == (old(self).is_dirty() || touches(
                *old(self),
                |x: int, y: int| line_covers(pos1, pos2, signed_of(radius), x, y),
            )),
    {
        let ghost before = *self;
        let ghost r = signed_of(radius);
        let ghost n = line_steps(pos1, pos2);
        let radius = cast_signed(radius);
        let ddx = pos1.x - pos2.x;
        let ddy = pos1.y - pos2.y;
        let dx = if ddx < 0 {
            -ddx
        } else {
            ddx
        };
        let dy = if ddy < 0 {
            -ddy
        } else {
            ddy
        };
        let sx: i32 = if pos1.x < pos2.x {
            1
        } else {
            -1
        };
        let sy: i32 = if pos1.y < pos2.y {
            1
        } else {
            -1
        };
        let mut err = dx - dy;

        let mut x = pos1.x;
        let mut y = pos1.y;
        let ghost mut k: nat = 0;
        proof {
            lemma_line_ends(pos1, pos2);
            assert forall|a: int, b: int| in_grid(self.width, self.height, a, b) implies #[trigger] self.pixel(a, b)
                == if line_covers_upto(pos1, pos2, r, 0, a, b) {
                color
            } else {
                before.pixel(a, b)
            } by {}
        }

        loop
            invariant_except_break
                painted(before, *self, |a: int, b: int| line_covers_upto(pos1, pos2, r, k, a, b), color),
                self.is_dirty() == (before.is_dirty() || touches(
                    before,
                    |a: int, b: int| line_covers_upto(pos1, pos2, r, k, a, b),
                )),
            invariant
                self.wf(),
                before.wf(),
                self.width() == before.width(),
                self.height() == before.height(),
                line_fits(pos1, pos2, r),
                line_is_shallow(pos1, pos2) ==> forall|a: int, b: int|
                    line_covers(pos1, pos2, r, a, b) ==> #[trigger] before.index_fits(a, b),
                radius as int == r,
                dx as int == line_dx(pos1, pos2),
                dy as int == line_dy(pos1, pos2),
                sx as int == (if pos1.x < pos2.x { 1int } else { -1int }),
                sy as int == (if pos1.y < pos2.y { 1int } else { -1int }),
                n == line_steps(pos1, pos2),
                k <= n,
                (x as int, y as int, err as int) == line_state(pos1, pos2, k),
                forall|j: nat| j < n ==> #[trigger] line_point(pos1, pos2, j) != (pos2.x as int, pos2.y as int),
                line_point(pos1, pos2, n) == (pos2.x as int, pos2.y as int),
            ensures
                self.wf(),
                painted(
                    before,
                    *self,
                    |a: int, b: int| line_covers_upto(pos1, pos2, r, n + 1, a, b),
                    color,
                ),
                self.is_dirty() == (before.is_dirty() || touches(
                    before,
                    |a: int, b: int| line_covers_upto(pos1, pos2, r, n + 1, a, b),
                )),
            decreases n - k,
        {
            let ghost mid = *self;
            let ghost done = |a: int, b: int| line_covers_upto(pos1, pos2, r, k, a, b);
            let ghost stamp = |a: int, b: int| stamp_covers(pos1, pos2, r, k, a, b);
            let ghost next = |a: int, b: int| line_covers_upto(pos1, pos2, r, k + 1, a, b);
            proof {
                assert(line_stamp_fits(pos1, pos2, r, line_state(pos1, pos2, k)));
            }
            if dx >= dy {
                // Shallow line: plot 1 vertical pixel strip of height 'width'
                let y_start = y - radius;
                let y_end = y + radius - 1;
                let mut yy = y_start;
                proof {
                    assert forall|a: int, b: int| in_grid(self.width, self.height, a, b) implies #[trigger] self.pixel(a, b)
                        == if (a == x && y_start <= b < yy) {
                        color
                    } else {
                        mid.pixel(a, b)
                    } by {}
                }
                while yy <= y_end
                    invariant
                        self.wf(),
                        mid.wf(),
                        self.width() == mid.width(),
                        self.height() == mid.height(),
                        mid.width() == before.width(),
                        mid.height() == before.height(),
                        y_start <= yy,
                        yy <= y_end + 1 || yy == y_start,
                        y_end + 1 <= i32::MAX,
                        n == line_steps(pos1, pos2),
                        y_start == y - r,
                        y_end == y + r - 1,
                        (x as int, y as int) == line_point(pos1, pos2, k),
                        line_is_shallow(pos1, pos2),
                        k <= n,
                        forall|a: int, b: int|
                            line_covers(pos1, pos2, r, a, b) ==> #[trigger] before.index_fits(a, b),
                        painted(mid, *self, |a: int, b: int| a == x && y_start <= b < yy, color),
                        self.is_dirty() == (mid.is_dirty() || touches(
                            mid,
                            |a: int, b: int| a == x && y_start <= b < yy,
                        )),
                    decreases y_end - yy + 1,
                {
                    let ghost cur = *self;
                    proof {
                        assert(stamp_covers(pos1, pos2, r, k, x as int, yy as int));
                        assert(line_covers(pos1, pos2, r, x as int, yy as int));
                        assert(before.index_fits(x as int, yy as int));
                    }
                    self.set_pixel(x, yy, color);
                    proof {
                        lemma_paint_then_paint(
                            mid,
                            cur,
                            *self,
                            |a: int, b: int| a == x && y_start <= b < yy,
                            |a: int, b: int| a == x && b == yy,
                            |a: int, b: int| a == x && y_start <= b < yy + 1,
                            color,
                        );
                    }
                    yy = yy + 1;
                }
                proof {
                    let strip = |a: int, b: int| a == x && y_start <= b < yy;
                    assert forall|a: int, b: int| #[trigger] stamp(a, b) == strip(a, b) by {}
                    lemma_painted_same_region(mid, *self, strip, stamp, color);
                }
            } else {
                // Steep line: plot 1 horizontal span of length 'width'
                let x_start = x - radius;
                let x_end = x + radius - 1;
                self.fill_scanline(y, x_start, x_end, color);
                proof {
                    let span = |a: int, b: int| b == y && x_start <= a <= x_end;
                    assert forall|a: int, b: int| #[trigger] span(a, b) == stamp(a, b) by {}
                    lemma_painted_same_region(mid, *self, span, stamp, color);
                }
            }
            proof {
                assert forall|a: int, b: int| #[trigger] next(a, b) == (done(a, b) || stamp(a, b)) by {
                    lemma_line_covers_upto_succ(pos1, pos2, r, k, a, b);
                }
                lemma_paint_then_paint(before, mid, *self, done, stamp, next, color);
            }

            if x == pos2.x && y == pos2.y {
                proof {
                    if k < n {
                        assert(line_point(pos1, pos2, k) != (pos2.x as int, pos2.y as int));
                    }
                }
                break;
            }
            proof {
                lemma_line_state_inv(pos1, pos2, k + 1);
                assert(line_step_fits(pos1, pos2, line_state(pos1, pos2, k)));
            }
            let e2 = 2 * err;
            if e2 > -dy {
                err -= dy;
                x += sx;
            }
            if e2 < dx {
                err += dx;
                y += sy;
            }
            proof {
                k = k + 1;
            }
        }
        proof {
            let covered = |a: int, b: int| line_covers_upto(pos1, pos2, r, n + 1, a, b);
            let full = |a: int, b: int| line_covers(pos1, pos2, r, a, b);
            assert forall|a: int, b: int| #[trigger] covered(a, b) == full(a, b) by {}
            lemma_painted_same_region(before, *self, covered, full, color);
        }
    }

    /// Continues a pencil stroke that is dragged to `pos`: draws a black line
    /// of radius 1 from `pos` to the previous drag position (a single stamp
    /// at `pos` when the drag has just started) and returns `pos` as the new
    /// previous drag position.
    pub fn continue_stroke(&mut self, pos: CanvasPos, last_drag_pos: Option<CanvasPos>) -> (next: Option<CanvasPos>)
        requires
            old(self).wf(),
            line_fits(pos, stroke_from(pos, last_drag_pos), 1),
            line_is_shallow(pos, stroke_from(pos, last_drag_pos)) ==> forall|x: int, y: int|
                line_covers(pos, stroke_from(pos, last_drag_pos), 1, x, y) ==> #[trigger] old(
                    self,
                ).index_fits(x, y),
        ensures
            final(self).wf(),
            same_grid(*old(self), *final(self)),
            painted(
                *old(self),
                *final(self),
                |x: int, y: int| line_covers(pos, stroke_from(pos, last_drag_pos), 1, x, y),
                PixelColor::black(),
            ),
            final(self).is_dirty() == (old(self).is_dirty() || touches(
                *old(self),
                |x: int, y: int| line_covers(pos, stroke_from(pos, last_drag_pos), 1, x, y),
            )),
            next == Some(pos),
            last_drag_pos matches Some(p) ==> painted(
                *old(self),
                *final(self),
                |x: int, y: int| line_covers(pos, p, 1, x, y),
                PixelColor::black(),
            ),
            last_drag_pos is None ==> painted(
                *old(self),
                *final(self),
                |x: int, y: int| line_covers(pos, pos, 1, x, y),
                PixelColor::black(),
            ),
    {
        let from = match last_drag_pos {
            Some(p) => p,
            None => pos,
        };
        proof {
            assert(signed_of(1) == 1);
        }
        self.draw_line(pos, from, 1, PixelColor::black());
        Some(pos)
    }

    /// Fills a circle with a solid color using a scanline approach.
    ///
    /// The radius is the distance from the center to the edge, so a radius 0
    /// circle is a single pixel, and a radius 1 circle has a diameter of 3.
    pub fn fill_circle(&mut self, center: CanvasPos, radius: u32, color: PixelColor)
        requires
            old(self).wf(),
            circle_fits(center, signed_of(radius)),
        ensures
            final(self).wf(),
            same_grid(*old(self), *final(self)),
            painted(
                *old(self),
                *final(self),
                |x: int, y: int| in_disk(center.x as int, center.y as int, signed_of(radius), x, y),
                color,
            ),
            final(self).is_dirty() == (old(self).is_dirty() || touches(
                *old(self),
                |x: int, y: int| in_disk(center.x as int, center.y as int, signed_of(radius), x, y),
            )),
    {
        let ghost before = *self;
        let ghost r = signed_of(radius);
        let ghost cx = center.x as int;
        let ghost cy = center.y as int;
        let radius = cast_signed(radius);
        let mut delta_y = -radius;
        proof {
            assert forall|a: int, b: int| in_grid(self.width, self.height, a, b) implies #[trigger] self.pixel(a, b)
                == if (in_disk(cx, cy, r, a, b) && b < cy + delta_y) {
                color
            } else {
                before.pixel(a, b)
            } by {
                if in_disk(cx, cy, r, a, b) {
                    lemma_disk_rows(cx, cy, r, a, b);
                }
            }
            let done0 = |a: int, b: int| in_disk(cx, cy, r, a, b) && b < cy + delta_y;
            if touches(before, done0) {
                let (a, b) = choose|a: int, b: int| in_grid(before.width(), before.height(), a, b) && #[trigger] done0(a, b);
                lemma_disk_rows(cx, cy, r, a, b);
            }
        }
        while delta_y <= radius
            invariant
                self.wf(),
                before.wf(),
                self.width() == before.width(),
                self.height() == before.height(),
                radius as int == r,
                circle_fits(center, r),
                cx == center.x,
                cy == center.y,
                -r <= delta_y,
                r >= 0 ==> delta_y <= r + 1,
                painted(
                    before,
                    *self,
                    |a: int, b: int| in_disk(cx, cy, r, a, b) && b < cy + delta_y,
                    color,
                ),
                self.is_dirty() == (before.is_dirty() || touches(
                    before,
                    |a: int, b: int| in_disk(cx, cy, r, a, b) && b < cy + delta_y,
                )),
            decreases r + 1 - delta_y,
        {
            let ghost mid = *self;
            let ghost done = |a: int, b: int| in_disk(cx, cy, r, a, b) && b < cy + delta_y;
            let ghost row = |a: int, b: int| in_disk(cx, cy, r, a, b) && b == cy + delta_y;
            let ghost next = |a: int, b: int| in_disk(cx, cy, r, a, b) && b < cy + delta_y + 1;
            let y = center.y + delta_y;
            if y >= 0 {
                assert(r >= 0);
                assert(radius * radius <= i32::MAX);
                assert(0 <= delta_y * delta_y) by (nonlinear_arith);
                assert(delta_y * delta_y <= radius * radius) by (nonlinear_arith)
                    requires
                        -radius <= delta_y <= radius,
                ;
                let delta_x = isqrt(radius * radius - delta_y * delta_y);
                proof {
                    assert(disk_half_width(r, delta_y as int, delta_x as int));
                }
                let start_x = center.x - delta_x;
                let end_x = center.x + delta_x;
                self.fill_scanline(y, start_x, end_x, color);
                proof {
                    let span = |a: int, b: int| b == y && start_x <= a <= end_x;
                    assert forall|a: int, b: int|
                        in_grid(mid.width(), mid.height(), a, b) implies #[trigger] span(a, b) == row(a, b) by {
                        if b == y {
                            lemma_disk_row(cx, cy, r, delta_y as int, delta_x as int, a);
                        }
                    }
                    lemma_painted_same_region(mid, *self, span, row, color);
                    assert forall|a: int, b: int| #[trigger] next(a, b) == (done(a, b) || row(a, b)) by {}
                    lemma_paint_then_paint(before, mid, *self, done, row, next, color);
                }
            } else {
                proof {
                    assert forall|a: int, b: int|
                        in_grid(before.width(), before.height(), a, b) implies #[trigger] done(a, b) == next(a, b) by {}
                    lemma_painted_same_region(before, *self, done, next, color);
                }
            }
            proof {
                // `delta_y + 1` stays within `i32`: a disk that reaches the
                // canvas has a radius whose square fits, and one that does not
                // lies within `i32` rows below zero.
                if center.y + radius >= 0 {
                    assert(radius < 0x7fff_ffff) by (nonlinear_arith)
                        requires
                            radius >= 0,
                            radius * radius <= 0x7fff_ffff,
                    ;
                }
            }
            delta_y += 1;
        }
        proof {
            let done = |a: int, b: int| in_disk(cx, cy, r, a, b) && b < cy + delta_y;
            let disk = |a: int, b: int| in_disk(cx, cy, r, a, b);
            assert forall|a: int, b: int|
                in_grid(before.width(), before.height(), a, b) implies #[trigger] done(a, b) == disk(a, b) by {
                if in_disk(cx, cy, r, a, b) {
                    lemma_disk_rows(cx, cy, r, a, b);
                }
            }
            lemma_painted_same_region(before, *self, done, disk, color);
        }
    }

}

} // verus!
