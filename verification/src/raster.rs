//! Lowering of the frames to one RGBA pixel buffer, with the rectangle that
//! each frame takes in it.
//!
//! The frames stand side by side without gaps, from left to right or from
//! top to bottom. The buffer holds the combined image row by row, four
//! bytes (red, green, blue, alpha) per pixel.
use vstd::prelude::*;
use vstd::arithmetic::div_mod::{lemma_fundamental_div_mod_converse, lemma_multiply_divide_lt};
use vstd::arithmetic::mul::lemma_mul_inequality;
use crate::color::Color;
use crate::error::Error;
use crate::frames::{frame_height, frame_width, uniform, CharFramelist};

verus! {

/// The axis along which the frames are packed.
#[derive(Debug, Clone, Copy, PartialEq, Eq, Structural)]
pub enum Layout {
    Horizontal,
    Vertical,
}

/// The rectangle that one frame takes in the combined image.
#[derive(Debug, Clone, Copy, PartialEq, Eq, Structural)]
pub struct Quad {
    pub x: u32,
    pub y: u32,
    pub w: u32,
    pub h: u32,
}

/// An image of `width` by `height` pixels as a flat RGBA buffer.
#[derive(Debug, Clone, PartialEq, Eq)]
pub struct ImageData {
    pub width: u32,
    pub height: u32,
    pub data: Vec<u8>,
}

/// The byte that stands for an empty, fully transparent cell.
pub const EMPTY: u8 = 0x2e;

/// The colour of a cell: transparent black for `.`, whatever the palette
/// says of it; otherwise the palette's colour, if it has one.
pub open spec fn cell_color(palette: Map<u8, Color>, ch: u8) -> Option<Color> {
    if ch == EMPTY {
        Some(Color::transparent())
    } else if palette.contains_key(ch) {
        Some(palette[ch])
    } else {
        None
    }
}

/// The cell in column `c` of row `r` of frame `f`.
pub open spec fn cell(gs: Seq<Seq<Seq<u8>>>, f: int, r: int, c: int) -> u8 {
    gs[f][r][c]
}

pub open spec fn in_grids(gs: Seq<Seq<Seq<u8>>>, f: int, r: int, c: int) -> bool {
    0 <= f < gs.len() && 0 <= r < gs[f].len() && 0 <= c < gs[f][r].len()
}

/// Reading order: frame by frame, row by row, cell by cell.
pub open spec fn precedes(f1: int, r1: int, c1: int, f2: int, r2: int, c2: int) -> bool {
    f1 < f2 || (f1 == f2 && (r1 < r2 || (r1 == r2 && c1 < c2)))
}

/// Every cell before (`f`, `r`, `c`) in reading order has a colour.
pub open spec fn resolved_before(
    gs: Seq<Seq<Seq<u8>>>,
    palette: Map<u8, Color>,
    f: int,
    r: int,
    c: int,
) -> bool {
    forall|f1: int, r1: int, c1: int|
        in_grids(gs, f1, r1, c1) && precedes(f1, r1, c1, f, r, c) ==> cell_color(
            palette,
            #[trigger] cell(gs, f1, r1, c1),
        ) is Some
}

/// Every cell has a colour.
pub open spec fn resolves(gs: Seq<Seq<Seq<u8>>>, palette: Map<u8, Color>) -> bool {
    forall|f: int, r: int, c: int|
        in_grids(gs, f, r, c) ==> cell_color(palette, #[trigger] cell(gs, f, r, c)) is Some
}

/// `e` reports the first cell in reading order that has no colour: its
/// byte, the 1-based position of its frame, and its row and column.
pub open spec fn reports_first_unresolved(
    gs: Seq<Seq<Seq<u8>>>,
    palette: Map<u8, Color>,
    e: Error,
) -> bool {
    match e {
        Error::PaletteResolution { ch, frame, row, column } => {
            &&& in_grids(gs, frame - 1, row as int, column as int)
            &&& ch == cell(gs, frame - 1, row as int, column as int)
            &&& cell_color(palette, ch) is None
            &&& resolved_before(gs, palette, frame - 1, row as int, column as int)
        },
        _ => false,
    }
}

/// The width of the combined image.
pub open spec fn sheet_width(gs: Seq<Seq<Seq<u8>>>, layout: Layout) -> nat {
    match layout {
        Layout::Horizontal => gs.len() * frame_width(gs),
        Layout::Vertical => frame_width(gs),
    }
}

/// The height of the combined image.
pub open spec fn sheet_height(gs: Seq<Seq<Seq<u8>>>, layout: Layout) -> nat {
    match layout {
        Layout::Horizontal => frame_height(gs),
        Layout::Vertical => gs.len() * frame_height(gs),
    }
}

/// The cell that is shown at column `x` of row `y` of the combined image.
pub open spec fn sheet_cell(gs: Seq<Seq<Seq<u8>>>, layout: Layout, x: int, y: int) -> u8 {
    match layout {
        Layout::Horizontal => cell(
            gs,
            x / (frame_width(gs) as int),
            y,
            x % (frame_width(gs) as int),
        ),
        Layout::Vertical => cell(
            gs,
            y / (frame_height(gs) as int),
            y % (frame_height(gs) as int),
            x,
        ),
    }
}

/// Byte `i` of the buffer: channel `i % 4` of pixel `i / 4`, the pixels
/// counted row by row.
pub open spec fn sheet_byte(
    gs: Seq<Seq<Seq<u8>>>,
    palette: Map<u8, Color>,
    layout: Layout,
    i: int,
) -> u8 {
    let width = sheet_width(gs, layout) as int;
    let pixel = i / 4;
    cell_color(palette, sheet_cell(gs, layout, pixel % width, pixel / width)).unwrap().bytes()[i
        % 4]
}

/// The whole buffer.
pub open spec fn sheet_bytes(gs: Seq<Seq<Seq<u8>>>, palette: Map<u8, Color>, layout: Layout) -> Seq<
    u8,
> {
    Seq::new(
        4 * (sheet_height(gs, layout) * sheet_width(gs, layout)),
        |i: int| sheet_byte(gs, palette, layout, i),
    )
}

/// The rectangle of frame `k`: the size of a frame, moved along the
/// packing axis by `k` frames.
pub open spec fn sheet_quad(gs: Seq<Seq<Seq<u8>>>, layout: Layout, k: int) -> Quad {
    match layout {
        Layout::Horizontal => Quad {
            x: (k * frame_width(gs)) as u32,
            y: 0,
            w: frame_width(gs) as u32,
            h: frame_height(gs) as u32,
        },
        Layout::Vertical => Quad {
            x: 0,
            y: (k * frame_height(gs)) as u32,
            w: frame_width(gs) as u32,
            h: frame_height(gs) as u32,
        },
    }
}

/// The rectangles of all frames, in order.
pub open spec fn sheet_quads(gs: Seq<Seq<Seq<u8>>>, layout: Layout) -> Seq<Quad> {
    Seq::new(gs.len(), |k: int| sheet_quad(gs, layout, k))
}

/// Whether `r` is what rasterizing the grids `gs` with `palette` under
/// `layout` gives: the image and the rectangles if every cell has a
/// colour, and a report of the first cell without one if not.
pub open spec fn rasterizes(
    gs: Seq<Seq<Seq<u8>>>,
    palette: Map<u8, Color>,
    layout: Layout,
    r: Result<(ImageData, Vec<Quad>), Error>,
) -> bool {
    match r {
        Ok((image, quads)) => {
            &&& resolves(gs, palette)
            &&& image.width == sheet_width(gs, layout)
            &&& image.height == sheet_height(gs, layout)
            &&& image.data@ == sheet_bytes(gs, palette, layout)
            &&& quads@ == sheet_quads(gs, layout)
        },
        Err(e) => reports_first_unresolved(gs, palette, e),
    }
}

proof fn lemma_pixel_place(width: int, x: int, y: int)
    requires
        0 <= x < width,
        0 <= y,
    ensures
        (y * width + x) / width == y,
        (y * width + x) % width == x,
{
    lemma_fundamental_div_mod_converse(y * width + x, width, y, x);
}

proof fn lemma_frame_place(count: int, extent: int, x: int)
    requires
        0 <= x < count * extent,
        0 < extent,
    ensures
        0 <= x / extent < count,
        0 <= x % extent < extent,
{
    assert(count * extent == extent * count) by (nonlinear_arith);
    lemma_multiply_divide_lt(x, extent, count);
    assert(0 <= x / extent) by (nonlinear_arith)
        requires
            0 <= x,
            0 < extent,
    ;
}

impl CharFramelist {
    /// The byte in column `c` of row `r` of frame `f`.
    fn cell_at(&self, f: usize, r: usize, c: usize) -> (ch: u8)
        requires
            in_grids(self.grids(), f as int, r as int, c as int),
        ensures
            ch == cell(self.grids(), f as int, r as int, c as int),
    {
        self.frames[f].data[r][c]
    }

    /// The colour of a cell that holds `ch`.
    pub fn resolve(&self, ch: u8) -> (r: Option<Color>)
        ensures
            r == cell_color(self.palette@, ch),
    {
        broadcast use vstd::std_specs::hash::group_hash_axioms;

        if ch == EMPTY {
            Some(Color::from_hex(0x000000, 0))
        } else {
            match self.palette.get(&ch) {
                Some(color) => Some(*color),
                None => None,
            }
        }
    }

    /// Looks every cell up, in reading order, and reports the first that
    /// has no colour.
    pub fn check_palette(&self) -> (r: Result<(), Error>)
        requires
            self.wf(),
        ensures
            match r {
                Ok(_) => resolves(self.grids(), self.palette@),
                Err(e) => reports_first_unresolved(self.grids(), self.palette@, e),
            },
    {
        let ghost gs = self.grids();
        let mut f: usize = 0;
        while f < self.frames.len()
            invariant
                gs == self.grids(),
                f <= gs.len(),
                resolved_before(gs, self.palette@, f as int, 0, 0),
            decreases gs.len() - f,
        {
            assert(gs[f as int] == self.frames@[f as int]@);
            let frame = &self.frames[f];
            let mut r: usize = 0;
            while r < frame.data.len()
                invariant
                    gs == self.grids(),
                    f < self.frames.len(),
                    frame == self.frames@[f as int],
                    gs[f as int] == frame@,
                    r <= frame.data@.len(),
                    resolved_before(gs, self.palette@, f as int, r as int, 0),
                decreases frame.data@.len() - r,
            {
                let row = &frame.data[r];
                let mut c: usize = 0;
                while c < row.len()
                    invariant
                        gs == self.grids(),
                        f < self.frames.len(),
                        frame == self.frames@[f as int],
                        gs[f as int] == frame@,
                        r < frame.data@.len(),
                        row == frame.data@[r as int],
                        c <= row@.len(),
                        resolved_before(gs, self.palette@, f as int, r as int, c as int),
                    decreases row@.len() - c,
                {
                    let ch = row[c];
                    assert(ch == cell(gs, f as int, r as int, c as int));
                    if self.resolve(ch).is_none() {
                        return Err(
                            Error::PaletteResolution { ch, frame: f + 1, row: r, column: c },
                        );
                    }
                    c += 1;
                }
                r += 1;
            }
            f += 1;
        }
        Ok(())
    }

    /// Rasterizes the frames under `layout`.
    ///
    /// Fails with [`Error::PaletteResolution`] for the first cell, in
    /// reading order, that is neither `.` nor a palette key. The two
    /// extents of the combined image must fit in 32 bits.
    pub fn to_pixels(&self, layout: Layout) -> (r: Result<(ImageData, Vec<Quad>), Error>)
        requires
            self.wf(),
            sheet_width(self.grids(), layout) <= u32::MAX,
            sheet_height(self.grids(), layout) <= u32::MAX,
        ensures
            rasterizes(self.grids(), self.palette@, layout, r),
    {
        match self.check_palette() {
            Ok(_) => {},
            Err(e) => {
                return Err(e);
            },
        }
        let ghost gs = self.grids();
        let ghost palette = self.palette@;
        let count: usize = self.frames.len();
        let (w, h): (usize, usize) = match self.size() {
            Some(size) => size,
            None => (0, 0),
        };
        proof {
            if count > 0 {
                assert(gs[0] == self.frames@[0]@);
            }
        }
        assert(w == frame_width(gs) && h == frame_height(gs));
        let (sheet_w, sheet_h): (usize, usize) = match layout {
            Layout::Horizontal => (count * w, h),
            Layout::Vertical => (w, count * h),
        };
        let mut data: Vec<u8> = Vec::new();
        let mut y: usize = 0;
        assert(0 * sheet_w == 0);
        while y < sheet_h
            invariant
                gs == self.grids(),
                palette == self.palette@,
                uniform(gs),
                resolves(gs, palette),
                count == gs.len(),
                w == frame_width(gs),
                h == frame_height(gs),
                sheet_w == sheet_width(gs, layout),
                sheet_h == sheet_height(gs, layout),
                y <= sheet_h,
                data@.len() == 4 * (y * sheet_w),
                forall|i: int|
                    0 <= i < data@.len() ==> #[trigger] data@[i] == sheet_byte(
                        gs,
                        palette,
                        layout,
                        i,
                    ),
            decreases sheet_h - y,
        {
            let mut x: usize = 0;
            while x < sheet_w
                invariant
                    gs == self.grids(),
                    palette == self.palette@,
                    uniform(gs),
                    resolves(gs, palette),
                    count == gs.len(),
                    w == frame_width(gs),
                    h == frame_height(gs),
                    sheet_w == sheet_width(gs, layout),
                    sheet_h == sheet_height(gs, layout),
                    y < sheet_h,
                    x <= sheet_w,
                    data@.len() == 4 * (y * sheet_w + x),
                    forall|i: int|
                        0 <= i < data@.len() ==> #[trigger] data@[i] == sheet_byte(
                            gs,
                            palette,
                            layout,
                            i,
                        ),
                decreases sheet_w - x,
            {
                proof {
                    match layout {
                        Layout::Horizontal => {
                            lemma_frame_place(count as int, w as int, x as int);
                        },
                        Layout::Vertical => {
                            lemma_frame_place(count as int, h as int, y as int);
                        },
                    }
                }
                let (f, r, c): (usize, usize, usize) = match layout {
                    Layout::Horizontal => (x / w, y, x % w),
                    Layout::Vertical => (y / h, y % h, x),
                };
                assert(in_grids(gs, f as int, r as int, c as int));
                let ch = self.cell_at(f, r, c);
                assert(ch == sheet_cell(gs, layout, x as int, y as int));
                let color = self.resolve(ch).unwrap();
                let ghost before = data@;
                color.append(&mut data);
                proof {
                    let pixel = y * sheet_w + x;
                    lemma_pixel_place(sheet_w as int, x as int, y as int);
                    assert forall|i: int| 0 <= i < data@.len() implies #[trigger] data@[i]
                        == sheet_byte(gs, palette, layout, i) by {
                        if i >= before.len() {
                            assert(i / 4 == pixel);
                            assert(data@[i] == color.bytes()[i - 4 * pixel]);
                            assert(i % 4 == i - 4 * pixel);
                        } else {
                            assert(data@[i] == before[i]);
                        }
                    }
                }
                x += 1;
            }
            y += 1;
            assert(y * sheet_w == (y - 1) * sheet_w + sheet_w) by (nonlinear_arith);
        }
        assert(data@ =~= sheet_bytes(gs, palette, layout));
        let mut quads: Vec<Quad> = Vec::new();
        let mut k: usize = 0;
        while k < count
            invariant
                count == gs.len(),
                w == frame_width(gs),
                h == frame_height(gs),
                sheet_w == sheet_width(gs, layout),
                sheet_h == sheet_height(gs, layout),
                sheet_w <= u32::MAX,
                sheet_h <= u32::MAX,
                k <= count,
                quads@.len() == k,
                forall|j: int| 0 <= j < k ==> #[trigger] quads@[j] == sheet_quad(gs, layout, j),
            decreases count - k,
        {
            proof {
                lemma_mul_inequality(k as int, count as int, w as int);
                lemma_mul_inequality(k as int, count as int, h as int);
                lemma_mul_inequality(1, count as int, w as int);
                lemma_mul_inequality(1, count as int, h as int);
            }
            let quad = match layout {
                Layout::Horizontal => Quad { x: (k * w) as u32, y: 0, w: w as u32, h: h as u32 },
                Layout::Vertical => Quad { x: 0, y: (k * h) as u32, w: w as u32, h: h as u32 },
            };
            quads.push(quad);
            k += 1;
        }
        assert(quads@ =~= sheet_quads(gs, layout));
        Ok((ImageData { width: sheet_w as u32, height: sheet_h as u32, data }, quads))
    }
}

} // verus!
