//! Character frames and the list that collects them.
use vstd::prelude::*;
use std::collections::HashMap;
use crate::color::Color;
use crate::error::Error;
use crate::grammar::grid;

verus! {

/// A grid has at least one row, its first row at least one cell, and every
/// row as many cells as the first.
pub open spec fn well_shaped(g: Seq<Seq<u8>>) -> bool {
    &&& g.len() > 0
    &&& g[0].len() > 0
    &&& forall|r: int| 0 <= r < g.len() ==> (#[trigger] g[r]).len() == g[0].len()
}

/// Two grids have as many rows, and their first rows as many cells.
pub open spec fn same_size(a: Seq<Seq<u8>>, b: Seq<Seq<u8>>) -> bool {
    a.len() == b.len() && a[0].len() == b[0].len()
}

/// One frame: a rectangular grid of cells, each `.` or a palette key.
#[derive(Debug, Clone, PartialEq, Eq)]
pub struct CharFrame {
    pub data: Vec<Vec<u8>>,
    pub width: usize,
    pub height: usize,
}

impl View for CharFrame {
    type V = Seq<Seq<u8>>;

    open spec fn view(&self) -> Seq<Seq<u8>> {
        grid(self.data@)
    }
}

impl CharFrame {
    /// The grid is well shaped and the two extents are those of the grid.
    pub open spec fn wf(&self) -> bool {
        &&& well_shaped(self@)
        &&& self.height == self@.len()
        &&& self.width == self@[0].len()
    }

    /// Makes a frame of `data` if it is a well shaped grid, and fails with
    /// [`Error::Dimension`] if it is not.
    pub fn new(data: Vec<Vec<u8>>) -> (r: Result<CharFrame, Error>)
        ensures
            match r {
                Ok(frame) => frame.wf() && frame.data == data,
                Err(e) => e == Error::Dimension && !well_shaped(grid(data@)),
            },
    {
        let h = data.len();
        if h == 0 {
            return Err(Error::Dimension);
        }
        let w = data[0].len();
        if w == 0 {
            return Err(Error::Dimension);
        }
        let mut i: usize = 1;
        while i < h
            invariant
                h == data@.len(),
                1 <= i <= h,
                w == data@[0]@.len(),
                forall|r: int| 0 <= r < i ==> (#[trigger] grid(data@)[r]).len() == w,
            decreases h - i,
        {
            if data[i].len() != w {
                assert(grid(data@)[i as int].len() != grid(data@)[0].len());
                return Err(Error::Dimension);
            }
            i += 1;
        }
        Ok(CharFrame { data, width: w, height: h })
    }
}

/// The frames of a document in order, with the palette that colours them.
#[derive(Debug, Clone)]
pub struct CharFramelist {
    pub frames: Vec<CharFrame>,
    pub palette: HashMap<u8, Color>,
}

/// The grids of a list of frames, in order.
pub open spec fn grids(frames: Seq<CharFrame>) -> Seq<Seq<Seq<u8>>> {
    Seq::new(frames.len(), |i: int| frames[i]@)
}

/// Every grid is well shaped and has the size of the first.
pub open spec fn uniform(gs: Seq<Seq<Seq<u8>>>) -> bool {
    forall|i: int|
        0 <= i < gs.len() ==> well_shaped(#[trigger] gs[i]) && same_size(gs[i], gs[0])
}

/// The width of the first grid, and 0 where there is none.
pub open spec fn frame_width(gs: Seq<Seq<Seq<u8>>>) -> nat {
    if gs.len() == 0 {
        0
    } else {
        gs[0][0].len()
    }
}

/// The height of the first grid, and 0 where there is none.
pub open spec fn frame_height(gs: Seq<Seq<Seq<u8>>>) -> nat {
    if gs.len() == 0 {
        0
    } else {
        gs[0].len()
    }
}

impl CharFramelist {
    /// The grids of the frames, in order.
    pub open spec fn grids(&self) -> Seq<Seq<Seq<u8>>> {
        grids(self.frames@)
    }

    /// Every frame is well formed and all have the same size.
    pub open spec fn wf(&self) -> bool {
        &&& forall|i: int| 0 <= i < self.frames@.len() ==> (#[trigger] self.frames@[i]).wf()
        &&& uniform(self.grids())
    }

    /// An empty list with the given palette.
    pub fn new(palette: HashMap<u8, Color>) -> (list: CharFramelist)
        ensures
            list.wf(),
            list.frames@.len() == 0,
            list.palette == palette,
    {
        CharFramelist { frames: Vec::new(), palette }
    }

    /// Appends `frame` if the list is empty or the frame has the size of
    /// those in it; otherwise fails with [`Error::Dimension`] and leaves
    /// the list as it was.
    pub fn add(&mut self, frame: CharFrame) -> (r: Result<(), Error>)
        requires
            old(self).wf(),
            frame.wf(),
        ensures
            final(self).palette == old(self).palette,
            match r {
                Ok(_) => {
                    &&& old(self).frames@.len() == 0 || same_size(frame@, old(self).grids().last())
                    &&& final(self).frames@ == old(self).frames@.push(frame)
                    &&& final(self).wf()
                },
                Err(e) => {
                    &&& e == Error::Dimension
                    &&& old(self).frames@.len() > 0
                    &&& !same_size(frame@, old(self).grids().last())
                    &&& final(self).frames@ == old(self).frames@
                },
            },
    {
        let n = self.frames.len();
        if n > 0 {
            let last = &self.frames[n - 1];
            assert(self.grids()[n - 1] == last@);
            if frame.width != last.width || frame.height != last.height {
                return Err(Error::Dimension);
            }
        }
        self.frames.push(frame);
        proof {
            assert forall|i: int| 0 <= i < self.grids().len() implies well_shaped(
                #[trigger] self.grids()[i],
            ) && same_size(self.grids()[i], self.grids()[0]) by {
                if i < n {
                    assert(self.grids()[i] == old(self).grids()[i]);
                    assert(self.grids()[0] == old(self).grids()[0]);
                }
                if n > 0 {
                    assert(self.grids()[n - 1] == old(self).grids()[n - 1]);
                    assert(self.grids()[0] == old(self).grids()[0]);
                }
            }
        }
        Ok(())
    }

    /// The width and height of the first frame, which under [`Self::wf`]
    /// are those of every frame; `None` if there is no frame.
    pub fn size(&self) -> (r: Option<(usize, usize)>)
        ensures
            r == if self.frames@.len() == 0 {
                None::<(usize, usize)>
            } else {
                Some((self.frames@[0].width, self.frames@[0].height))
            },
    {
        if self.frames.len() == 0 {
            None
        } else {
            let first = &self.frames[0];
            Some((first.width, first.height))
        }
    }
}

} // verus!
