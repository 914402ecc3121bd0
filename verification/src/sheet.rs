//! The finished sprite sheet and the whole way to it from text.
use vstd::prelude::*;
use vstd::string::StringSliceAdditionalSpecFns;
use crate::anims::AnimTable;
use crate::assemble::{assemble, assembled};
use crate::error::Error;
use crate::grammar::{all, models, spec_all};
use crate::raster::{rasterizes, ImageData, Layout, Quad};
use crate::size::{lemma_assembled_extent, lemma_document_cells};

verus! {

/// A sprite sheet: the named animation ranges, one rectangle per frame,
/// and the image that holds all frames side by side.
#[derive(Debug, Clone, PartialEq, Eq)]
pub struct Dirt {
    pub anims: AnimTable,
    pub framelist: Vec<Quad>,
    pub image_data: ImageData,
}

/// The longest document that can be compiled, in bytes: what keeps every
/// extent of the image within 32 bits.
pub const MAX_SOURCE_LEN: usize = 0xffff_ffff;

/// Whether `r` is what compiling the document `source` gives.
///
/// A document that is not grammatical gives the grammar's error, and one
/// whose statements break a rule gives the error of the first that does.
/// Otherwise the frames are rasterized from left to right with the
/// palette of the whole document; the sheet carries the image, the
/// rectangles and the animation table, and a cell without a colour gives
/// the rasterizer's error.
pub open spec fn compiles(source: Seq<u8>, r: Result<Dirt, Error>) -> bool {
    match spec_all(source) {
        Err(e) => r == Err::<Dirt, Error>(e),
        Ok(statements) => match assembled(statements) {
            Err(e) => r == Err::<Dirt, Error>(e),
            Ok(a) => match r {
                Ok(sheet) => {
                    &&& sheet.anims.wf()
                    &&& sheet.anims@ == a.anims
                    &&& rasterizes(
                        a.frames,
                        a.palette,
                        Layout::Horizontal,
                        Ok((sheet.image_data, sheet.framelist)),
                    )
                },
                Err(e) => rasterizes(a.frames, a.palette, Layout::Horizontal, Err(e)),
            },
        },
    }
}

impl Dirt {
    /// Compiles a document given as bytes.
    pub fn from_bytes(code: &[u8]) -> (r: Result<Dirt, Error>)
        requires
            code@.len() <= MAX_SOURCE_LEN,
        ensures
            compiles(code@, r),
    {
        let statements = match all(code) {
            Ok(statements) => statements,
            Err(e) => {
                return Err(e);
            },
        };
        let (anims, list) = match assemble(&statements) {
            Ok(parts) => parts,
            Err(e) => {
                return Err(e);
            },
        };
        proof {
            lemma_document_cells(code@);
            lemma_assembled_extent(models(statements@));
        }
        match list.to_pixels(Layout::Horizontal) {
            Ok((image_data, framelist)) => Ok(Dirt { anims, framelist, image_data }),
            Err(e) => Err(e),
        }
    }

    /// Compiles a document given as text.
    pub fn from_str(code: &str) -> (r: Result<Dirt, Error>)
        requires
            code.spec_bytes().len() <= MAX_SOURCE_LEN,
        ensures
            compiles(code.spec_bytes(), r),
    {
        Dirt::from_bytes(code.as_bytes())
    }
}

} // verus!
