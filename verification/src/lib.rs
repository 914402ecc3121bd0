//! Compiler from the textual "Dirt" sprite description format to an in-memory
//! RGBA sprite sheet.
//!
//! A document declares named animation ranges, a palette that maps single
//! characters to colours, and a numbered sequence of equally sized frames
//! drawn in those characters. [`sheet::Dirt::from_str`] reads one and packs
//! its frames into a single image:
//!
//! text → [`grammar`] → statements → [`assemble`] → animation table,
//! palette and frames → [`raster`] → pixels and one rectangle per frame.
//!
//! Every function carries a contract over the mathematical meaning of its
//! arguments; [`laws`] states what follows for whole documents.

pub mod color;
pub mod error;
pub mod lex;
pub mod grammar;
pub mod anims;
pub mod frames;
pub mod assemble;
pub mod raster;
pub mod size;
pub mod sheet;
pub mod canon;
pub mod laws;

pub use crate::color::Color;
pub use crate::error::Error;
pub use crate::grammar::Anim;
pub use crate::raster::{ImageData, Layout, Quad};
pub use crate::sheet::Dirt;
