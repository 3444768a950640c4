//! Bitmap font library: a shared font-property model with parsers for the
//! `bdf`, `ifnt`, `ifntx` and `tfon` plain-text formats and writers for
//! `ifnt` and `tfon`.

pub mod bdf;
mod common;
pub mod ifnt;
pub mod ifntx;
pub mod tfon;

pub use common::{Bitmap, BitmapSpec, Error, Prop, PropSpec};
