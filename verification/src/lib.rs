use vstd::prelude::*;

mod bitmap;
mod codec;
mod color;
mod compose;
mod error;
mod index;

pub use bitmap::Bitmap;
pub use codec::{decode, encode};
pub use color::MyColor;
pub use compose::{
    assemble, assemble_parts, choose_tile, compose_plan, draw_cell_randoms, plan_cells,
    plan_quadrant, WorkerResult, TILE_EDGE,
};
pub use error::MosaicError;
pub use index::{build_index, nearest_color, ColorIndex, Entry, TileRef, TileSample};
