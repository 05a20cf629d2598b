//! Encoding of binary data as text that a person can look at and copy: as
//! grids of Unicode box-drawing characters, as runes of a 32-letter
//! alphabet, and as combining diacritics over the letters of a text.
//!
//! The box codec draws a payload on a layout, a grid of cells. Every filled
//! cell with two or more filled neighbours takes as many bits of the payload
//! as it has such neighbours and shows them as one of the glyphs of its
//! shape; blackout cells show a fixed text.
//!
//! - [`connections`]: the shapes of cells and their glyph families.
//! - [`layout`]: the grid, its capacity, and reading it from a picture.
//! - [`sizer`]: growing a layout until it holds a payload.
//! - [`codec`]: bytes to the points of the cells, and points to bytes.
//! - [`render`]: points to text, and text to symbols and bytes.
//! - [`roundtrip`]: what is read back from a drawing.
//! - [`capacity`]: how the two measures of a grid compare.
//! - [`pack`]: the arithmetic of packing bits.
//! - [`futhark`]: the rune codec.
//! - [`cursed`]: the diacritics codec.
//! - [`text`]: what is taken from the standard library and from the text
//!   segmentation of Unicode without proof.

pub mod capacity;
pub mod codec;
pub mod connections;
pub mod cursed;
pub mod futhark;
pub mod layout;
pub mod pack;
pub mod render;
pub mod roundtrip;
pub mod sizer;
pub mod text;

pub use crate::codec::box_points_to_bytes;
pub use crate::connections::Connections;
pub use crate::cursed::{
    bytes_to_diactrics_points, diatric_points_to_bytes, is_diactric, parse_curse_to_points,
    CurseError, CursedConfig,
};
pub use crate::futhark::{
    bytes_to_points, generate_runes, parse_runes, parse_runes_to_points, points_to_bytes,
    try_generate_runes, ALPHA_NUM, FUTHARK,
};
pub use crate::layout::{gen_layout, marked_layout, BoxLayout, Cell};
pub use crate::render::{
    decode_to_bytes, generate_boxes, parse_boxes_to_points, parse_clusters, EncodeError,
};
pub use crate::sizer::{check_config, layout_byte_length, AspectRatio, BoxLayoutConfig};
