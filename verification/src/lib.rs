//! A small rendering engine: it resolves the styles of a document tree,
//! lays the resulting boxes out with the block box model, and paints them
//! onto a pixel canvas. Lengths are counted in layout units, of which 64
//! make a pixel.

pub mod css;
pub mod dom;
pub mod error;
pub mod html;
pub mod layout;
pub mod painting;
pub mod px;
pub mod source;
pub mod string_map;
pub mod style;
pub mod text;
