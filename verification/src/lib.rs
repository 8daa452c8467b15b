//! A small rendering engine: markup and style sheets in, a pixel raster out.
//!
//! The stages run strictly one after another: the markup parser builds a
//! document tree, the style sheet parser builds a list of rules, the style
//! resolver attaches the cascaded properties to every element, the layout
//! engine computes box geometry, and the painter fills rectangles into a
//! canvas. `pipeline::render` runs them all.
//!
//! Lengths and coordinates are whole numbers of layout units, a thousand to
//! the pixel (`css::UNITS_PER_PX`), held in an `i64`. Nothing is rounded on
//! the way but where a style sheet gives more than three places behind the
//! point and where two automatic margins share an odd number of units; the
//! painter cuts coordinates down to whole pixels. Geometry that leaves the
//! range of an `i64` is reported as an error.
//!
//! Each stage states what it computes as a function of its input: the
//! grammars in `html` and `css`, the cascade in `style`, block layout in
//! `layout`, the color of every pixel in `painting`.

pub mod css;
pub mod dom;
pub mod html;
pub mod layout;
pub mod painting;
pub mod pipeline;
pub mod style;
pub mod text;
