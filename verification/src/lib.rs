//! Generation of favicon icon sets from a single SVG drawing.

pub mod files;
pub mod markdown;
pub mod order;
pub mod plain;
pub mod render;
pub mod size;
pub mod svg;
pub mod svg_laws;
pub mod text;
