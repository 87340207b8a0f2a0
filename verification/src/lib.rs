//! Highway processing for a map generator that turns OpenStreetMap data into
//! a block world.

pub mod binary32;
pub mod bitmap;
pub mod blocks;
pub mod bresenham;
pub mod coords;
pub mod features;
pub mod highways;
pub mod osm;
pub mod palettes;
pub mod placement;
pub mod scale;
pub mod tags;
pub mod text;
pub mod world_editor;
