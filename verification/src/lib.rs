//! Star systems and the objects in them, read from a save file.
//!
//! A save is an XML document. [`load_save`](extract::load_save) turns its
//! text into the list of systems, sorted by name; the modules below hold the
//! steps on the way.

pub mod error;
pub mod extract;
pub mod indices;
pub mod location;
pub mod model;
pub mod payload;
pub mod sorting;
pub mod text;
pub mod viewer;
pub mod xml;
