//! A small library in two parts: an integer-grid geometry toolkit (points,
//! polygons, circles), and a verified model of a ring of workers contending
//! for shared exclusive resources (the dining-philosophers pattern), together
//! with the report channel and supervisor that drive it.

pub mod dining;
pub mod geometry;
pub mod report;
pub mod supervisor;
