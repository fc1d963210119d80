//! Closed polygonal paths through the corners of a regular polygon,
//! counted up to the symmetries of the polygon.

pub mod lex;
pub mod orbit;
pub mod paths;
pub mod ranking;
pub mod render;
pub mod walk;
