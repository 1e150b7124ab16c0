//! A small raster-graphics and widget-layout library: integer vector maths,
//! an RGBA image with drawing primitives, a retained widget tree with a
//! layout pass, and the bookkeeping of a bump arena.
pub mod math;
pub mod draw;
pub mod gui;
pub mod obj;
