//! Powerline status line: parsing git porcelain output, shaping the
//! segments of the line and rendering them, with verified contracts.

pub mod text;
pub mod git;
pub mod render;
pub mod input;
pub mod segments;
