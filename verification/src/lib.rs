//! A Piet interpreter: images are read as grids of codels, codels of one
//! colour that touch form blocks, and an interpreter walks from block to block
//! executing the command that each change of colour encodes.

pub mod palette;
pub mod canvas;
pub mod interpreter;
pub mod surface;
pub mod lexer;
