//! An interpreter for Piet, a language whose programs are raster images.
//!
//! A grid of colours is grouped into colour blocks; a pointer walks from
//! block to block, and each transition between two colours selects an
//! operation on an integer stack.

pub mod codel;
pub mod command;
pub mod direction;
pub mod interpreter;
pub mod program;
pub mod region;
pub mod state;
