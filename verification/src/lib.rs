//! A small L-system (Lindenmayer rewriting system) engine for 2-D turtle
//! drawings.
//!
//! The crate is built around [`list::List`], an ordered sequence of owned
//! elements with constant-time append and front removal, tail-aware removal
//! from the back, and in-place splicing of a whole donor sequence over a
//! single element.  On top of it, [`parse`] reads the line-oriented grammar
//! text into a [`turtle::TurtleGraphConfig`], [`turtle`] holds the rewriter
//! that expands an axiom by its production rules, and [`interp`] walks the
//! expanded symbol sequence and emits drawing segments.

pub mod interp;
pub mod list;
pub mod parse;
pub mod turtle;
