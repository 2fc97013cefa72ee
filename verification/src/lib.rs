//! A terminal cell-grid text buffer.
//!
//! Text is kept in rows and addressed by display column, not by byte or by
//! character. A [`line::Line`] holds the text of one row and keeps its width
//! whatever is painted on it; [`spans::Spans`] holds the styles of its
//! columns as runs; a [`row::Row`] keeps the two as wide as each other; a
//! [`canvas::Canvas`] stacks rows of one width. [`unicode`] cuts text into
//! cells, the unit that a column belongs to.

pub mod canvas;
pub mod line;
pub mod row;
pub mod segment;
pub mod spans;
pub mod style;
pub mod unicode;
