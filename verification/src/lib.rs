//! Tabular layout reconstruction for OCR output.
//!
//! Given recognized text units with pixel-space bounding boxes, or plain
//! text lines with no geometry, the library recovers a two-dimensional grid
//! of text cells approximating the visual row/column layout of the source:
//! units are clustered into rows by vertical proximity, column gaps are
//! detected either from a coverage histogram over pixel positions or from
//! all-space character columns, and each unit is bucketed into a cell.

pub mod words;
pub mod rows;
pub mod splits;
pub mod grid;
pub mod lines;
pub mod region;
pub mod parse;
pub mod models;
pub mod prep;
pub mod laws;
