//! Schema-on-read ingestion of SoR text: every line of such a file is a run
//! of `<field>` cells, the type of each column is inferred from a bounded
//! sample of the lines, and the file is materialised column by column.
//!
//! * [`lines`] finds the lines of a byte slice.
//! * [`parsers`] recognises one field or one line in a byte slice.
//! * [`schema`] holds the column types, their precedence and the inference
//!   of a schema from sampled lines.
//! * [`dataframe`] holds cells and columns, plans the byte ranges that the
//!   workers read, reads one range and merges the partial tables.
//! * [`convert`] turns vectors into columns and columns into vectors.
//! * [`reader`] infers a schema from the head of a text and reads a chunk
//!   into columns of cells.
//! * [`trailing`] shows that what follows the last field of a row does not
//!   change the row.
//! * [`window`] shows which lines the ranges of a plan cover.
//!
//! All functions work on bytes that are already in memory; opening and
//! reading files is left to the caller.

pub mod convert;
pub mod dataframe;
pub mod lines;
pub mod parsers;
pub mod reader;
pub mod schema;
pub mod trailing;
pub mod window;
