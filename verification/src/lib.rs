//! A hexadecimal dump engine: it reads bytes from a source abstraction and
//! renders them as annotated rows of hex values, with an optional masked
//! character column, a skipped byte prefix, a byte limit, and collapsing of
//! runs of identical rows into a single marker row.

use vstd::prelude::*;

pub mod cli;
pub mod dumper;
pub mod human;
pub mod render;
pub mod source;

pub use cli::Cli;
pub use dumper::Hedu;
pub use render::mask_chars;
pub use source::{DataSource, DumpError, MemSource};

verus! {

/// Number of bytes rendered per output row.
pub const BYTES_PER_LINE: usize = 16;

/// The glyph horizontal rule rows are made of.
pub const LINE_SEP_HORIZ: char = '─';

/// The glyph separating the columns of a row.
pub const LINE_SEP_VERT: char = '│';

/// The border around the character column.
pub const CHAR_BORDER: &'static str = "|";

} // verus!
