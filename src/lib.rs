//! NEPAK v1: a deterministic, content-addressed file archive format.
//!
//! The library holds the archive engine: the byte layout (header, payload
//! region, sorted index, footer), the builder that assembles an archive
//! image, and the reader that parses and validates one.

pub mod error;
pub mod format;
pub mod io;
pub mod text;
pub mod digest;
pub mod order;
pub mod builder;
pub mod reader;
pub mod path;
pub mod archive;
pub mod laws;
pub mod form;
pub mod gui;

pub use archive::{entries, extract, list, read_entries, verify, EntryInfo};
pub use builder::{build, SourceFile};
pub use error::{PakError, PakResult};
pub use format::{Entry, PayloadKind, FOOTER_MAGIC, MAGIC};
pub use io::{hex32, read_exact, read_u16, read_u32, read_u64, read_u8, write_u32, write_u64};
pub use path::{logical_path, normalize_rel_path, prefixed, should_exclude};
