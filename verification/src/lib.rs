//! Extraction of the metadata header of an astronomical data file: fixed
//! 2880-byte blocks are scanned for the END sentinel, the accumulated bytes
//! are split into 80-byte cards, and each card is parsed into a named, typed
//! keyword record.

pub mod card;
pub mod header;
pub mod text;
pub mod tools;
pub mod value;

pub use crate::header::Header;
pub use crate::header::HeaderScanner;
pub use crate::header::Keyword;
pub use crate::header::parse_card;
pub use crate::header::parse_header_bytes;
pub use crate::tools::is_gzip_magic;
pub use crate::value::FITSValue;
pub use crate::value::HeaderError;
pub use crate::value::parse_keyword_value;
