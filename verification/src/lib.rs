//! Reading, checking, and writing WARC records.

pub mod octets;
pub mod chunked;
pub mod text;
pub mod recorder;
pub mod record;
pub mod version;
pub mod warc_reader;
pub mod warc_record;
pub mod warc_writer;
pub mod parse;
pub mod parsing;
pub mod value;
