//! Verified core of a small set of command-line tools: a CRLF to LF
//! converter, the file-name rules of a gzip front end, and the process-list
//! operations of a top-like monitor.

pub mod crlf;
pub mod stream;
pub mod text;
pub mod paths;
pub mod convert_cli;
pub mod procs;
pub mod order;
pub mod sort;
pub mod view;

pub use crlf::{contains_crlf, memory};
pub use stream::{stream, ConvertResult, StreamConverter};
pub use paths::{default_output_for_compress, default_output_for_decompress};
pub use procs::{filter_processes, sort_process_list, ProcRow, SortKey};
pub use order::compare;
pub use sort::{resolve_anchor, sort_impl};
