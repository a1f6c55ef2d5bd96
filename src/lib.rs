//! Remote filesystem portal: directory-tree scanning, chunked file-content
//! framing, and client-side reassembly into a self-describing byte buffer.

pub mod proto;
pub mod scan;
pub mod stream;
pub mod reassemble;
pub mod listing;
