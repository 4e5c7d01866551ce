//! Verified core of a SOME/IP traffic analyzer: a named, possibly
//! self-referential data-type graph loaded from tabular communication-matrix
//! rows, a wire codec that decodes and encodes payload bytes against that
//! graph, and a demultiplexer that takes captured frames apart down to
//! individual classified SOME/IP messages.

pub mod types;
pub mod matrix;
pub mod loader;
pub mod wire;
pub mod codec;
pub mod demux;
pub mod pcap;
pub mod reassembly;
pub mod trees;
