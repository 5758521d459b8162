use vstd::prelude::*;

verus! {

/// Size in bytes of one data chunk; file contents are striped over the
/// servers chunk by chunk.
pub const CHUNK_SIZE: u64 = 8;

/// Size in bytes of the buffer that a directory listing is read into.
pub const DIRENT_BUF_SIZE: u64 = 8388608;

/// Number of connection manager ids a client opens.
pub const CLIENT_CM_IDS: usize = 1;

/// Where the RDMA transport listens.
#[derive(Debug)]
pub struct RDMAConfig {
    pub addr: String,
}

} // verus!
