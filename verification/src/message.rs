use vstd::prelude::*;

verus! {

/// The operation a server is asked to perform.
#[derive(PartialEq, Eq, Structural, Clone, Copy, Debug)]
pub enum PostOption {
    Stat,
    Create,
    Remove,
    RemoveMeta,
    UpdateMetadentry,
    Trunc,
    Write,
    Read,
    GetDirents,
    FsConfig,
}

/// A server's answer: `err` says that the server failed the request, and
/// `data` carries the answer's payload (an error code when `err` is set).
pub struct PostResult {
    pub err: bool,
    pub data: String,
}

/// What a write request tells the server that holds some chunks of it.
pub struct WriteData {
    pub path: String,
    pub offset: i64,
    pub host_id: u64,
    pub host_size: u64,
    pub chunk_n: u64,
    pub chunk_start: u64,
    pub chunk_end: u64,
    pub total_chunk_size: u64,
    pub buffers: String,
}

/// What a read request tells the server that holds some chunks of it.
pub struct ReadData {
    pub path: String,
    pub offset: i64,
    pub host_id: u64,
    pub host_size: u64,
    pub chunk_n: u64,
    pub chunk_start: u64,
    pub chunk_end: u64,
    pub total_chunk_size: u64,
}

/// The body of a request.
pub enum Payload {
    /// A path, sent as a one-field record.
    Path(String),
    /// A bare string, sent as it is.
    Raw(String),
    Create { path: String, mode: u32 },
    Decr { path: String, new_size: i64 },
    Trunc { path: String, new_size: i64 },
    UpdateMetadentry { path: String, size: u64, offset: i64, append: bool },
    Write(WriteData),
    Read(ReadData),
    /// No body at all.
    Empty,
}

/// One request: the index of the server it goes to, the operation and the body.
pub struct Request {
    pub host: u64,
    pub option: PostOption,
    pub payload: Payload,
}

/// Chunk usage that a server reports.
#[derive(PartialEq, Eq, Structural, Clone, Copy, Debug)]
pub struct ChunkStat {
    pub chunk_size: u64,
    pub chunk_total: u64,
    pub chunk_free: u64,
}

impl ChunkStat {
    /// All counts zero.
    pub fn new() -> (s: ChunkStat)
        ensures
            s == (ChunkStat { chunk_size: 0, chunk_total: 0, chunk_free: 0 }),
    {
        ChunkStat { chunk_size: 0, chunk_total: 0, chunk_free: 0 }
    }
}

/// A read reply's body: how many bytes were read, and the bytes of each
/// chunk, keyed by chunk id.
pub struct ReadResult {
    pub nreads: u64,
    pub data: Vec<(u64, String)>,
}

/// A read reply: the server's failure flag and, where it did not fail, the
/// decoded body.
pub struct ReadReply {
    pub err: bool,
    pub result: Option<ReadResult>,
}

/// Where the bytes of one chunk of a read reply go: reply `reply`, chunk
/// `chunk` of its body, to `local_offset` bytes past the start of the
/// caller's buffer.
#[derive(PartialEq, Eq, Structural, Clone, Copy, Debug)]
pub struct ChunkCopy {
    pub reply: usize,
    pub chunk: usize,
    pub local_offset: u64,
}

/// The outcome of a read: its code, the bytes read, and where the chunks
/// that arrived go.
pub struct ReadOutcome {
    pub code: i32,
    pub nread: u64,
    pub copies: Vec<ChunkCopy>,
}

/// A chunk statistics reply: the server's failure flag, its payload, and,
/// where it did not fail, the decoded statistics.
pub struct ChunkStatReply {
    pub err: bool,
    pub data: String,
    pub stat: Option<ChunkStat>,
}

/// The kind of a directory entry.
#[derive(PartialEq, Eq, Structural, Clone, Copy, Debug)]
pub enum FileType {
    Regular,
    Directory,
}

/// A directory opened for listing: its path, its kind and its entries.
pub struct OpenDir {
    pub path: String,
    pub file_type: FileType,
    pub entries: Vec<DirEntry>,
}

/// One entry of a directory listing.
pub struct DirEntry {
    pub name: String,
    pub file_type: FileType,
}

/// Why a metadata lookup failed: the transport failed (with its own error),
/// or the server holds no metadata for the path.
pub enum ForwardError<E> {
    Post(E),
    NotFound,
}

} // verus!
