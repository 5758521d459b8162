use vstd::prelude::*;
use crate::arith::{spec_block_of, spec_lpad, spec_rpad, lemma_chunk_pads, offset_to_chunk_id, chunk_lpad, chunk_rpad};
use crate::config::CHUNK_SIZE;
use crate::message::{PostOption, Payload, Request, WriteData, ReadData};
use crate::grouping::{ChunkGroup, group_chunks, is_grouping, hosts_distinct, hosts_cover, hosts_witnessed, chunks_exact, chunks_in_range, chunks_sorted, total_chunk_count};

verus! {

/// First chunk of the byte range `offset .. offset + size`.
pub open spec fn span_start(offset: int, size: int) -> int {
    spec_block_of(offset, CHUNK_SIZE as int)
}

/// Last chunk of the byte range `offset .. offset + size` (one before the
/// first when the range is empty and starts on a chunk boundary).
pub open spec fn span_end(offset: int, size: int) -> int {
    spec_block_of(offset + size - 1, CHUNK_SIZE as int)
}

/// Number of chunks from the first to the last chunk of the range.
pub open spec fn span_chunks(offset: int, size: int) -> int {
    span_end(offset, size) - span_start(offset, size) + 1
}

/// A byte range that the chunk arithmetic covers: it starts at or after
/// byte 0, ends after byte 0, and its end fits in an `i64`.
pub open spec fn span_ok(offset: int, size: int) -> bool {
    &&& offset >= 0
    &&& size >= 0
    &&& offset + size >= 1
    &&& offset + size <= i64::MAX
}

/// Bytes of the range that the server holding group `g` takes: all of its
/// chunks, less the part of the first chunk before the range and the part
/// of the last chunk after it.
pub open spec fn share_total(offset: int, size: int, located: Seq<u64>, g: ChunkGroup) -> int {
    g.chunks@.len() * (CHUNK_SIZE as int) - (if located.len() > 0 && g.host == located[0] {
        spec_lpad(offset, CHUNK_SIZE as int)
    } else {
        0
    }) - (if located.len() > 0 && g.host == located.last() {
        spec_rpad(offset + size, CHUNK_SIZE as int)
    } else {
        0
    })
}

pub open spec fn sum_u64(s: Seq<u64>) -> int
    decreases s.len(),
{
    if s.len() == 0 {
        0
    } else {
        sum_u64(s.drop_last()) + s.last()
    }
}

/// `c` once for every group of server `x`.
pub open spec fn sum_if_host(groups: Seq<ChunkGroup>, x: u64, c: int) -> int
    decreases groups.len(),
{
    if groups.len() == 0 {
        0
    } else {
        sum_if_host(groups.drop_last(), x, c) + (if groups.last().host == x {
            c
        } else {
            0
        })
    }
}

proof fn lemma_sum_if_host_once(groups: Seq<ChunkGroup>, x: u64, c: int)
    requires
        hosts_distinct(groups),
    ensures
        (exists|a: int| 0 <= a < groups.len() && groups[a].host == x) ==> sum_if_host(groups, x, c)
            == c,
        (forall|a: int| 0 <= a < groups.len() ==> groups[a].host != x) ==> sum_if_host(groups, x, c)
            == 0,
    decreases groups.len(),
{
    reveal(hosts_distinct);
    if groups.len() > 0 {
        let init = groups.drop_last();
        assert(hosts_distinct(init)) by {
            reveal(hosts_distinct);
            assert forall|a: int, b: int| 0 <= a < b < init.len() implies #[trigger] init[a].host
                != #[trigger] init[b].host by {
                assert(init[a] == groups[a] && init[b] == groups[b]);
            }
        }
        lemma_sum_if_host_once(init, x, c);
        if groups.last().host == x {
            assert forall|a: int| 0 <= a < init.len() implies init[a].host != x by {
                assert(init[a] == groups[a]);
                assert(groups[a].host != groups[groups.len() - 1].host);
            }
        } else {
            if exists|a: int| 0 <= a < groups.len() && groups[a].host == x {
                let a = choose|a: int| 0 <= a < groups.len() && groups[a].host == x;
                assert(init[a] == groups[a]);
            }
            assert forall|a: int| 0 <= a < init.len() && (forall|b: int| 0 <= b < groups.len() ==> groups[b].host != x)
                implies init[a].host != x by {
                assert(init[a] == groups[a]);
            }
        }
    }
}

pub open spec fn shares_sum(offset: int, size: int, located: Seq<u64>, groups: Seq<ChunkGroup>) -> int
    decreases groups.len(),
{
    if groups.len() == 0 {
        0
    } else {
        shares_sum(offset, size, located, groups.drop_last()) + share_total(offset, size, located, groups.last())
    }
}

proof fn lemma_shares_sum_split(offset: int, size: int, located: Seq<u64>, groups: Seq<ChunkGroup>)
    requires
        located.len() > 0,
    ensures
        shares_sum(offset, size, located, groups) == total_chunk_count(groups) * (CHUNK_SIZE as int)
            - sum_if_host(groups, located[0], spec_lpad(offset, CHUNK_SIZE as int))
            - sum_if_host(groups, located.last(), spec_rpad(offset + size, CHUNK_SIZE as int)),
    decreases groups.len(),
{
    if groups.len() > 0 {
        lemma_shares_sum_split(offset, size, located, groups.drop_last());
        assert(total_chunk_count(groups) * (CHUNK_SIZE as int) == total_chunk_count(groups.drop_last())
            * (CHUNK_SIZE as int) + groups.last().chunks@.len() * (CHUNK_SIZE as int));
    }
}

/// A strictly increasing sequence of chunk ids from `lo .. hi` has at most
/// `hi - lo` entries.
proof fn lemma_sorted_len(s: Seq<u64>, lo: int, hi: int)
    requires
        forall|k1: int, k2: int| 0 <= k1 < k2 < s.len() ==> #[trigger] s[k1] < #[trigger] s[k2],
        forall|k: int| 0 <= k < s.len() ==> lo <= #[trigger] s[k] < hi,
        lo <= hi,
    ensures
        s.len() <= hi - lo,
    decreases s.len(),
{
    if s.len() > 0 {
        assert(lo <= s[s.len() - 1] < hi);
    }
    if s.len() > 1 {
        let init = s.drop_last();
        assert forall|k1: int, k2: int| 0 <= k1 < k2 < init.len() implies #[trigger] init[k1] < #[trigger] init[k2] by {
            assert(init[k1] == s[k1] && init[k2] == s[k2]);
        }
        assert forall|k: int| 0 <= k < init.len() implies lo <= #[trigger] init[k] < s.last() by {
            assert(init[k] == s[k]);
        }
        lemma_sorted_len(init, lo, s.last() as int);
        assert(init.len() <= s.last() - lo);
        assert(s.last() < hi);
        assert(s.len() == init.len() + 1);
    }
}

/// The chunk arithmetic of a range: its first chunk's start plus the left pad
/// is its offset, its last chunk's end less the right pad is its end, so its
/// chunks hold `size` bytes once the pads are taken off.
pub proof fn lemma_span_bytes(offset: int, size: int)
    requires
        span_ok(offset, size),
    ensures
        span_chunks(offset, size) >= 0,
        span_chunks(offset, size) * (CHUNK_SIZE as int) - spec_lpad(offset, CHUNK_SIZE as int)
            - spec_rpad(offset + size, CHUNK_SIZE as int) == size,
        span_chunks(offset, size) == 0 ==> size == 0,
{
    lemma_chunk_pads(offset, CHUNK_SIZE as int);
    lemma_chunk_pads(offset + size, CHUNK_SIZE as int);
    lemma_chunk_pads(offset + size - 1, CHUNK_SIZE as int);
}

/// Splits the byte range `offset .. offset + size` by server: groups its
/// chunks by the server that holds them (`located[i]` holds chunk
/// `span_start + i`), and gives each server's byte count. The byte counts add
/// up to `size`.
pub fn split_span(offset: i64, size: i64, located: &Vec<u64>) -> (res: (Vec<ChunkGroup>, Vec<u64>))
    requires
        span_ok(offset as int, size as int),
        located@.len() == span_chunks(offset as int, size as int),
    ensures
        is_grouping(span_start(offset as int, size as int), located@, res.0@),
        res.1@.len() == res.0@.len(),
        forall|k: int| 0 <= k < res.0@.len() ==> #[trigger] res.1@[k] == share_total(offset as int, size as int, located@, res.0@[k]),
        sum_u64(res.1@) == size,
{
    proof {
        lemma_span_bytes(offset as int, size as int);
    }
    let start = offset_to_chunk_id(offset, CHUNK_SIZE);
    let end = offset_to_chunk_id(offset + size - 1, CHUNK_SIZE);
    let groups = group_chunks(start, located);
    let n = located.len();
    let lpad = chunk_lpad(offset, CHUNK_SIZE);
    let rpad = chunk_rpad(offset + size, CHUNK_SIZE);
    let mut totals: Vec<u64> = Vec::new();
    if n == 0 {
        assert(groups@.len() == 0) by {
            reveal(hosts_witnessed);
        }
        assert(totals@ =~= Seq::<u64>::empty());
        return (groups, totals);
    }
    let first = located[0];
    let last = located[n - 1];
    let mut k: usize = 0;
    while k < groups.len()
        invariant
            0 < n == located@.len(),
            first == located@[0],
            last == located@.last(),
            lpad == spec_lpad(offset as int, CHUNK_SIZE as int),
            rpad == spec_rpad(offset + size, CHUNK_SIZE as int),
            lpad < CHUNK_SIZE,
            rpad < CHUNK_SIZE,
            span_ok(offset as int, size as int),
            n == span_chunks(offset as int, size as int),
            start == span_start(offset as int, size as int),
            end == span_end(offset as int, size as int),
            is_grouping(start as int, located@, groups@),
            k <= groups@.len(),
            totals@.len() == k,
            forall|j: int| 0 <= j < k ==> #[trigger] totals@[j] == share_total(offset as int, size as int, located@, groups@[j]),
            sum_u64(totals@) == shares_sum(offset as int, size as int, located@, groups@.take(k as int)),
        decreases groups@.len() - k,
    {
        let g = &groups[k];
        let host = g.host;
        let cn = g.chunks.len();
        proof {
            reveal(hosts_witnessed);
            reveal(chunks_exact);
            reveal(chunks_in_range);
            let w = choose|w: int| 0 <= w < located@.len() && #[trigger] located@[w] == groups@[k as int].host;
            assert(g.chunks@.contains((start + w) as u64));
            assert(cn >= 1);
            reveal(chunks_sorted);
            lemma_sorted_len(g.chunks@, start as int, start + n);
            if host == first && host == last && cn == 1 {
                assert(g.chunks@.contains((start + 0) as u64));
                assert(g.chunks@.contains((start + (n - 1)) as u64));
                let k0 = choose|k: int| 0 <= k < g.chunks@.len() && g.chunks@[k] == (start + 0) as u64;
                let k1 = choose|k: int| 0 <= k < g.chunks@.len() && g.chunks@[k] == (start + (n - 1)) as u64;
                assert(n == 1);
            }
        }
        let mut tot: u64 = cn as u64 * CHUNK_SIZE;
        if host == first {
            tot = tot - lpad;
        }
        if host == last {
            tot = tot - rpad;
        }
        let ghost old_totals = totals@;
        totals.push(tot);
        proof {
            assert(groups@.take(k + 1).drop_last() =~= groups@.take(k as int));
            assert(totals@.drop_last() =~= old_totals);
            assert(groups@.take(k + 1).last() == groups@[k as int]);
        }
        k = k + 1;
    }
    proof {
        assert(groups@.take(k as int) =~= groups@);
        lemma_shares_sum_split(offset as int, size as int, located@, groups@);
        reveal(hosts_cover);
        lemma_sum_if_host_once(groups@, first, spec_lpad(offset as int, CHUNK_SIZE as int));
        lemma_sum_if_host_once(groups@, last, spec_rpad(offset + size, CHUNK_SIZE as int));
        let a0 = choose|a: int| 0 <= a < groups@.len() && #[trigger] groups@[a].host == #[trigger] located@[0];
        let a1 = choose|a: int| 0 <= a < groups@.len() && #[trigger] groups@[a].host == #[trigger] located@[n - 1];
    }
    (groups, totals)
}

/// Bytes that a write or read request asks its server to move.
pub open spec fn request_bytes(r: Request) -> int {
    match r.payload {
        Payload::Write(d) => d.total_chunk_size as int,
        Payload::Read(d) => d.total_chunk_size as int,
        _ => 0,
    }
}

/// Bytes that a list of requests asks the servers to move.
pub open spec fn planned_bytes(rs: Seq<Request>) -> int
    decreases rs.len(),
{
    if rs.len() == 0 {
        0
    } else {
        planned_bytes(rs.drop_last()) + request_bytes(rs.last())
    }
}

/// Where a write lands: at `in_offset` when appending, else just before the
/// updated end of the file.
pub open spec fn spec_write_offset(append_flag: bool, in_offset: i64, write_size: i64, updated_metadentry_size: i64) -> int {
    if append_flag {
        in_offset as int
    } else {
        updated_metadentry_size - write_size
    }
}

/// Where a byte range lies: its offset and its first and last chunk.
pub struct ChunkSpan {
    pub offset: i64,
    pub chunk_start: u64,
    pub chunk_end: u64,
}

/// `sp` holds the offset and the chunks of the range `offset .. offset + size`.
pub open spec fn is_span_of(sp: ChunkSpan, offset: int, size: int) -> bool {
    &&& sp.offset == offset
    &&& sp.chunk_start == span_start(offset, size)
    &&& sp.chunk_end == span_end(offset, size)
}

/// The byte range of a write and its chunks: none for a negative size, which
/// the write refuses; otherwise the range starts where `spec_write_offset`
/// says.
pub fn write_span(append_flag: bool, in_offset: i64, write_size: i64, updated_metadentry_size: i64) -> (sp: Option<ChunkSpan>)
    requires
        write_size >= 0 ==> span_ok(spec_write_offset(append_flag, in_offset, write_size, updated_metadentry_size), write_size as int),
    ensures
        sp is None <==> write_size < 0,
        sp matches Some(sp) ==> is_span_of(sp, spec_write_offset(append_flag, in_offset, write_size, updated_metadentry_size), write_size as int),
{
    if write_size < 0 {
        return None;
    }
    let offset = if append_flag { in_offset } else { updated_metadentry_size - write_size };
    Some(chunk_span(offset, write_size))
}

/// The chunks of the byte range `offset .. offset + size`.
pub fn chunk_span(offset: i64, size: i64) -> (sp: ChunkSpan)
    requires
        span_ok(offset as int, size as int),
    ensures
        is_span_of(sp, offset as int, size as int),
{
    ChunkSpan {
        offset,
        chunk_start: offset_to_chunk_id(offset, CHUNK_SIZE),
        chunk_end: offset_to_chunk_id(offset + size - 1, CHUNK_SIZE),
    }
}

/// How a read of `read_size` bytes at `offset` lies over the chunks.
pub enum ReadSpan {
    /// The chunks of a read of a non-negative size.
    Chunks(ChunkSpan),
    /// A negative size whose range holds no chunk: nothing is asked.
    NoChunks,
    /// A negative size whose range ends inside its first chunk: the shares
    /// of the chunks would come out below zero, so there is no plan.
    Unplannable,
}

/// How a read at `offset` of `read_size` bytes lies over the chunks.
pub fn read_span(offset: i64, read_size: i64) -> (r: ReadSpan)
    requires
        offset >= 0,
        offset + read_size >= 1,
        offset + read_size <= i64::MAX,
    ensures
        read_size >= 0 ==> (r matches ReadSpan::Chunks(sp) && is_span_of(sp, offset as int, read_size as int)),
        read_size < 0 && span_end(offset as int, read_size as int) < span_start(offset as int, read_size as int)
            ==> r is NoChunks,
        read_size < 0 && span_end(offset as int, read_size as int) >= span_start(offset as int, read_size as int)
            ==> r is Unplannable,
{
    let sp = ChunkSpan {
        offset,
        chunk_start: offset_to_chunk_id(offset, CHUNK_SIZE),
        chunk_end: offset_to_chunk_id(offset + read_size - 1, CHUNK_SIZE),
    };
    if read_size >= 0 {
        ReadSpan::Chunks(sp)
    } else if sp.chunk_end < sp.chunk_start {
        ReadSpan::NoChunks
    } else {
        ReadSpan::Unplannable
    }
}

/// Request `r` asks the server of group `g` to write its share of the range
/// `offset .. offset + size` of file `path`, sending it `buffers`.
pub open spec fn is_write_request(
    path: Seq<char>,
    buffers: Seq<char>,
    offset: int,
    size: int,
    host_count: u64,
    located: Seq<u64>,
    g: ChunkGroup,
    r: Request,
) -> bool {
    &&& r.host == g.host
    &&& r.option == PostOption::Write
    &&& r.payload matches Payload::Write(d)
    &&& d.path@ == path
    &&& d.offset == spec_lpad(offset, CHUNK_SIZE as int)
    &&& d.host_id == g.host
    &&& d.host_size == host_count
    &&& d.chunk_n == g.chunks@.len()
    &&& d.chunk_start == span_start(offset, size)
    &&& d.chunk_end == span_end(offset, size)
    &&& d.total_chunk_size == share_total(offset, size, located, g)
    &&& d.buffers@ == buffers
}

/// Request `r` asks the server of group `g` to read its share of the range
/// `offset .. offset + size` of file `path`.
pub open spec fn is_read_request(
    path: Seq<char>,
    offset: int,
    size: int,
    host_count: u64,
    located: Seq<u64>,
    g: ChunkGroup,
    r: Request,
) -> bool {
    &&& r.host == g.host
    &&& r.option == PostOption::Read
    &&& r.payload matches Payload::Read(d)
    &&& d.path@ == path
    &&& d.offset == spec_lpad(offset, CHUNK_SIZE as int)
    &&& d.host_id == g.host
    &&& d.host_size == host_count
    &&& d.chunk_n == g.chunks@.len()
    &&& d.chunk_start == span_start(offset, size)
    &&& d.chunk_end == span_end(offset, size)
    &&& d.total_chunk_size == share_total(offset, size, located, g)
}

/// `reqs` are the write requests of the range `offset .. offset + size` of
/// `path`: one for each group of the chunks by server (`located[i]` holds
/// chunk `span_start + i`), in the grouping's order.
pub open spec fn is_write_plan(
    path: Seq<char>,
    buffers: Seq<char>,
    offset: int,
    size: int,
    host_count: u64,
    located: Seq<u64>,
    reqs: Seq<Request>,
) -> bool {
    exists|groups: Seq<ChunkGroup>|
        #![trigger is_grouping(span_start(offset, size), located, groups)]
        is_grouping(span_start(offset, size), located, groups) && groups.len() == reqs.len()
            && forall|k: int|
            0 <= k < groups.len() ==> is_write_request(
                path,
                buffers,
                offset,
                size,
                host_count,
                located,
                groups[k],
                #[trigger] reqs[k],
            )
}

/// `reqs` are the read requests of the range `offset .. offset + size` of
/// `path`, grouped as for a write.
pub open spec fn is_read_plan(
    path: Seq<char>,
    offset: int,
    size: int,
    host_count: u64,
    located: Seq<u64>,
    reqs: Seq<Request>,
) -> bool {
    exists|groups: Seq<ChunkGroup>|
        #![trigger is_grouping(span_start(offset, size), located, groups)]
        is_grouping(span_start(offset, size), located, groups) && groups.len() == reqs.len()
            && forall|k: int|
            0 <= k < groups.len() ==> is_read_request(
                path,
                offset,
                size,
                host_count,
                located,
                groups[k],
                #[trigger] reqs[k],
            )
}

/// The write requests of a write of `write_size` bytes at `offset` to file
/// `path`: one per server that holds a chunk of the range (`located[i]`
/// holds chunk `span_start + i`), in the order in which the servers first
/// hold a chunk, each carrying its share of the bytes. The shares add up to
/// `write_size`.
pub fn write_requests(
    path: &String,
    buffers: &String,
    offset: i64,
    write_size: i64,
    host_count: u64,
    located: &Vec<u64>,
) -> (reqs: Vec<Request>)
    requires
        span_ok(offset as int, write_size as int),
        located@.len() == span_chunks(offset as int, write_size as int),
    ensures
        is_write_plan(path@, buffers@, offset as int, write_size as int, host_count, located@, reqs@),
        planned_bytes(reqs@) == write_size,
{
    let (groups, totals) = split_span(offset, write_size, located);
    let sp = chunk_span(offset, write_size);
    let lpad = chunk_lpad(offset, CHUNK_SIZE);
    let mut reqs: Vec<Request> = Vec::new();
    let mut k: usize = 0;
    while k < groups.len()
        invariant
            totals@.len() == groups@.len(),
            forall|j: int| 0 <= j < groups@.len() ==> #[trigger] totals@[j] == share_total(offset as int, write_size as int, located@, groups@[j]),
            is_span_of(sp, offset as int, write_size as int),
            lpad == spec_lpad(offset as int, CHUNK_SIZE as int),
            k <= groups@.len(),
            reqs@.len() == k,
            forall|j: int| 0 <= j < k ==> is_write_request(path@, buffers@, offset as int, write_size as int, host_count, located@, groups@[j], #[trigger] reqs@[j]),
            planned_bytes(reqs@) == sum_u64(totals@.take(k as int)),
        decreases groups@.len() - k,
    {
        let g = &groups[k];
        let data = WriteData {
            path: path.clone(),
            offset: lpad as i64,
            host_id: g.host,
            host_size: host_count,
            chunk_n: g.chunks.len() as u64,
            chunk_start: sp.chunk_start,
            chunk_end: sp.chunk_end,
            total_chunk_size: totals[k],
            buffers: buffers.clone(),
        };
        let ghost old_reqs = reqs@;
        reqs.push(Request { host: g.host, option: PostOption::Write, payload: Payload::Write(data) });
        proof {
            assert(reqs@.drop_last() =~= old_reqs);
            assert(totals@.take(k + 1).drop_last() =~= totals@.take(k as int));
        }
        k = k + 1;
    }
    assert(totals@.take(k as int) =~= totals@);
    reqs
}

/// The read requests of a read of `read_size` bytes at `offset` from file
/// `path`: one per server that holds a chunk of the range (`located[i]`
/// holds chunk `span_start + i`), in the order in which the servers first
/// hold a chunk, each carrying its share of the bytes. The shares add up to
/// `read_size`.
pub fn read_requests(
    path: &String,
    offset: i64,
    read_size: i64,
    host_count: u64,
    located: &Vec<u64>,
) -> (reqs: Vec<Request>)
    requires
        span_ok(offset as int, read_size as int),
        located@.len() == span_chunks(offset as int, read_size as int),
    ensures
        is_read_plan(path@, offset as int, read_size as int, host_count, located@, reqs@),
        planned_bytes(reqs@) == read_size,
{
    let (groups, totals) = split_span(offset, read_size, located);
    let sp = chunk_span(offset, read_size);
    let lpad = chunk_lpad(offset, CHUNK_SIZE);
    let mut reqs: Vec<Request> = Vec::new();
    let mut k: usize = 0;
    while k < groups.len()
        invariant
            totals@.len() == groups@.len(),
            forall|j: int| 0 <= j < groups@.len() ==> #[trigger] totals@[j] == share_total(offset as int, read_size as int, located@, groups@[j]),
            is_span_of(sp, offset as int, read_size as int),
            lpad == spec_lpad(offset as int, CHUNK_SIZE as int),
            k <= groups@.len(),
            reqs@.len() == k,
            forall|j: int| 0 <= j < k ==> is_read_request(path@, offset as int, read_size as int, host_count, located@, groups@[j], #[trigger] reqs@[j]),
            planned_bytes(reqs@) == sum_u64(totals@.take(k as int)),
        decreases groups@.len() - k,
    {
        let g = &groups[k];
        let data = ReadData {
            path: path.clone(),
            offset: lpad as i64,
            host_id: g.host,
            host_size: host_count,
            chunk_n: g.chunks.len() as u64,
            chunk_start: sp.chunk_start,
            chunk_end: sp.chunk_end,
            total_chunk_size: totals[k],
        };
        let ghost old_reqs = reqs@;
        reqs.push(Request { host: g.host, option: PostOption::Read, payload: Payload::Read(data) });
        proof {
            assert(reqs@.drop_last() =~= old_reqs);
            assert(totals@.take(k + 1).drop_last() =~= totals@.take(k as int));
        }
        k = k + 1;
    }
    assert(totals@.take(k as int) =~= totals@);
    reqs
}

} // verus!
