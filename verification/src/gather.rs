use vstd::prelude::*;
use crate::message::{PostResult, ChunkStat, ChunkStatReply, ReadReply, ReadOutcome, ChunkCopy, DirEntry, FileType, OpenDir};
use crate::config::CHUNK_SIZE;
use crate::arith::{spec_block_of, spec_lpad, offset_to_chunk_id, chunk_lpad};
use crate::numparse::{spec_parse_i32, spec_parse_i64, parse_i32, parse_i64};

verus! {

/// A write reply that ends the write: the transport or the server failed.
pub open spec fn write_failed<E>(r: Result<PostResult, E>) -> bool {
    r is Err || r->Ok_0.err
}

/// None of the first `n` write replies failed.
pub open spec fn writes_ok_before<E>(rs: Seq<Result<PostResult, E>>, n: int) -> bool {
    forall|j: int| 0 <= j < n ==> !write_failed(#[trigger] rs[j])
}

/// Bytes a successful write reply reports written.
pub open spec fn reply_written<E>(r: Result<PostResult, E>) -> int {
    match r {
        Ok(res) => if res.err { 0 } else { spec_parse_i64(res.data@).unwrap() as int },
        Err(_) => 0,
    }
}

/// Bytes the write replies report written, in total.
pub open spec fn written_sum<E>(rs: Seq<Result<PostResult, E>>) -> int
    decreases rs.len(),
{
    if rs.len() == 0 {
        0
    } else {
        written_sum(rs.drop_last()) + reply_written(rs.last())
    }
}

/// The write replies that the client reads (all of them up to the first
/// failure) each spell a byte count, and the running total stays in `i64`.
pub open spec fn write_replies_ok<E>(rs: Seq<Result<PostResult, E>>) -> bool {
    &&& forall|j: int|
        0 <= j < rs.len() && writes_ok_before(rs, j + 1) ==> spec_parse_i64(
            (#[trigger] rs[j])->Ok_0.data@,
        ) is Some
    &&& forall|k: int|
        0 <= k <= rs.len() && writes_ok_before(rs, k) ==> i64::MIN <= #[trigger] written_sum(rs.take(k))
            <= i64::MAX
}

/// The outcome of a write, from the replies of its servers in the order the
/// requests went out: `(-1, 0)` for a negative size (nothing is sent then)
/// or as soon as the transport or a server failed; else `(0, total)` with the
/// bytes the servers report written.
pub fn forward_write<E>(write_size: i64, replies: &Vec<Result<PostResult, E>>) -> (r: (i32, i64))
    requires
        write_size >= 0 ==> write_replies_ok(replies@),
    ensures
        write_size < 0 ==> r == (-1i32, 0i64),
        write_size >= 0 && !writes_ok_before(replies@, replies@.len() as int) ==> r == (-1i32, 0i64),
        write_size >= 0 && writes_ok_before(replies@, replies@.len() as int) ==> r == (0i32, written_sum(replies@) as i64),
{
    if write_size < 0 {
        return (-1, 0);
    }
    let n = replies.len();
    let mut tot: i64 = 0;
    let mut i: usize = 0;
    assert(replies@.take(0) =~= Seq::<Result<PostResult, E>>::empty());
    while i < n
        invariant
            n == replies@.len(),
            i <= n,
            write_replies_ok(replies@),
            writes_ok_before(replies@, i as int),
            tot == written_sum(replies@.take(i as int)),
        decreases n - i,
    {
        match &replies[i] {
            Err(_) => {
                return (-1, 0);
            },
            Ok(p) => {
                if p.err {
                    return (-1, 0);
                }
                let v = parse_i64(p.data.as_str()).unwrap();
                proof {
                    assert(writes_ok_before(replies@, i + 1));
                    assert(replies@.take(i + 1).drop_last() =~= replies@.take(i as int));
                    assert(replies@.take(i + 1).last() == replies@[i as int]);
                    assert(i64::MIN <= written_sum(replies@.take(i + 1)) <= i64::MAX);
                }
                tot = tot + v;
            },
        }
        i = i + 1;
    }
    assert(replies@.take(n as int) =~= replies@);
    (0, tot)
}

/// Whether the write replies meet `write_replies_ok`, so that
/// `forward_write` can read them.
pub fn write_replies_readable<E>(replies: &Vec<Result<PostResult, E>>) -> (ok: bool)
    ensures
        ok == write_replies_ok(replies@),
{
    let n = replies.len();
    let mut tot: i64 = 0;
    let mut i: usize = 0;
    assert(replies@.take(0) =~= Seq::<Result<PostResult, E>>::empty());
    while i < n
        invariant
            n == replies@.len(),
            i <= n,
            writes_ok_before(replies@, i as int),
            tot == written_sum(replies@.take(i as int)),
            forall|j: int| 0 <= j < i ==> spec_parse_i64((#[trigger] replies@[j])->Ok_0.data@) is Some,
            forall|k: int| 0 <= k <= i ==> i64::MIN <= #[trigger] written_sum(replies@.take(k)) <= i64::MAX,
        decreases n - i,
    {
        match &replies[i] {
            Err(_) => {
                proof { lemma_write_prefix_stops(replies@, i as int); }
                return true;
            },
            Ok(p) => {
                if p.err {
                    proof { lemma_write_prefix_stops(replies@, i as int); }
                    return true;
                }
                match parse_i64(p.data.as_str()) {
                    None => {
                        assert(writes_ok_before(replies@, i + 1));
                        return false;
                    },
                    Some(v) => {
                        proof {
                            assert(replies@.take(i + 1).drop_last() =~= replies@.take(i as int));
                            assert(replies@.take(i + 1).last() == replies@[i as int]);
                        }
                        match tot.checked_add(v) {
                            None => {
                                assert(writes_ok_before(replies@, i + 1));
                                assert(written_sum(replies@.take(i + 1)) == tot + v);
                                return false;
                            },
                            Some(t) => {
                                tot = t;
                            },
                        }
                    },
                }
            },
        }
        i = i + 1;
    }
    proof { lemma_write_prefix_stops(replies@, n as int); }
    true
}

/// Once the first `i` replies are readable and reply `i` fails (or there is
/// none), the replies are readable.
proof fn lemma_write_prefix_stops<E>(rs: Seq<Result<PostResult, E>>, i: int)
    requires
        0 <= i <= rs.len(),
        i < rs.len() ==> write_failed(rs[i]),
        forall|j: int| 0 <= j < i ==> spec_parse_i64((#[trigger] rs[j])->Ok_0.data@) is Some,
        forall|k: int| 0 <= k <= i ==> i64::MIN <= #[trigger] written_sum(rs.take(k)) <= i64::MAX,
    ensures
        write_replies_ok(rs),
{
    assert forall|j: int| 0 <= j < rs.len() && writes_ok_before(rs, j + 1) implies spec_parse_i64(
        (#[trigger] rs[j])->Ok_0.data@) is Some by {
        if j >= i {
            assert(!write_failed(rs[i]));
        }
    }
    assert forall|k: int| 0 <= k <= rs.len() && writes_ok_before(rs, k) implies i64::MIN
        <= #[trigger] written_sum(rs.take(k)) <= i64::MAX by {
        if k > i {
            assert(!write_failed(rs[i]));
        }
    }
}

/// None of the first `n` chunk statistics replies failed.
pub open spec fn stats_ok_before(rs: Seq<ChunkStatReply>, n: int) -> bool {
    forall|j: int| 0 <= j < n ==> !(#[trigger] rs[j]).err
}

/// Chunk statistics reply `i` is the first that failed.
pub open spec fn stat_first_failure(rs: Seq<ChunkStatReply>, i: int) -> bool {
    &&& 0 <= i < rs.len()
    &&& rs[i].err
    &&& stats_ok_before(rs, i)
}

/// Chunks the replies report in total.
pub open spec fn stat_total(rs: Seq<ChunkStatReply>) -> int
    decreases rs.len(),
{
    if rs.len() == 0 {
        0
    } else {
        stat_total(rs.drop_last()) + rs.last().stat.unwrap().chunk_total
    }
}

/// Free chunks the replies report in total.
pub open spec fn stat_free(rs: Seq<ChunkStatReply>) -> int
    decreases rs.len(),
{
    if rs.len() == 0 {
        0
    } else {
        stat_free(rs.drop_last()) + rs.last().stat.unwrap().chunk_free
    }
}

/// The chunk statistics replies that the client reads (all of them up to the
/// first failure) carry statistics for the client's chunk size, the first
/// failure carries an error code, and the running totals stay in `u64`.
pub open spec fn chunk_stats_ok(rs: Seq<ChunkStatReply>) -> bool {
    &&& forall|j: int|
        0 <= j < rs.len() && stats_ok_before(rs, j + 1) ==> ((#[trigger] rs[j]).stat matches Some(st)
            && st.chunk_size == CHUNK_SIZE)
    &&& forall|i: int| stat_first_failure(rs, i) ==> spec_parse_i32((#[trigger] rs[i]).data@) is Some
    &&& forall|k: int|
        0 <= k <= rs.len() && stats_ok_before(rs, k) ==> #[trigger] stat_total(rs.take(k)) <= u64::MAX
            && stat_free(rs.take(k)) <= u64::MAX
}

/// Chunk usage over all servers, from their replies in server order:
/// `-1` and zero counts when the transport failed; the error code of the
/// first server that failed and zero counts; else 0 and the chunk size with
/// the sums of the servers' total and free chunks.
pub fn forward_get_chunk_stat<E>(replies: Result<Vec<ChunkStatReply>, E>) -> (r: (i32, ChunkStat))
    requires
        replies is Ok ==> chunk_stats_ok(replies->Ok_0@),
    ensures
        match replies {
            Err(_) => r == (-1i32, ChunkStat { chunk_size: 0, chunk_total: 0, chunk_free: 0 }),
            Ok(v) => r == chunk_stat_outcome(v@),
        },
{
    match replies {
        Err(_) => (-1, ChunkStat::new()),
        Ok(v) => sum_chunk_stats(&v),
    }
}

/// What the chunk statistics replies of all servers add up to: the error
/// code of the first server that failed and zero counts, or 0 and the chunk
/// size with the sums of the servers' total and free chunks.
pub open spec fn chunk_stat_outcome(rs: Seq<ChunkStatReply>) -> (i32, ChunkStat) {
    if exists|i: int| stat_first_failure(rs, i) {
        let i = choose|i: int| stat_first_failure(rs, i);
        (spec_parse_i32(rs[i].data@).unwrap(), ChunkStat { chunk_size: 0, chunk_total: 0, chunk_free: 0 })
    } else {
        (0i32, ChunkStat {
            chunk_size: CHUNK_SIZE,
            chunk_total: stat_total(rs) as u64,
            chunk_free: stat_free(rs) as u64,
        })
    }
}

fn sum_chunk_stats(v: &Vec<ChunkStatReply>) -> (r: (i32, ChunkStat))
    requires
        chunk_stats_ok(v@),
    ensures
        r == chunk_stat_outcome(v@),
{
    let n = v.len();
    let mut total: u64 = 0;
    let mut free: u64 = 0;
    let mut i: usize = 0;
    assert(v@.take(0) =~= Seq::<ChunkStatReply>::empty());
    while i < n
        invariant
            n == v@.len(),
            i <= n,
            chunk_stats_ok(v@),
            stats_ok_before(v@, i as int),
            total == stat_total(v@.take(i as int)),
            free == stat_free(v@.take(i as int)),
        decreases n - i,
    {
        let rep = &v[i];
        if rep.err {
            proof {
                assert(stat_first_failure(v@, i as int));
                let c = choose|c: int| stat_first_failure(v@, c);
                if c < i {
                    assert(!v@[c].err);
                }
                if c > i {
                    assert(!v@[i as int].err);
                }
            }
            return (parse_i32(rep.data.as_str()).unwrap(), ChunkStat::new());
        }
        proof {
            assert(stats_ok_before(v@, i + 1));
            assert(v@.take(i + 1).drop_last() =~= v@.take(i as int));
            assert(v@.take(i + 1).last() == v@[i as int]);
            assert(stat_total(v@.take(i + 1)) <= u64::MAX);
        }
        let st = rep.stat.as_ref().unwrap();
        total = total + st.chunk_total;
        free = free + st.chunk_free;
        i = i + 1;
    }
    assert(v@.take(n as int) =~= v@);
    assert(!exists|c: int| stat_first_failure(v@, c));
    (0, ChunkStat { chunk_size: CHUNK_SIZE, chunk_total: total, chunk_free: free })
}

/// A read reply that ends the read: the transport or the server failed.
pub open spec fn read_failed<E>(r: Result<ReadReply, E>) -> bool {
    r is Err || r->Ok_0.err
}

/// None of the first `n` read replies failed.
pub open spec fn reads_ok_before<E>(rs: Seq<Result<ReadReply, E>>, n: int) -> bool {
    forall|j: int| 0 <= j < n ==> !read_failed(#[trigger] rs[j])
}

/// Read reply `i` is the first that failed.
pub open spec fn read_first_failure<E>(rs: Seq<Result<ReadReply, E>>, i: int) -> bool {
    &&& 0 <= i < rs.len()
    &&& read_failed(rs[i])
    &&& reads_ok_before(rs, i)
}

/// Bytes the read replies report read, in total.
pub open spec fn nread_sum<E>(rs: Seq<Result<ReadReply, E>>) -> int
    decreases rs.len(),
{
    if rs.len() == 0 {
        0
    } else {
        nread_sum(rs.drop_last()) + rs.last()->Ok_0.result.unwrap().nreads
    }
}

/// Where chunk `chunk_id` goes in the buffer of a read at `offset`: the
/// first chunk at the buffer's start, any other at its id times the chunk
/// size less the left pad of `offset`.
pub open spec fn copy_offset(chunk_id: u64, offset: int) -> int {
    if chunk_id == spec_block_of(offset, CHUNK_SIZE as int) {
        0
    } else {
        chunk_id * (CHUNK_SIZE as int) - spec_lpad(offset, CHUNK_SIZE as int)
    }
}

/// The copies for the chunks `data` of reply `j`, in order.
pub open spec fn chunk_copies(data: Seq<(u64, String)>, j: int, offset: int) -> Seq<ChunkCopy> {
    Seq::new(data.len(), |k: int| ChunkCopy {
        reply: j as usize,
        chunk: k as usize,
        local_offset: copy_offset(data[k].0, offset) as u64,
    })
}

/// The copies for the chunks of read reply `j`, in the order of its body.
pub open spec fn reply_copies<E>(rs: Seq<Result<ReadReply, E>>, j: int, offset: int) -> Seq<ChunkCopy> {
    chunk_copies(rs[j]->Ok_0.result.unwrap().data@, j, offset)
}

/// Appends the copies for the chunks `data` of reply `reply`.
fn place_chunks(copies: &mut Vec<ChunkCopy>, reply: usize, data: &Vec<(u64, String)>, offset: i64)
    requires
        offset >= 0,
        chunks_placeable(data@, offset as int),
    ensures
        final(copies)@ == old(copies)@ + chunk_copies(data@, reply as int, offset as int),
{
    let chunk_start = offset_to_chunk_id(offset, CHUNK_SIZE);
    let lpad = chunk_lpad(offset, CHUNK_SIZE);
    let ghost before = copies@;
    let ghost mine = chunk_copies(data@, reply as int, offset as int);
    let m = data.len();
    let mut k: usize = 0;
    while k < m
        invariant
            m == data@.len(),
            k <= m,
            chunk_start == spec_block_of(offset as int, CHUNK_SIZE as int),
            lpad == spec_lpad(offset as int, CHUNK_SIZE as int),
            chunks_placeable(data@, offset as int),
            mine == chunk_copies(data@, reply as int, offset as int),
            copies@ == before + mine.take(k as int),
        decreases m - k,
    {
        let id = data[k].0;
        let local: u64 = if id == chunk_start { 0 } else { id * CHUNK_SIZE - lpad };
        copies.push(ChunkCopy { reply, chunk: k, local_offset: local });
        proof {
            assert(mine.take(k + 1) =~= mine.take(k as int).push(mine[k as int]));
        }
        k = k + 1;
    }
    proof {
        assert(mine.take(m as int) =~= mine);
    }
}

/// The copies for the chunks of the first `n` read replies, reply by reply.
pub open spec fn read_copies<E>(rs: Seq<Result<ReadReply, E>>, n: int, offset: int) -> Seq<ChunkCopy>
    decreases n,
{
    if n <= 0 {
        Seq::empty()
    } else {
        read_copies(rs, n - 1, offset) + reply_copies(rs, n - 1, offset)
    }
}

/// The chunk ids of a read reply place their chunks inside `u64` offsets.
pub open spec fn chunks_placeable(data: Seq<(u64, String)>, offset: int) -> bool {
    forall|k: int|
        0 <= k < data.len() && (#[trigger] data[k]).0 != spec_block_of(offset, CHUNK_SIZE as int)
            ==> spec_lpad(offset, CHUNK_SIZE as int) <= data[k].0 * (CHUNK_SIZE as int) <= u64::MAX
}

/// The read replies that the client reads (all of them up to the first
/// failure) carry a body whose chunks can be placed, and the running byte
/// count stays in `u64`.
pub open spec fn read_replies_ok<E>(rs: Seq<Result<ReadReply, E>>, offset: int) -> bool {
    &&& forall|j: int|
        0 <= j < rs.len() && reads_ok_before(rs, j + 1) ==> ((#[trigger] rs[j])->Ok_0.result matches Some(res)
            && chunks_placeable(res.data@, offset))
    &&& forall|k: int|
        0 <= k <= rs.len() && reads_ok_before(rs, k) ==> #[trigger] nread_sum(rs.take(k)) <= u64::MAX
}

/// The outcome of a read at `offset`, from the replies of its servers in
/// the order the requests went out. It stops at the first failure with code
/// -1 and no bytes; else code 0 and the bytes the servers report. Either way
/// the copies place, in order, the chunks of every reply before the stop.
pub fn forward_read<E>(offset: i64, replies: &Vec<Result<ReadReply, E>>) -> (r: ReadOutcome)
    requires
        offset >= 0,
        read_replies_ok(replies@, offset as int),
    ensures
        forall|i: int| read_first_failure(replies@, i) ==> {
            &&& r.code == -1
            &&& r.nread == 0
            &&& r.copies@ == read_copies(replies@, i, offset as int)
        },
        reads_ok_before(replies@, replies@.len() as int) ==> {
            &&& r.code == 0
            &&& r.nread == nread_sum(replies@)
            &&& r.copies@ == read_copies(replies@, replies@.len() as int, offset as int)
        },
{
    let n = replies.len();
    let mut tot: u64 = 0;
    let mut copies: Vec<ChunkCopy> = Vec::new();
    let mut i: usize = 0;
    assert(replies@.take(0) =~= Seq::<Result<ReadReply, E>>::empty());
    assert(read_copies(replies@, 0, offset as int) =~= Seq::<ChunkCopy>::empty());
    while i < n
        invariant
            n == replies@.len(),
            i <= n,
            offset >= 0,
            read_replies_ok(replies@, offset as int),
            reads_ok_before(replies@, i as int),
            tot == nread_sum(replies@.take(i as int)),
            copies@ == read_copies(replies@, i as int, offset as int),
        decreases n - i,
    {
        let p = match &replies[i] {
            Err(_) => {
                assert(read_first_failure(replies@, i as int));
                return ReadOutcome { code: -1, nread: 0, copies };
            },
            Ok(p) => p,
        };
        if p.err {
            assert(read_first_failure(replies@, i as int));
            return ReadOutcome { code: -1, nread: 0, copies };
        }
        proof {
            assert(reads_ok_before(replies@, i + 1));
            assert(replies@.take(i + 1).drop_last() =~= replies@.take(i as int));
            assert(replies@.take(i + 1).last() == replies@[i as int]);
            assert(nread_sum(replies@.take(i + 1)) <= u64::MAX);
        }
        let res = p.result.as_ref().unwrap();
        tot = tot + res.nreads;
        place_chunks(&mut copies, i, &res.data, offset);
        i = i + 1;
    }
    assert(replies@.take(n as int) =~= replies@);
    ReadOutcome { code: 0, nread: tot, copies }
}

/// The kind of a listed entry: a directory where the server says so, else a
/// regular file.
pub open spec fn entry_type(is_dir: bool) -> FileType {
    if is_dir { FileType::Directory } else { FileType::Regular }
}

/// The entries of one directory reply, as names and kinds.
pub open spec fn reply_entries(v: Seq<(String, bool)>) -> Seq<(Seq<char>, FileType)> {
    Seq::new(v.len(), |k: int| (v[k].0@, entry_type(v[k].1)))
}

/// The entries of all directory replies, reply by reply.
pub open spec fn dir_entries(rs: Seq<Vec<(String, bool)>>) -> Seq<(Seq<char>, FileType)>
    decreases rs.len(),
{
    if rs.len() == 0 {
        Seq::empty()
    } else {
        dir_entries(rs.drop_last()) + reply_entries(rs.last()@)
    }
}

/// A listing's entries as names and kinds.
pub open spec fn entry_views(es: Seq<DirEntry>) -> Seq<(Seq<char>, FileType)> {
    Seq::new(es.len(), |k: int| (es[k].name@, es[k].file_type))
}

fn add_entries(entries: &mut Vec<DirEntry>, v: &Vec<(String, bool)>)
    ensures
        entry_views(final(entries)@) == entry_views(old(entries)@) + reply_entries(v@),
{
    let ghost before = entry_views(entries@);
    let mut k: usize = 0;
    while k < v.len()
        invariant
            k <= v@.len(),
            entry_views(entries@) == before + reply_entries(v@).take(k as int),
        decreases v@.len() - k,
    {
        let t = if v[k].1 { FileType::Directory } else { FileType::Regular };
        let ghost prev = entries@;
        entries.push(DirEntry { name: v[k].0.clone(), file_type: t });
        proof {
            assert(entry_views(entries@) =~= entry_views(prev).push(reply_entries(v@)[k as int]));
            assert(reply_entries(v@).take(k + 1) =~= reply_entries(v@).take(k as int).push(reply_entries(v@)[k as int]));
        }
        k = k + 1;
    }
    proof {
        assert(reply_entries(v@).take(v@.len() as int) =~= reply_entries(v@));
    }
}

/// The listing of directory `path` from the decoded replies of the servers
/// that hold it: when the transport failed, -1 and an empty listing of a
/// regular file with an empty path; else 0 and a directory `path` listing
/// every entry of every reply, reply by reply.
pub fn dirents_listing<E>(path: &String, replies: Result<Vec<Vec<(String, bool)>>, E>) -> (r: (i32, OpenDir))
    ensures
        match replies {
            Err(_) => {
                &&& r.0 == -1
                &&& r.1.path@ == Seq::<char>::empty()
                &&& r.1.file_type == FileType::Regular
                &&& r.1.entries@.len() == 0
            },
            Ok(v) => {
                &&& r.0 == 0
                &&& r.1.path@ == path@
                &&& r.1.file_type == FileType::Directory
                &&& entry_views(r.1.entries@) == dir_entries(v@)
            },
        },
{
    match replies {
        Err(_) => (-1, OpenDir { path: String::new(), file_type: FileType::Regular, entries: Vec::new() }),
        Ok(v) => {
            let mut entries: Vec<DirEntry> = Vec::new();
            let mut i: usize = 0;
            assert(entry_views(entries@) =~= dir_entries(v@.take(0)));
            while i < v.len()
                invariant
                    i <= v@.len(),
                    entry_views(entries@) == dir_entries(v@.take(i as int)),
                decreases v@.len() - i,
            {
                add_entries(&mut entries, &v[i]);
                proof {
                    assert(v@.take(i + 1).drop_last() =~= v@.take(i as int));
                }
                i = i + 1;
            }
            assert(v@.take(v@.len() as int) =~= v@);
            (0, OpenDir { path: path.clone(), file_type: FileType::Directory, entries })
        },
    }
}

/// Whether every chunk of `data` can be placed for a read at `offset`.
fn chunks_placeable_check(data: &Vec<(u64, String)>, offset: i64) -> (ok: bool)
    requires
        offset >= 0,
    ensures
        ok == chunks_placeable(data@, offset as int),
{
    let chunk_start = offset_to_chunk_id(offset, CHUNK_SIZE);
    let lpad = chunk_lpad(offset, CHUNK_SIZE);
    let mut k: usize = 0;
    while k < data.len()
        invariant
            k <= data@.len(),
            chunk_start == spec_block_of(offset as int, CHUNK_SIZE as int),
            lpad == spec_lpad(offset as int, CHUNK_SIZE as int),
            forall|j: int|
                0 <= j < k && (#[trigger] data@[j]).0 != spec_block_of(offset as int, CHUNK_SIZE as int)
                    ==> spec_lpad(offset as int, CHUNK_SIZE as int) <= data@[j].0 * (CHUNK_SIZE as int) <= u64::MAX,
        decreases data@.len() - k,
    {
        let id = data[k].0;
        if id != chunk_start {
            if id > u64::MAX / CHUNK_SIZE {
                assert(data@[k as int].0 * 8 > u64::MAX);
                return false;
            }
            if id * CHUNK_SIZE < lpad {
                return false;
            }
        }
        k = k + 1;
    }
    true
}

proof fn lemma_read_prefix_stops<E>(rs: Seq<Result<ReadReply, E>>, offset: int, i: int)
    requires
        0 <= i <= rs.len(),
        i < rs.len() ==> read_failed(rs[i]),
        forall|j: int| 0 <= j < i ==> ((#[trigger] rs[j])->Ok_0.result matches Some(res) && chunks_placeable(res.data@, offset)),
        forall|k: int| 0 <= k <= i ==> #[trigger] nread_sum(rs.take(k)) <= u64::MAX,
    ensures
        read_replies_ok(rs, offset),
{
    assert forall|j: int| 0 <= j < rs.len() && reads_ok_before(rs, j + 1) implies ((#[trigger] rs[j])->Ok_0.result matches Some(res)
        && chunks_placeable(res.data@, offset)) by {
        if j >= i {
            assert(!read_failed(rs[i]));
        }
    }
    assert forall|k: int| 0 <= k <= rs.len() && reads_ok_before(rs, k) implies #[trigger] nread_sum(rs.take(k)) <= u64::MAX by {
        if k > i {
            assert(!read_failed(rs[i]));
        }
    }
}

/// Whether the read replies meet `read_replies_ok`, so that `forward_read`
/// can read them.
pub fn read_replies_readable<E>(offset: i64, replies: &Vec<Result<ReadReply, E>>) -> (ok: bool)
    requires
        offset >= 0,
    ensures
        ok == read_replies_ok(replies@, offset as int),
{
    let n = replies.len();
    let mut tot: u64 = 0;
    let mut i: usize = 0;
    assert(replies@.take(0) =~= Seq::<Result<ReadReply, E>>::empty());
    while i < n
        invariant
            n == replies@.len(),
            i <= n,
            offset >= 0,
            reads_ok_before(replies@, i as int),
            tot == nread_sum(replies@.take(i as int)),
            forall|j: int| 0 <= j < i ==> ((#[trigger] replies@[j])->Ok_0.result matches Some(res) && chunks_placeable(res.data@, offset as int)),
            forall|k: int| 0 <= k <= i ==> #[trigger] nread_sum(replies@.take(k)) <= u64::MAX,
        decreases n - i,
    {
        let p = match &replies[i] {
            Err(_) => {
                proof { lemma_read_prefix_stops(replies@, offset as int, i as int); }
                return true;
            },
            Ok(p) => p,
        };
        if p.err {
            proof { lemma_read_prefix_stops(replies@, offset as int, i as int); }
            return true;
        }
        assert(reads_ok_before(replies@, i + 1));
        let res = match &p.result {
            None => {
                return false;
            },
            Some(res) => res,
        };
        if !chunks_placeable_check(&res.data, offset) {
            return false;
        }
        proof {
            assert(replies@.take(i + 1).drop_last() =~= replies@.take(i as int));
            assert(replies@.take(i + 1).last() == replies@[i as int]);
        }
        match tot.checked_add(res.nreads) {
            None => {
                assert(nread_sum(replies@.take(i + 1)) == tot + res.nreads);
                return false;
            },
            Some(t) => {
                tot = t;
            },
        }
        i = i + 1;
    }
    proof { lemma_read_prefix_stops(replies@, offset as int, n as int); }
    true
}

proof fn lemma_stat_prefix_stops(rs: Seq<ChunkStatReply>, i: int)
    requires
        0 <= i <= rs.len(),
        i < rs.len() ==> rs[i].err && spec_parse_i32(rs[i].data@) is Some,
        forall|j: int| 0 <= j < i ==> ((#[trigger] rs[j]).stat matches Some(st) && st.chunk_size == CHUNK_SIZE),
        forall|k: int| 0 <= k <= i ==> #[trigger] stat_total(rs.take(k)) <= u64::MAX && stat_free(rs.take(k)) <= u64::MAX,
        stats_ok_before(rs, i),
    ensures
        chunk_stats_ok(rs),
{
    assert forall|j: int| 0 <= j < rs.len() && stats_ok_before(rs, j + 1) implies ((#[trigger] rs[j]).stat matches Some(st)
        && st.chunk_size == CHUNK_SIZE) by {
        if j >= i {
            assert(!rs[i].err);
        }
    }
    assert forall|c: int| stat_first_failure(rs, c) implies spec_parse_i32((#[trigger] rs[c]).data@) is Some by {
        if c < i {
            assert(!rs[c].err);
        }
        if c > i {
            assert(!rs[i].err);
        }
    }
    assert forall|k: int| 0 <= k <= rs.len() && stats_ok_before(rs, k) implies #[trigger] stat_total(rs.take(k)) <= u64::MAX
        && stat_free(rs.take(k)) <= u64::MAX by {
        if k > i {
            assert(!rs[i].err);
        }
    }
}

/// Whether the chunk statistics replies meet `chunk_stats_ok`, so that
/// `forward_get_chunk_stat` can read them.
pub fn chunk_stat_replies_readable(replies: &Vec<ChunkStatReply>) -> (ok: bool)
    ensures
        ok == chunk_stats_ok(replies@),
{
    let n = replies.len();
    let mut total: u64 = 0;
    let mut free: u64 = 0;
    let mut i: usize = 0;
    assert(replies@.take(0) =~= Seq::<ChunkStatReply>::empty());
    while i < n
        invariant
            n == replies@.len(),
            i <= n,
            stats_ok_before(replies@, i as int),
            total == stat_total(replies@.take(i as int)),
            free == stat_free(replies@.take(i as int)),
            forall|j: int| 0 <= j < i ==> ((#[trigger] replies@[j]).stat matches Some(st) && st.chunk_size == CHUNK_SIZE),
            forall|k: int| 0 <= k <= i ==> #[trigger] stat_total(replies@.take(k)) <= u64::MAX && stat_free(replies@.take(k)) <= u64::MAX,
        decreases n - i,
    {
        let rep = &replies[i];
        if rep.err {
            assert(stat_first_failure(replies@, i as int));
            if parse_i32(rep.data.as_str()).is_none() {
                return false;
            }
            proof { lemma_stat_prefix_stops(replies@, i as int); }
            return true;
        }
        assert(stats_ok_before(replies@, i + 1));
        let st = match &rep.stat {
            None => {
                return false;
            },
            Some(st) => st,
        };
        if st.chunk_size != CHUNK_SIZE {
            return false;
        }
        proof {
            assert(replies@.take(i + 1).drop_last() =~= replies@.take(i as int));
            assert(replies@.take(i + 1).last() == replies@[i as int]);
        }
        match total.checked_add(st.chunk_total) {
            None => {
                assert(stat_total(replies@.take(i + 1)) == total + st.chunk_total);
                return false;
            },
            Some(t) => {
                total = t;
            },
        }
        match free.checked_add(st.chunk_free) {
            None => {
                assert(stat_free(replies@.take(i + 1)) == free + st.chunk_free);
                return false;
            },
            Some(f) => {
                free = f;
            },
        }
        i = i + 1;
    }
    proof { lemma_stat_prefix_stops(replies@, n as int); }
    true
}

/// Which of `n_reqs` write requests goes out next, given the replies so
/// far (one per request sent, in order): the next one while none has failed,
/// and none once one failed or all went out. No write goes out after a
/// failed reply.
pub fn next_write_send<E>(n_reqs: usize, replies: &Vec<Result<PostResult, E>>) -> (next: Option<usize>)
    ensures
        next == (if writes_ok_before(replies@, replies@.len() as int) && replies@.len() < n_reqs {
            Some(replies@.len() as usize)
        } else {
            None::<usize>
        }),
{
    let mut i: usize = 0;
    while i < replies.len()
        invariant
            i <= replies@.len(),
            writes_ok_before(replies@, i as int),
        decreases replies@.len() - i,
    {
        let failed = match &replies[i] {
            Err(_) => true,
            Ok(p) => p.err,
        };
        if failed {
            return None;
        }
        i = i + 1;
    }
    if replies.len() < n_reqs {
        Some(replies.len())
    } else {
        None
    }
}

/// Which of `n_reqs` read requests goes out next, given the replies so far
/// (one per request sent, in order): the next one while none has failed, and
/// none once one failed or all went out. No read goes out after a failed
/// reply.
pub fn next_read_send<E>(n_reqs: usize, replies: &Vec<Result<ReadReply, E>>) -> (next: Option<usize>)
    ensures
        next == (if reads_ok_before(replies@, replies@.len() as int) && replies@.len() < n_reqs {
            Some(replies@.len() as usize)
        } else {
            None::<usize>
        }),
{
    let mut i: usize = 0;
    while i < replies.len()
        invariant
            i <= replies@.len(),
            reads_ok_before(replies@, i as int),
        decreases replies@.len() - i,
    {
        let failed = match &replies[i] {
            Err(_) => true,
            Ok(p) => p.err,
        };
        if failed {
            return None;
        }
        i = i + 1;
    }
    if replies.len() < n_reqs {
        Some(replies.len())
    } else {
        None
    }
}

/// The list of entries, each a name and whether it is a directory, that
/// serde_json decodes from the JSON text `s`, if it decodes one.
pub uninterp spec fn spec_dirent_list(s: Seq<char>) -> Option<Seq<(Seq<char>, bool)>>;

/// A decoded entry list, by the view of its names.
pub open spec fn dirent_views(v: Seq<(String, bool)>) -> Seq<(Seq<char>, bool)> {
    Seq::new(v.len(), |k: int| (v[k].0@, v[k].1))
}

/// Calls `serde_json::from_str::<Vec<(String, bool)>>` on a directory reply.
/// The contract claims only that the result (its failure, or the decoded
/// list) is a function of the text, named `spec_dirent_list`; the JSON
/// grammar is left unsaid.
#[verifier::external_body]
pub(crate) fn parse_dirents(s: &str) -> (r: Option<Vec<(String, bool)>>)
    ensures
        r is Some <==> spec_dirent_list(s@) is Some,
        r matches Some(v) ==> dirent_views(v@) == spec_dirent_list(s@)->0,
{
    serde_json::from_str::<Vec<(String, bool)>>(s).ok()
}

/// Names and kinds of a decoded entry list.
pub open spec fn typed_entries(l: Seq<(Seq<char>, bool)>) -> Seq<(Seq<char>, FileType)> {
    Seq::new(l.len(), |k: int| (l[k].0, entry_type(l[k].1)))
}

/// The entries that the directory replies decode to, reply by reply.
pub open spec fn decoded_entries(rs: Seq<PostResult>) -> Seq<(Seq<char>, FileType)>
    decreases rs.len(),
{
    if rs.len() == 0 {
        Seq::empty()
    } else {
        decoded_entries(rs.drop_last()) + typed_entries(spec_dirent_list(rs.last().data@)->0)
    }
}

/// Every directory reply decodes to an entry list.
pub open spec fn dirents_decodable(rs: Seq<PostResult>) -> bool {
    forall|i: int| 0 <= i < rs.len() ==> spec_dirent_list(#[trigger] rs[i].data@) is Some
}

/// The listing of directory `path` from the replies of the servers that hold
/// it: when the transport failed, -1 and an empty listing of a regular file
/// with an empty path; else 0 and a directory `path` listing every entry that
/// every reply decodes to, reply by reply.
pub fn forward_get_dirents<E>(path: &String, replies: Result<Vec<PostResult>, E>) -> (r: (i32, OpenDir))
    requires
        replies matches Ok(v) ==> dirents_decodable(v@),
    ensures
        match replies {
            Err(_) => {
                &&& r.0 == -1
                &&& r.1.path@ == Seq::<char>::empty()
                &&& r.1.file_type == FileType::Regular
                &&& r.1.entries@.len() == 0
            },
            Ok(v) => {
                &&& r.0 == 0
                &&& r.1.path@ == path@
                &&& r.1.file_type == FileType::Directory
                &&& entry_views(r.1.entries@) == decoded_entries(v@)
            },
        },
{
    match replies {
        Err(e) => dirents_listing::<E>(path, Err(e)),
        Ok(v) => {
            let mut decoded: Vec<Vec<(String, bool)>> = Vec::new();
            let mut i: usize = 0;
            assert(dir_entries(decoded@) =~= decoded_entries(v@.take(0)));
            while i < v.len()
                invariant
                    i <= v@.len(),
                    dirents_decodable(v@),
                    decoded@.len() == i,
                    dir_entries(decoded@) == decoded_entries(v@.take(i as int)),
                decreases v@.len() - i,
            {
                let list = parse_dirents(v[i].data.as_str()).unwrap();
                let ghost before = decoded@;
                decoded.push(list);
                proof {
                    assert(decoded@.drop_last() =~= before);
                    assert(v@.take(i + 1).drop_last() =~= v@.take(i as int));
                    assert(v@.take(i + 1).last() == v@[i as int]);
                    assert(reply_entries(list@) =~= typed_entries(dirent_views(list@)));
                }
                i = i + 1;
            }
            assert(v@.take(v@.len() as int) =~= v@);
            dirents_listing::<E>(path, Ok(decoded))
        },
    }
}

/// Whether every directory reply decodes to an entry list.
fn all_decodable(v: &Vec<PostResult>) -> (ok: bool)
    ensures
        ok == dirents_decodable(v@),
{
    let mut i: usize = 0;
    while i < v.len()
        invariant
            i <= v@.len(),
            forall|j: int| 0 <= j < i ==> spec_dirent_list(#[trigger] v@[j].data@) is Some,
        decreases v@.len() - i,
    {
        if parse_dirents(v[i].data.as_str()).is_none() {
            assert(spec_dirent_list(v@[i as int].data@) is None);
            return false;
        }
        i = i + 1;
    }
    true
}

/// `forward_get_dirents` where every reply decodes; none where one does not
/// (the listing cannot be built then).
pub fn try_forward_get_dirents<E>(path: &String, replies: Result<Vec<PostResult>, E>) -> (r: Option<(i32, OpenDir)>)
    ensures
        r is None <==> (replies matches Ok(v) && !dirents_decodable(v@)),
        r matches Some(out) ==> match replies {
            Err(_) => {
                &&& out.0 == -1
                &&& out.1.path@ == Seq::<char>::empty()
                &&& out.1.file_type == FileType::Regular
                &&& out.1.entries@.len() == 0
            },
            Ok(v) => {
                &&& out.0 == 0
                &&& out.1.path@ == path@
                &&& out.1.file_type == FileType::Directory
                &&& entry_views(out.1.entries@) == decoded_entries(v@)
            },
        },
{
    let decodable = match &replies {
        Ok(v) => all_decodable(v),
        Err(_) => true,
    };
    if !decodable {
        return None;
    }
    Some(forward_get_dirents(path, replies))
}

} // verus!
