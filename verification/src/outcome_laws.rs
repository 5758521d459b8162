use vstd::prelude::*;
use crate::config::CHUNK_SIZE;
use crate::message::{PostResult, ChunkStat, ChunkStatReply, ReadReply, ReadResult, ChunkCopy, DirEntry, FileType};
use crate::numparse::{spec_parse_i32, spec_parse_i64};
use crate::grouping::{ChunkGroup, total_chunk_count};
use crate::plan::{planned_bytes, share_total, sum_u64};
use crate::message::{Request, Payload};
use crate::gather::{
    written_sum, write_failed, stat_total, stat_free, nread_sum, copy_offset, chunk_copies,
    read_copies, reply_entries, dir_entries, entry_views, typed_entries, decoded_entries,
    spec_dirent_list, chunk_stat_outcome, stats_ok_before, stat_first_failure,
};

verus! {

/// A write's total adds up the byte counts of its replies: no reply gives
/// nothing, and one more successful reply adds exactly the count it reports,
/// however many came before.
pub proof fn law_write_total_additive<E>(rs: Seq<Result<PostResult, E>>, r: Result<PostResult, E>)
    requires
        !write_failed(r),
    ensures
        written_sum(Seq::<Result<PostResult, E>>::empty()) == 0,
        written_sum(rs.push(r)) == written_sum(rs) + spec_parse_i64(r->Ok_0.data@).unwrap(),
{
    assert(rs.push(r).drop_last() =~= rs);
}

/// Chunk usage adds up over the servers: no reply gives zero counts, and one
/// more reply with statistics `st` adds exactly its total and free chunks,
/// however many came before.
pub proof fn law_chunk_stat_additive(rs: Seq<ChunkStatReply>, r: ChunkStatReply, st: ChunkStat)
    requires
        r.stat == Some(st),
    ensures
        stat_total(Seq::<ChunkStatReply>::empty()) == 0,
        stat_free(Seq::<ChunkStatReply>::empty()) == 0,
        stat_total(rs.push(r)) == stat_total(rs) + st.chunk_total,
        stat_free(rs.push(r)) == stat_free(rs) + st.chunk_free,
{
    assert(rs.push(r).drop_last() =~= rs);
}

/// A read's byte count adds up over its replies: no reply gives nothing, and
/// one more successful reply with body `res` adds exactly its `nreads`,
/// however many came before.
pub proof fn law_read_total_additive<E>(rs: Seq<Result<ReadReply, E>>, r: Result<ReadReply, E>, res: ReadResult)
    requires
        r matches Ok(rep) && rep.result == Some(res),
    ensures
        nread_sum(Seq::<Result<ReadReply, E>>::empty()) == 0,
        nread_sum(rs.push(r)) == nread_sum(rs) + res.nreads,
{
    assert(rs.push(r).drop_last() =~= rs);
}

/// Where a read at `offset` puts a chunk: the chunk that holds byte
/// `offset` (id `offset / CHUNK_SIZE`, whether or not `offset` is a multiple
/// of the chunk size) goes to the start of the caller's buffer; any other
/// chunk goes to its id times the chunk size less `offset % CHUNK_SIZE`.
pub proof fn law_copy_offset(chunk_id: u64, offset: int)
    requires
        offset >= 0,
    ensures
        chunk_id == offset / (CHUNK_SIZE as int) ==> copy_offset(chunk_id, offset) == 0,
        chunk_id != offset / (CHUNK_SIZE as int) ==> copy_offset(chunk_id, offset) == chunk_id
            * (CHUNK_SIZE as int) - offset % (CHUNK_SIZE as int),
{
}

/// The copies for one reply's chunks: one per chunk, in the order of the
/// body, each naming the reply and the chunk's position in it and placed as
/// `law_copy_offset` says; in particular the chunk that holds byte `offset`
/// goes to the buffer's start.
pub proof fn law_chunk_copies(data: Seq<(u64, String)>, j: int, offset: int)
    requires
        offset >= 0,
        0 <= j <= usize::MAX,
        data.len() <= usize::MAX,
        forall|k: int| 0 <= k < data.len() ==> 0 <= copy_offset(#[trigger] data[k].0, offset) <= u64::MAX,
    ensures
        chunk_copies(data, j, offset).len() == data.len(),
        forall|k: int|
            0 <= k < data.len() ==> (#[trigger] chunk_copies(data, j, offset)[k]).reply == j
                && chunk_copies(data, j, offset)[k].chunk == k,
        forall|k: int|
            0 <= k < data.len() && data[k].0 == offset / (CHUNK_SIZE as int) ==> (#[trigger] chunk_copies(
                data,
                j,
                offset,
            )[k]).local_offset == 0,
        forall|k: int|
            0 <= k < data.len() && data[k].0 != offset / (CHUNK_SIZE as int) ==> (#[trigger] chunk_copies(
                data,
                j,
                offset,
            )[k]).local_offset == data[k].0 * (CHUNK_SIZE as int) - offset % (CHUNK_SIZE as int),
{
}

/// The copies of a read grow reply by reply: none before the first reply,
/// and the copies up to reply `n` are those up to `n - 1` followed by the
/// copies of reply `n`'s chunks.
pub proof fn law_read_copies_grow<E>(rs: Seq<Result<ReadReply, E>>, n: int, offset: int, res: ReadResult)
    requires
        0 <= n < rs.len(),
        rs[n] matches Ok(rep) && rep.result == Some(res),
    ensures
        read_copies(rs, 0, offset) == Seq::<ChunkCopy>::empty(),
        read_copies(rs, n + 1, offset) == read_copies(rs, n, offset) + chunk_copies(res.data@, n, offset),
{
}

/// A decoded directory reply's entries join the listing whole: the listing
/// of no reply is empty; one more reply that decodes to `l` keeps the entries
/// before it and appends every entry of `l`, in order, each named as decoded
/// and a directory exactly when the reply says so.
pub proof fn law_listing_grows(rs: Seq<PostResult>, r: PostResult, l: Seq<(Seq<char>, bool)>)
    requires
        spec_dirent_list(r.data@) == Some(l),
    ensures
        decoded_entries(Seq::<PostResult>::empty()) == Seq::<(Seq<char>, FileType)>::empty(),
        decoded_entries(rs.push(r)).len() == decoded_entries(rs).len() + l.len(),
        forall|i: int| 0 <= i < decoded_entries(rs).len() ==> #[trigger] decoded_entries(rs.push(r))[i] == decoded_entries(rs)[i],
        forall|k: int|
            0 <= k < l.len() ==> #[trigger] decoded_entries(rs.push(r))[decoded_entries(rs).len() + k] == (
                l[k].0,
                if l[k].1 { FileType::Directory } else { FileType::Regular },
            ),
{
    assert(rs.push(r).drop_last() =~= rs);
    assert(decoded_entries(rs.push(r)) == decoded_entries(rs) + typed_entries(l));
}

/// The same for entry lists already decoded: one more list `v` keeps the
/// entries before it and appends every entry of `v`, in order.
pub proof fn law_decoded_listing_grows(rs: Seq<Vec<(String, bool)>>, v: Vec<(String, bool)>)
    ensures
        dir_entries(Seq::<Vec<(String, bool)>>::empty()) == Seq::<(Seq<char>, FileType)>::empty(),
        dir_entries(rs.push(v)).len() == dir_entries(rs).len() + v@.len(),
        forall|i: int| 0 <= i < dir_entries(rs).len() ==> #[trigger] dir_entries(rs.push(v))[i] == dir_entries(rs)[i],
        forall|k: int|
            0 <= k < v@.len() ==> #[trigger] dir_entries(rs.push(v))[dir_entries(rs).len() + k] == (
                v@[k].0@,
                if v@[k].1 { FileType::Directory } else { FileType::Regular },
            ),
{
    assert(rs.push(v).drop_last() =~= rs);
    assert(dir_entries(rs.push(v)) == dir_entries(rs) + reply_entries(v@));
}

/// A listing shows each of its entries, by name and kind, in order.
pub proof fn law_entry_views(es: Seq<DirEntry>)
    ensures
        entry_views(es).len() == es.len(),
        forall|k: int| 0 <= k < es.len() ==> #[trigger] entry_views(es)[k] == (es[k].name@, es[k].file_type),
{
}

/// Planned bytes add up over the requests: none for no request, and one more
/// write or read request adds exactly the share it carries.
pub proof fn law_planned_bytes_additive(rs: Seq<Request>, r: Request)
    ensures
        planned_bytes(Seq::<Request>::empty()) == 0,
        r.payload matches Payload::Write(d) ==> planned_bytes(rs.push(r)) == planned_bytes(rs) + d.total_chunk_size,
        r.payload matches Payload::Read(d) ==> planned_bytes(rs.push(r)) == planned_bytes(rs) + d.total_chunk_size,
{
    assert(rs.push(r).drop_last() =~= rs);
}

/// Chunk counts add up over the groups: none for no group, and one more group
/// adds exactly its number of chunks.
pub proof fn law_chunk_count_additive(gs: Seq<ChunkGroup>, g: ChunkGroup)
    ensures
        total_chunk_count(Seq::<ChunkGroup>::empty()) == 0,
        total_chunk_count(gs.push(g)) == total_chunk_count(gs) + g.chunks@.len(),
{
    assert(gs.push(g).drop_last() =~= gs);
}

/// What chunk statistics come to: where no server failed, 0 with the
/// client's chunk size and the summed total and free chunks; where one
/// failed, the first failing server's error code and zero counts.
pub proof fn law_chunk_stat_outcome(rs: Seq<ChunkStatReply>, i: int)
    ensures
        stats_ok_before(rs, rs.len() as int) ==> chunk_stat_outcome(rs) == (0i32, ChunkStat {
            chunk_size: CHUNK_SIZE,
            chunk_total: stat_total(rs) as u64,
            chunk_free: stat_free(rs) as u64,
        }),
        stat_first_failure(rs, i) ==> chunk_stat_outcome(rs) == (
            spec_parse_i32(rs[i].data@).unwrap(),
            ChunkStat { chunk_size: 0, chunk_total: 0, chunk_free: 0 },
        ),
{
    if stats_ok_before(rs, rs.len() as int) {
        assert(!exists|c: int| stat_first_failure(rs, c));
    }
    if stat_first_failure(rs, i) {
        let c = choose|c: int| stat_first_failure(rs, c);
        if c < i {
            assert(!rs[c].err);
        }
        if c > i {
            assert(!rs[i].err);
        }
    }
}

/// A server's share of a range: all of its chunks, less the bytes before the
/// range when it holds the range's first chunk, less the bytes after the
/// range when it holds the last one.
pub proof fn law_share_total(offset: int, size: int, located: Seq<u64>, g: ChunkGroup)
    ensures
        share_total(offset, size, located, g) == g.chunks@.len() * (CHUNK_SIZE as int)
            - (if located.len() > 0 && g.host == located[0] { offset % (CHUNK_SIZE as int) } else { 0 })
            - (if located.len() > 0 && g.host == located[located.len() - 1] {
                ((CHUNK_SIZE as int) - (offset + size) % (CHUNK_SIZE as int)) % (CHUNK_SIZE as int)
            } else {
                0
            }),
{
}

/// Sums of byte counts add up: nothing for none, and one more count adds
/// exactly itself.
pub proof fn law_sum_additive(s: Seq<u64>, x: u64)
    ensures
        sum_u64(Seq::<u64>::empty()) == 0,
        sum_u64(s.push(x)) == sum_u64(s) + x,
{
    assert(s.push(x).drop_last() =~= s);
}

} // verus!
