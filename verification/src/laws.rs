use vstd::prelude::*;
use crate::grouping::{ChunkGroup, is_grouping, chunks_exact, hosts_distinct, hosts_cover, hosts_ordered, hosts_witnessed, chunks_in_range, chunks_sorted, seen_before};
use crate::requests::{chunk_removal_hosts, other_than};
use crate::message::{Payload, PostOption, Request};
use crate::plan::{is_write_plan, is_read_plan, is_write_request, is_read_request, spec_write_offset, span_start};

verus! {

/// Every chunk of an operation goes to exactly one of the planned servers:
/// in a grouping, chunk `start + i` belongs to one group, the group of the
/// server that holds it, and to no other.
pub proof fn law_chunk_on_one_server(start: int, located: Seq<u64>, groups: Seq<ChunkGroup>, i: int)
    requires
        is_grouping(start, located, groups),
        0 <= i < located.len(),
    ensures
        exists|a: int|
            0 <= a < groups.len() && groups[a].host == located[i] && (#[trigger] groups[a].chunks@).contains(
                (start + i) as u64,
            ),
        forall|a: int, b: int|
            0 <= a < groups.len() && 0 <= b < groups.len() && (#[trigger] groups[a].chunks@).contains(
                (start + i) as u64,
            ) && (#[trigger] groups[b].chunks@).contains((start + i) as u64) ==> a == b,
{
    reveal(chunks_exact);
    reveal(hosts_distinct);
    reveal(hosts_cover);
    let a = choose|a: int| 0 <= a < groups.len() && #[trigger] groups[a].host == #[trigger] located[i];
    assert(groups[a].chunks@.contains((start + i) as u64));
    assert forall|a: int, b: int|
        0 <= a < groups.len() && 0 <= b < groups.len() && (#[trigger] groups[a].chunks@).contains(
            (start + i) as u64,
        ) && (#[trigger] groups[b].chunks@).contains((start + i) as u64) implies a == b by {
        assert(groups[a].host == located[i]);
        assert(groups[b].host == located[i]);
        if a < b {
            assert(groups[a].host != groups[b].host);
        }
        if b < a {
            assert(groups[b].host != groups[a].host);
        }
    }
}

/// A chunk-by-chunk removal reaches the metadata server first and once, and
/// then the server of every chunk.
pub proof fn law_removal_reaches_every_chunk_server(meta_host: u64, chunk_hosts: Seq<u64>)
    ensures
        chunk_removal_hosts(meta_host, chunk_hosts)[0] == meta_host,
        forall|k: int|
            0 < k < chunk_removal_hosts(meta_host, chunk_hosts).len() ==> #[trigger] chunk_removal_hosts(
                meta_host,
                chunk_hosts,
            )[k] != meta_host,
        forall|i: int|
            0 <= i < chunk_hosts.len() ==> chunk_removal_hosts(meta_host, chunk_hosts).contains(
                #[trigger] chunk_hosts[i],
            ),
{
    broadcast use vstd::seq_lib::group_filter_ensures;

    let pred = other_than(meta_host);
    let hosts = chunk_removal_hosts(meta_host, chunk_hosts);
    let rest = chunk_hosts.filter(pred);
    assert(hosts == seq![meta_host] + rest);
    assert forall|k: int| 0 < k < hosts.len() implies #[trigger] hosts[k] != meta_host by {
        assert(hosts[k] == rest[k - 1]);
        assert(pred(rest[k - 1]));
    }
    assert forall|i: int| 0 <= i < chunk_hosts.len() implies hosts.contains(#[trigger] chunk_hosts[i]) by {
        if chunk_hosts[i] == meta_host {
            assert(hosts[0] == chunk_hosts[i]);
        } else {
            assert(pred(chunk_hosts[i]));
            assert(rest.contains(chunk_hosts[i]));
            let j = choose|j: int| 0 <= j < rest.len() && rest[j] == chunk_hosts[i];
            assert(hosts[j + 1] == chunk_hosts[i]);
        }
    }
}

/// A value that occurs in a sequence has a first occurrence.
proof fn lemma_first_occurrence(l: Seq<u64>, h: u64, i: int)
    requires
        0 <= i < l.len(),
        l[i] == h,
    ensures
        exists|f: int| 0 <= f <= i && l[f] == h && !seen_before(l, f, h),
    decreases i,
{
    if seen_before(l, i, h) {
        let j = choose|j: int| 0 <= j < i && #[trigger] l[j] == h;
        lemma_first_occurrence(l, h, j);
    }
}

proof fn lemma_listed(l: Seq<u64>, g: Seq<ChunkGroup>, i: int) -> (b: int)
    requires
        hosts_cover(l, g),
        0 <= i < l.len(),
    ensures
        0 <= b < g.len(),
        g[b].host == l[i],
{
    reveal(hosts_cover);
    choose|b: int| 0 <= b < g.len() && #[trigger] g[b].host == #[trigger] l[i]
}

proof fn lemma_witness(l: Seq<u64>, g: Seq<ChunkGroup>, a: int) -> (j: int)
    requires
        hosts_witnessed(l, g),
        0 <= a < g.len(),
    ensures
        0 <= j < l.len(),
        l[j] == g[a].host,
{
    reveal(hosts_witnessed);
    choose|j: int| 0 <= j < l.len() && #[trigger] l[j] == g[a].host
}

proof fn lemma_before(l: Seq<u64>, g: Seq<ChunkGroup>, a: int, b: int, i: int)
    requires
        hosts_ordered(l, g),
        0 <= a < b < g.len(),
        0 <= i < l.len(),
        l[i] == g[b].host,
    ensures
        seen_before(l, i, g[a].host),
{
    reveal(hosts_ordered);
}

proof fn lemma_distinct_at(g: Seq<ChunkGroup>, a: int, b: int)
    requires
        hosts_distinct(g),
        0 <= a < g.len(),
        0 <= b < g.len(),
        a != b,
    ensures
        g[a].host != g[b].host,
{
    reveal(hosts_distinct);
    if a < b {
        assert(g[a].host != g[b].host);
    } else {
        assert(g[b].host != g[a].host);
    }
}

/// Two groupings of the same chunks list the same servers in the same order.
proof fn lemma_same_hosts(start: int, l: Seq<u64>, g1: Seq<ChunkGroup>, g2: Seq<ChunkGroup>, a: int)
    requires
        is_grouping(start, l, g1),
        is_grouping(start, l, g2),
        0 <= a < g1.len(),
        0 <= a < g2.len(),
        forall|b: int| 0 <= b < a ==> #[trigger] g1[b].host == g2[b].host,
    ensures
        g1[a].host == g2[a].host,
{
    let h1 = g1[a].host;
    let h2 = g2[a].host;
    if h1 != h2 {
        let w1 = lemma_witness(l, g1, a);
        let w2 = lemma_witness(l, g2, a);
        lemma_first_occurrence(l, h1, w1);
        lemma_first_occurrence(l, h2, w2);
        let f1 = choose|f: int| 0 <= f <= w1 && l[f] == h1 && !seen_before(l, f, h1);
        let f2 = choose|f: int| 0 <= f <= w2 && l[f] == h2 && !seen_before(l, f, h2);
        let b = lemma_listed(l, g2, f1);
        let c = lemma_listed(l, g1, f2);
        if b < a {
            assert(g1[b].host == g2[b].host);
            lemma_distinct_at(g1, b, a);
        }
        if c < a {
            assert(g1[c].host == g2[c].host);
            lemma_distinct_at(g2, c, a);
        }
        lemma_before(l, g2, a, b, f1);
        lemma_before(l, g1, a, c, f2);
        let j1 = choose|j: int| 0 <= j < f1 && #[trigger] l[j] == h2;
        let j2 = choose|j: int| 0 <= j < f2 && #[trigger] l[j] == h1;
        if f2 <= j1 {
            assert(seen_before(l, f1, h1));
        } else {
            assert(seen_before(l, f2, h2));
        }
    }
}

proof fn lemma_same_hosts_upto(start: int, l: Seq<u64>, g1: Seq<ChunkGroup>, g2: Seq<ChunkGroup>, n: int)
    requires
        is_grouping(start, l, g1),
        is_grouping(start, l, g2),
        0 <= n <= g1.len(),
        n <= g2.len(),
    ensures
        forall|b: int| 0 <= b < n ==> #[trigger] g1[b].host == g2[b].host,
    decreases n,
{
    if n > 0 {
        lemma_same_hosts_upto(start, l, g1, g2, n - 1);
        lemma_same_hosts(start, l, g1, g2, n - 1);
    }
}

/// Two strictly increasing sequences with the same members are equal.
proof fn lemma_sorted_same_members(s1: Seq<u64>, s2: Seq<u64>)
    requires
        forall|k1: int, k2: int| 0 <= k1 < k2 < s1.len() ==> #[trigger] s1[k1] < #[trigger] s1[k2],
        forall|k1: int, k2: int| 0 <= k1 < k2 < s2.len() ==> #[trigger] s2[k1] < #[trigger] s2[k2],
        forall|x: u64| s1.contains(x) <==> s2.contains(x),
    ensures
        s1 == s2,
    decreases s1.len() + s2.len(),
{
    if s1.len() == 0 {
        if s2.len() > 0 {
            assert(s2.contains(s2[0]));
        }
        assert(s1 =~= s2);
    } else if s2.len() == 0 {
        assert(s1.contains(s1[0]));
    } else {
        let m1 = s1.last();
        let m2 = s2.last();
        assert(s1.contains(m1));
        assert(s2.contains(m2));
        let k2 = choose|k: int| 0 <= k < s2.len() && s2[k] == m1;
        let k1 = choose|k: int| 0 <= k < s1.len() && s1[k] == m2;
        if k2 < s2.len() - 1 {
            assert(s2[k2] < s2[s2.len() - 1]);
        }
        if k1 < s1.len() - 1 {
            assert(s1[k1] < s1[s1.len() - 1]);
        }
        assert(m1 == m2);
        let t1 = s1.drop_last();
        let t2 = s2.drop_last();
        assert forall|x: u64| t1.contains(x) <==> t2.contains(x) by {
            if t1.contains(x) {
                let k = choose|k: int| 0 <= k < t1.len() && t1[k] == x;
                assert(s1[k] < s1[s1.len() - 1]);
                assert(s1.contains(x));
                let j = choose|j: int| 0 <= j < s2.len() && s2[j] == x;
                assert(j != s2.len() - 1);
                assert(t2[j] == x);
            }
            if t2.contains(x) {
                let k = choose|k: int| 0 <= k < t2.len() && t2[k] == x;
                assert(s2[k] < s2[s2.len() - 1]);
                assert(s2.contains(x));
                let j = choose|j: int| 0 <= j < s1.len() && s1[j] == x;
                assert(j != s1.len() - 1);
                assert(t1[j] == x);
            }
        }
        assert forall|a: int, b: int| 0 <= a < b < t1.len() implies #[trigger] t1[a] < #[trigger] t1[b] by {
            assert(s1[a] < s1[b]);
        }
        assert forall|a: int, b: int| 0 <= a < b < t2.len() implies #[trigger] t2[a] < #[trigger] t2[b] by {
            assert(s2[a] < s2[b]);
        }
        lemma_sorted_same_members(t1, t2);
        assert(s1 =~= t1.push(m1));
        assert(s2 =~= t2.push(m2));
    }
}

/// The plan of an operation is determined by where its chunks live: any two
/// groupings of the same chunks list the same servers, in the same order,
/// with the same chunks.
pub proof fn law_grouping_unique(start: int, located: Seq<u64>, g1: Seq<ChunkGroup>, g2: Seq<ChunkGroup>)
    requires
        is_grouping(start, located, g1),
        is_grouping(start, located, g2),
    ensures
        g1.len() == g2.len(),
        forall|a: int| 0 <= a < g1.len() ==> #[trigger] g1[a].host == g2[a].host && g1[a].chunks@ == g2[a].chunks@,
{
    let n = if g1.len() < g2.len() { g1.len() as int } else { g2.len() as int };
    lemma_same_hosts_upto(start, located, g1, g2, n);
    if g1.len() > g2.len() {
        let w = lemma_witness(located, g1, n);
        let b = lemma_listed(located, g2, w);
        assert(g1[b].host == g2[b].host);
        lemma_distinct_at(g1, b, n);
    }
    if g2.len() > g1.len() {
        let w = lemma_witness(located, g2, n);
        let b = lemma_listed(located, g1, w);
        assert(g1[b].host == g2[b].host);
        lemma_distinct_at(g2, b, n);
    }
    assert forall|a: int| 0 <= a < g1.len() implies #[trigger] g1[a].host == g2[a].host && g1[a].chunks@ == g2[a].chunks@ by {
        reveal(chunks_exact);
        reveal(chunks_in_range);
        reveal(chunks_sorted);
        let c1 = g1[a].chunks@;
        let c2 = g2[a].chunks@;
        assert forall|x: u64| c1.contains(x) <==> c2.contains(x) by {
            if c1.contains(x) {
                let k = choose|k: int| 0 <= k < c1.len() && c1[k] == x;
                assert(start <= c1[k] < start + located.len());
                let i = x - start;
                assert((start + i) as u64 == x);
                assert(c2.contains((start + i) as u64));
            }
            if c2.contains(x) {
                let k = choose|k: int| 0 <= k < c2.len() && c2[k] == x;
                assert(start <= c2[k] < start + located.len());
                let i = x - start;
                assert((start + i) as u64 == x);
                assert(c1.contains((start + i) as u64));
            }
        }
        lemma_sorted_same_members(c1, c2);
    }
}

/// Two write requests carry equal bodies.
pub open spec fn same_write(r1: Request, r2: Request) -> bool {
    &&& r1.payload matches Payload::Write(d1)
    &&& r2.payload matches Payload::Write(d2)
    &&& d1.path@ == d2.path@
    &&& d1.offset == d2.offset
    &&& d1.host_id == d2.host_id
    &&& d1.host_size == d2.host_size
    &&& d1.chunk_n == d2.chunk_n
    &&& d1.chunk_start == d2.chunk_start
    &&& d1.chunk_end == d2.chunk_end
    &&& d1.total_chunk_size == d2.total_chunk_size
    &&& d1.buffers@ == d2.buffers@
}

/// A read request carries the fields of a write request, less its data.
pub open spec fn read_mirrors_write(r: Request, w: Request) -> bool {
    &&& r.payload matches Payload::Read(d1)
    &&& w.payload matches Payload::Write(d2)
    &&& d1.path@ == d2.path@
    &&& d1.offset == d2.offset
    &&& d1.host_id == d2.host_id
    &&& d1.host_size == d2.host_size
    &&& d1.chunk_n == d2.chunk_n
    &&& d1.chunk_start == d2.chunk_start
    &&& d1.chunk_end == d2.chunk_end
    &&& d1.total_chunk_size == d2.total_chunk_size
}

/// A write's range does not depend on the value it ignores: without append
/// it ends at the recorded size whatever the given offset; with append it
/// starts at the given offset whatever the recorded size.
pub proof fn law_write_range_ignores_unused(
    a: i64,
    b: i64,
    write_size: i64,
    updated: i64,
    updated2: i64,
)
    ensures
        spec_write_offset(false, a, write_size, updated) == spec_write_offset(false, b, write_size, updated),
        spec_write_offset(false, a, write_size, updated) + write_size == updated,
        spec_write_offset(true, a, write_size, updated) == spec_write_offset(true, a, write_size, updated2),
        spec_write_offset(true, a, write_size, updated) == a,
{
}

/// The write plan of a range is determined by the range and the servers of
/// its chunks: two write plans of the same range send the same requests,
/// field for field.
pub proof fn law_write_plan_determined(
    path: Seq<char>,
    buffers: Seq<char>,
    offset: int,
    size: int,
    host_count: u64,
    located: Seq<u64>,
    r1: Seq<Request>,
    r2: Seq<Request>,
)
    requires
        is_write_plan(path, buffers, offset, size, host_count, located, r1),
        is_write_plan(path, buffers, offset, size, host_count, located, r2),
    ensures
        r1.len() == r2.len(),
        forall|k: int| 0 <= k < r1.len() ==> (#[trigger] r1[k]).host == r2[k].host && r1[k].option == r2[k].option,
        forall|k: int|
            0 <= k < r1.len() ==> same_write(#[trigger] r1[k], r2[k]),
{
    let start = span_start(offset, size);
    let g1 = choose|g: Seq<ChunkGroup>| #![trigger is_grouping(start, located, g)]
        is_grouping(start, located, g) && g.len() == r1.len() && forall|k: int|
            0 <= k < g.len() ==> is_write_request(path, buffers, offset, size, host_count, located, g[k], #[trigger] r1[k]);
    let g2 = choose|g: Seq<ChunkGroup>| #![trigger is_grouping(start, located, g)]
        is_grouping(start, located, g) && g.len() == r2.len() && forall|k: int|
            0 <= k < g.len() ==> is_write_request(path, buffers, offset, size, host_count, located, g[k], #[trigger] r2[k]);
    law_grouping_unique(start, located, g1, g2);
    assert forall|k: int| 0 <= k < r1.len() implies (#[trigger] r1[k]).host == r2[k].host && r1[k].option == r2[k].option by {
        assert(is_write_request(path, buffers, offset, size, host_count, located, g1[k], r1[k]));
        assert(is_write_request(path, buffers, offset, size, host_count, located, g2[k], r2[k]));
    }
    assert forall|k: int| 0 <= k < r1.len() implies same_write(#[trigger] r1[k], r2[k]) by {
        assert(is_write_request(path, buffers, offset, size, host_count, located, g1[k], r1[k]));
        assert(is_write_request(path, buffers, offset, size, host_count, located, g2[k], r2[k]));
        assert(g1[k].chunks@.len() == g2[k].chunks@.len());
    }
}

/// A read of a range asks the same servers, in the same order, for the same
/// shares as a write of that range would: each read request carries the
/// fields of the write request at its position.
pub proof fn law_read_plan_mirrors_write_plan(
    path: Seq<char>,
    buffers: Seq<char>,
    offset: int,
    size: int,
    host_count: u64,
    located: Seq<u64>,
    reads: Seq<Request>,
    writes: Seq<Request>,
)
    requires
        is_read_plan(path, offset, size, host_count, located, reads),
        is_write_plan(path, buffers, offset, size, host_count, located, writes),
    ensures
        reads.len() == writes.len(),
        forall|k: int| 0 <= k < reads.len() ==> (#[trigger] reads[k]).host == writes[k].host
            && reads[k].option == PostOption::Read && writes[k].option == PostOption::Write,
        forall|k: int|
            0 <= k < reads.len() ==> read_mirrors_write(#[trigger] reads[k], writes[k]),
{
    let start = span_start(offset, size);
    let g1 = choose|g: Seq<ChunkGroup>| #![trigger is_grouping(start, located, g)]
        is_grouping(start, located, g) && g.len() == reads.len() && forall|k: int|
            0 <= k < g.len() ==> is_read_request(path, offset, size, host_count, located, g[k], #[trigger] reads[k]);
    let g2 = choose|g: Seq<ChunkGroup>| #![trigger is_grouping(start, located, g)]
        is_grouping(start, located, g) && g.len() == writes.len() && forall|k: int|
            0 <= k < g.len() ==> is_write_request(path, buffers, offset, size, host_count, located, g[k], #[trigger] writes[k]);
    law_grouping_unique(start, located, g1, g2);
    assert forall|k: int| 0 <= k < reads.len() implies (#[trigger] reads[k]).host == writes[k].host
        && reads[k].option == PostOption::Read && writes[k].option == PostOption::Write by {
        assert(is_read_request(path, offset, size, host_count, located, g1[k], reads[k]));
        assert(is_write_request(path, buffers, offset, size, host_count, located, g2[k], writes[k]));
    }
    assert forall|k: int| 0 <= k < reads.len() implies read_mirrors_write(#[trigger] reads[k], writes[k]) by {
        assert(is_read_request(path, offset, size, host_count, located, g1[k], reads[k]));
        assert(is_write_request(path, buffers, offset, size, host_count, located, g2[k], writes[k]));
        assert(g1[k].chunks@.len() == g2[k].chunks@.len());
    }
}

} // verus!
