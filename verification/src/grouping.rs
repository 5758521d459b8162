use vstd::prelude::*;
use std::collections::HashMap;

verus! {

/// The chunks of one operation that live on one server.
pub struct ChunkGroup {
    pub host: u64,
    pub chunks: Vec<u64>,
}

/// No server is listed twice.
#[verifier::opaque]
pub open spec fn hosts_distinct(groups: Seq<ChunkGroup>) -> bool {
    forall|a: int, b: int|
        0 <= a < b < groups.len() ==> #[trigger] groups[a].host != #[trigger] groups[b].host
}

/// A group holds exactly the chunks located on its server (`located[i]` is
/// the server of chunk `start + i`).
#[verifier::opaque]
pub open spec fn chunks_exact(start: int, located: Seq<u64>, groups: Seq<ChunkGroup>) -> bool {
    forall|a: int, i: int|
        0 <= a < groups.len() && 0 <= i < located.len() ==> (located[i] == groups[a].host
            <==> #[trigger] groups[a].chunks@.contains((start + i) as u64))
}

/// A group holds only chunks of the range.
#[verifier::opaque]
pub open spec fn chunks_in_range(start: int, n: int, groups: Seq<ChunkGroup>) -> bool {
    forall|a: int, k: int|
        0 <= a < groups.len() && 0 <= k < groups[a].chunks@.len() ==> start
            <= #[trigger] groups[a].chunks@[k] < start + n
}

/// A group lists its chunks in increasing order.
#[verifier::opaque]
pub open spec fn chunks_sorted(groups: Seq<ChunkGroup>) -> bool {
    forall|a: int, k1: int, k2: int|
        0 <= a < groups.len() && 0 <= k1 < k2 < groups[a].chunks@.len()
            ==> #[trigger] groups[a].chunks@[k1] < #[trigger] groups[a].chunks@[k2]
}

/// Every chunk's server is listed.
#[verifier::opaque]
pub open spec fn hosts_cover(located: Seq<u64>, groups: Seq<ChunkGroup>) -> bool {
    forall|i: int|
        0 <= i < located.len() ==> exists|a: int|
            0 <= a < groups.len() && #[trigger] groups[a].host == #[trigger] located[i]
}

/// Some chunk before chunk `i` of the range is located on `host`.
pub open spec fn seen_before(located: Seq<u64>, i: int, host: u64) -> bool {
    exists|j: int| 0 <= j < i && #[trigger] located[j] == host
}

/// Servers are listed in the order in which they first hold a chunk.
#[verifier::opaque]
pub open spec fn hosts_ordered(located: Seq<u64>, groups: Seq<ChunkGroup>) -> bool {
    forall|a: int, b: int, i: int|
        #![trigger located[i], groups[b], groups[a]]
        0 <= a < b < groups.len() && 0 <= i < located.len() && located[i] == groups[b].host
            ==> seen_before(located, i, groups[a].host)
}

/// Every listed server holds a chunk of the range.
#[verifier::opaque]
pub open spec fn hosts_witnessed(located: Seq<u64>, groups: Seq<ChunkGroup>) -> bool {
    forall|a: int|
        #![trigger groups[a]]
        0 <= a < groups.len() ==> exists|j: int|
            0 <= j < located.len() && #[trigger] located[j] == groups[a].host
}

/// `located[i]` is the server of chunk `start + i`; `groups` lists, for each
/// server that holds a chunk of the range, exactly its chunks in increasing
/// order, and lists the servers in the order in which they first hold a chunk.
pub open spec fn is_grouping(start: int, located: Seq<u64>, groups: Seq<ChunkGroup>) -> bool {
    &&& hosts_distinct(groups)
    &&& chunks_exact(start, located, groups)
    &&& chunks_in_range(start, located.len() as int, groups)
    &&& chunks_sorted(groups)
    &&& hosts_cover(located, groups)
    &&& hosts_ordered(located, groups)
    &&& hosts_witnessed(located, groups)
}

/// Number of chunks over all groups.
pub open spec fn total_chunk_count(groups: Seq<ChunkGroup>) -> int
    decreases groups.len(),
{
    if groups.len() == 0 {
        0
    } else {
        total_chunk_count(groups.drop_last()) + groups.last().chunks@.len()
    }
}

proof fn lemma_total_count_grows(old: Seq<ChunkGroup>, new: Seq<ChunkGroup>, a: int)
    requires
        0 <= a < old.len(),
        new.len() == old.len(),
        forall|b: int| 0 <= b < old.len() && b != a ==> #[trigger] new[b] == old[b],
        new[a].chunks@.len() == old[a].chunks@.len() + 1,
    ensures
        total_chunk_count(new) == total_chunk_count(old) + 1,
    decreases old.len(),
{
    if a < old.len() - 1 {
        assert forall|b: int| 0 <= b < old.drop_last().len() && b != a implies
            #[trigger] new.drop_last()[b] == old.drop_last()[b] by {
            assert(new[b] == old[b]);
        }
        lemma_total_count_grows(old.drop_last(), new.drop_last(), a);
        assert(new.last() == old.last());
    } else {
        assert(new.drop_last() =~= old.drop_last()) by {
            assert forall|b: int| 0 <= b < old.drop_last().len() implies
                new.drop_last()[b] == old.drop_last()[b] by {
                assert(new[b] == old[b]);
            }
        }
    }
}

/// `new` is `old` with `chunk` appended to the chunks of group `a`.
pub open spec fn appended_to(old: Seq<ChunkGroup>, new: Seq<ChunkGroup>, a: int, chunk: u64) -> bool {
    &&& 0 <= a < old.len()
    &&& new.len() == old.len()
    &&& forall|b: int| 0 <= b < old.len() && b != a ==> #[trigger] new[b] == old[b]
    &&& new[a].host == old[a].host
    &&& new[a].chunks@ == old[a].chunks@.push(chunk)
}

/// `new` is `old` with a new group for `host` that holds just `chunk`.
pub open spec fn opened_for(old: Seq<ChunkGroup>, new: Seq<ChunkGroup>, host: u64, chunk: u64) -> bool {
    &&& new.len() == old.len() + 1
    &&& forall|b: int| 0 <= b < old.len() ==> #[trigger] new[b] == old[b]
    &&& new[old.len() as int].host == host
    &&& new[old.len() as int].chunks@ == seq![chunk]
}

proof fn lemma_appended_distinct(old: Seq<ChunkGroup>, new: Seq<ChunkGroup>, a: int, chunk: u64)
    requires
        hosts_distinct(old),
        appended_to(old, new, a, chunk),
    ensures
        hosts_distinct(new),
{
    reveal(hosts_distinct);
    assert forall|b1: int, b2: int| 0 <= b1 < b2 < new.len() implies #[trigger] new[b1].host
        != #[trigger] new[b2].host by {
        if b1 != a {
            assert(new[b1] == old[b1]);
        }
        if b2 != a {
            assert(new[b2] == old[b2]);
        }
    }
}

proof fn lemma_appended_range_sorted(
    start: int,
    prev: Seq<u64>,
    old: Seq<ChunkGroup>,
    new: Seq<ChunkGroup>,
    a: int,
)
    requires
        chunks_in_range(start, prev.len() as int, old),
        chunks_sorted(old),
        appended_to(old, new, a, (start + prev.len()) as u64),
        0 <= start,
        start + prev.len() <= u64::MAX,
    ensures
        chunks_in_range(start, prev.len() + 1int, new),
        chunks_sorted(new),
{
    reveal(chunks_in_range);
    reveal(chunks_sorted);
    assert forall|b: int, k: int|
        0 <= b < new.len() && 0 <= k < new[b].chunks@.len() implies start
            <= #[trigger] new[b].chunks@[k] < start + prev.len() + 1 by {
        if b != a {
            assert(new[b] == old[b]);
        } else if k < old[a].chunks@.len() {
            assert(new[b].chunks@[k] == old[a].chunks@[k]);
        }
    }
    assert forall|b: int, k1: int, k2: int|
        0 <= b < new.len() && 0 <= k1 < k2 < new[b].chunks@.len()
            implies #[trigger] new[b].chunks@[k1] < #[trigger] new[b].chunks@[k2] by {
        if b != a {
            assert(new[b] == old[b]);
        } else {
            assert(new[b].chunks@[k1] == old[a].chunks@[k1]);
            if k2 < old[a].chunks@.len() {
                assert(new[b].chunks@[k2] == old[a].chunks@[k2]);
            }
        }
    }
}

proof fn lemma_appended_exact(
    start: int,
    prev: Seq<u64>,
    target: u64,
    old: Seq<ChunkGroup>,
    new: Seq<ChunkGroup>,
    a: int,
)
    requires
        chunks_exact(start, prev, old),
        chunks_in_range(start, prev.len() as int, old),
        hosts_distinct(old),
        appended_to(old, new, a, (start + prev.len()) as u64),
        old[a].host == target,
        0 <= start,
        start + prev.len() <= u64::MAX,
    ensures
        chunks_exact(start, prev.push(target), new),
{
    reveal(chunks_exact);
    reveal(chunks_in_range);
    reveal(hosts_distinct);
    let next = prev.push(target);
    let i = prev.len() as int;
    let chunk = (start + i) as u64;
    assert forall|b: int, j: int|
        0 <= b < new.len() && 0 <= j < next.len() implies (next[j] == new[b].host
        <==> #[trigger] new[b].chunks@.contains((start + j) as u64)) by {
        if j < i {
            assert(next[j] == prev[j]);
            if b == a {
                let old_c = old[b].chunks@;
                assert(old[b].chunks@.contains((start + j) as u64) <==> prev[j] == old[b].host);
                if old_c.contains((start + j) as u64) {
                    let k = choose|k: int| 0 <= k < old_c.len() && old_c[k] == (start + j) as u64;
                    assert(new[b].chunks@[k] == (start + j) as u64);
                }
                if new[b].chunks@.contains((start + j) as u64) {
                    let k = choose|k: int|
                        0 <= k < new[b].chunks@.len() && new[b].chunks@[k] == (start + j) as u64;
                    if k < old_c.len() {
                        assert(old_c[k] == (start + j) as u64);
                    }
                }
            } else {
                assert(new[b] == old[b]);
                assert(old[b].chunks@.contains((start + j) as u64) <==> prev[j] == old[b].host);
            }
        } else {
            if b == a {
                assert(new[b].chunks@[new[b].chunks@.len() - 1] == chunk);
            } else {
                assert(new[b] == old[b]);
                assert(old[b].host != old[a].host);
                if new[b].chunks@.contains(chunk) {
                    let k = choose|k: int| 0 <= k < new[b].chunks@.len() && new[b].chunks@[k] == chunk;
                    assert(old[b].chunks@[k] < start + i);
                }
            }
        }
    }
}

proof fn lemma_appended_cover(prev: Seq<u64>, target: u64, old: Seq<ChunkGroup>, new: Seq<ChunkGroup>, a: int, chunk: u64)
    requires
        hosts_cover(prev, old),
        appended_to(old, new, a, chunk),
        old[a].host == target,
    ensures
        hosts_cover(prev.push(target), new),
{
    reveal(hosts_cover);
    let next = prev.push(target);
    let i = prev.len() as int;
    assert forall|j: int| 0 <= j < next.len() implies exists|b: int|
        0 <= b < new.len() && #[trigger] new[b].host == #[trigger] next[j] by {
        if j < i {
            assert(next[j] == prev[j]);
            let b = choose|b: int| 0 <= b < old.len() && #[trigger] old[b].host == #[trigger] prev[j];
            if b != a {
                assert(new[b] == old[b]);
            }
            assert(new[b].host == next[j]);
        } else {
            assert(new[a].host == next[j]);
        }
    }
}

proof fn lemma_appended_ordered(prev: Seq<u64>, target: u64, old: Seq<ChunkGroup>, new: Seq<ChunkGroup>, a: int, chunk: u64)
    requires
        hosts_ordered(prev, old),
        hosts_witnessed(prev, old),
        hosts_distinct(old),
        appended_to(old, new, a, chunk),
        old[a].host == target,
    ensures
        hosts_ordered(prev.push(target), new),
{
    reveal(hosts_ordered);
    let next = prev.push(target);
    let i = prev.len() as int;
    assert forall|b1: int, b2: int, j: int|
        #![trigger next[j], new[b2], new[b1]]
        0 <= b1 < b2 < new.len() && 0 <= j < next.len() && next[j] == new[b2].host
            implies seen_before(next, j, new[b1].host) by {
        if b1 != a {
            assert(new[b1] == old[b1]);
        }
        if b2 != a {
            assert(new[b2] == old[b2]);
        }
        if j < i {
            assert(next[j] == prev[j]);
            assert(prev[j] == old[b2].host);
            let j2 = choose|j2: int| 0 <= j2 < j && #[trigger] prev[j2] == old[b1].host;
            assert(next[j2] == prev[j2]);
        } else {
            reveal(hosts_distinct);
            assert(old[b2].host == target);
            if b2 != a {
                assert(old[b2].host != old[a].host);
            }
            reveal(hosts_witnessed);
            let w = choose|w: int| 0 <= w < prev.len() && #[trigger] prev[w] == old[b2].host;
            let j2 = choose|j2: int| 0 <= j2 < w && #[trigger] prev[j2] == old[b1].host;
            assert(next[j2] == prev[j2]);
        }
    }
}

proof fn lemma_appended_witnessed(prev: Seq<u64>, target: u64, old: Seq<ChunkGroup>, new: Seq<ChunkGroup>, a: int, chunk: u64)
    requires
        hosts_witnessed(prev, old),
        appended_to(old, new, a, chunk),
        old[a].host == target,
    ensures
        hosts_witnessed(prev.push(target), new),
{
    reveal(hosts_witnessed);
    let next = prev.push(target);
    assert forall|b: int| #![trigger new[b]] 0 <= b < new.len() implies exists|j: int|
        0 <= j < next.len() && #[trigger] next[j] == new[b].host by {
        if b != a {
            assert(new[b] == old[b]);
        }
        let w = choose|w: int| 0 <= w < prev.len() && #[trigger] prev[w] == old[b].host;
        assert(next[w] == prev[w]);
    }
}

proof fn lemma_target_unseen(prev: Seq<u64>, target: u64, old: Seq<ChunkGroup>)
    requires
        hosts_cover(prev, old),
        forall|b: int| 0 <= b < old.len() ==> #[trigger] old[b].host != target,
    ensures
        forall|j: int| 0 <= j < prev.len() ==> prev[j] != target,
{
    reveal(hosts_cover);
    assert forall|j: int| 0 <= j < prev.len() implies prev[j] != target by {
        let b = choose|b: int| 0 <= b < old.len() && #[trigger] old[b].host == #[trigger] prev[j];
    }
}

proof fn lemma_opened_chunks(
    start: int,
    prev: Seq<u64>,
    target: u64,
    old: Seq<ChunkGroup>,
    new: Seq<ChunkGroup>,
)
    requires
        hosts_distinct(old),
        chunks_exact(start, prev, old),
        chunks_in_range(start, prev.len() as int, old),
        chunks_sorted(old),
        forall|j: int| 0 <= j < prev.len() ==> prev[j] != target,
        forall|b: int| 0 <= b < old.len() ==> #[trigger] old[b].host != target,
        opened_for(old, new, target, (start + prev.len()) as u64),
        0 <= start,
        start + prev.len() <= u64::MAX,
    ensures
        hosts_distinct(new),
        chunks_exact(start, prev.push(target), new),
        chunks_in_range(start, prev.len() + 1int, new),
        chunks_sorted(new),
{
    reveal(hosts_distinct);
    reveal(chunks_exact);
    reveal(chunks_in_range);
    reveal(chunks_sorted);
    let next = prev.push(target);
    let i = prev.len() as int;
    let nb = old.len() as int;
    let chunk = (start + i) as u64;
    assert forall|b: int, j: int|
        0 <= b < new.len() && 0 <= j < next.len() implies (next[j] == new[b].host
        <==> #[trigger] new[b].chunks@.contains((start + j) as u64)) by {
        if j < i {
            assert(next[j] == prev[j]);
            if b == nb {
                if new[b].chunks@.contains((start + j) as u64) {
                    assert(new[b].chunks@[0] == chunk);
                }
            } else {
                assert(new[b] == old[b]);
                assert(old[b].chunks@.contains((start + j) as u64) <==> prev[j] == old[b].host);
            }
        } else {
            if b == nb {
                assert(new[b].chunks@[0] == chunk);
            } else {
                assert(new[b] == old[b]);
                if new[b].chunks@.contains(chunk) {
                    let k = choose|k: int| 0 <= k < new[b].chunks@.len() && new[b].chunks@[k] == chunk;
                    assert(old[b].chunks@[k] < start + i);
                }
            }
        }
    }
    assert forall|b1: int, b2: int| 0 <= b1 < b2 < new.len() implies #[trigger] new[b1].host
        != #[trigger] new[b2].host by {
        assert(new[b1] == old[b1]);
        if b2 < nb {
            assert(new[b2] == old[b2]);
        }
    }
    assert forall|b: int, k: int|
        0 <= b < new.len() && 0 <= k < new[b].chunks@.len() implies start
            <= #[trigger] new[b].chunks@[k] < start + prev.len() + 1 by {
        if b < nb {
            assert(new[b] == old[b]);
        }
    }
    assert forall|b: int, k1: int, k2: int|
        0 <= b < new.len() && 0 <= k1 < k2 < new[b].chunks@.len()
            implies #[trigger] new[b].chunks@[k1] < #[trigger] new[b].chunks@[k2] by {
        if b < nb {
            assert(new[b] == old[b]);
        }
    }
}

proof fn lemma_opened_cover(prev: Seq<u64>, target: u64, old: Seq<ChunkGroup>, new: Seq<ChunkGroup>, chunk: u64)
    requires
        hosts_cover(prev, old),
        opened_for(old, new, target, chunk),
    ensures
        hosts_cover(prev.push(target), new),
{
    reveal(hosts_cover);
    let next = prev.push(target);
    let i = prev.len() as int;
    let nb = old.len() as int;
    assert forall|j: int| 0 <= j < next.len() implies exists|b: int|
        0 <= b < new.len() && #[trigger] new[b].host == #[trigger] next[j] by {
        if j < i {
            assert(next[j] == prev[j]);
            let b = choose|b: int| 0 <= b < old.len() && #[trigger] old[b].host == #[trigger] prev[j];
            assert(new[b] == old[b]);
            assert(new[b].host == next[j]);
        } else {
            assert(new[nb].host == next[j]);
        }
    }
}

proof fn lemma_opened_ordered(prev: Seq<u64>, target: u64, old: Seq<ChunkGroup>, new: Seq<ChunkGroup>, chunk: u64)
    requires
        hosts_ordered(prev, old),
        hosts_witnessed(prev, old),
        forall|j: int| 0 <= j < prev.len() ==> prev[j] != target,
        forall|b: int| 0 <= b < old.len() ==> #[trigger] old[b].host != target,
        opened_for(old, new, target, chunk),
    ensures
        hosts_ordered(prev.push(target), new),
{
    reveal(hosts_ordered);
    let next = prev.push(target);
    let i = prev.len() as int;
    let nb = old.len() as int;
    assert forall|b1: int, b2: int, j: int|
        #![trigger next[j], new[b2], new[b1]]
        0 <= b1 < b2 < new.len() && 0 <= j < next.len() && next[j] == new[b2].host
            implies seen_before(next, j, new[b1].host) by {
        assert(new[b1] == old[b1]);
        if b2 < nb {
            assert(new[b2] == old[b2]);
            if j < i {
                assert(next[j] == prev[j]);
                let j2 = choose|j2: int| 0 <= j2 < j && #[trigger] prev[j2] == old[b1].host;
                assert(next[j2] == prev[j2]);
            } else {
                assert(old[b2].host != target);
            }
        } else {
            if j < i {
                assert(next[j] == prev[j]);
            }
            reveal(hosts_witnessed);
            let w = choose|w: int| 0 <= w < prev.len() && #[trigger] prev[w] == old[b1].host;
            assert(next[w] == prev[w]);
        }
    }
}

proof fn lemma_opened_witnessed(prev: Seq<u64>, target: u64, old: Seq<ChunkGroup>, new: Seq<ChunkGroup>, chunk: u64)
    requires
        hosts_witnessed(prev, old),
        opened_for(old, new, target, chunk),
    ensures
        hosts_witnessed(prev.push(target), new),
{
    reveal(hosts_witnessed);
    let next = prev.push(target);
    let i = prev.len() as int;
    let nb = old.len() as int;
    assert forall|b: int| #![trigger new[b]] 0 <= b < new.len() implies exists|j: int|
        0 <= j < next.len() && #[trigger] next[j] == new[b].host by {
        if b < nb {
            assert(new[b] == old[b]);
            let w = choose|w: int| 0 <= w < prev.len() && #[trigger] prev[w] == old[b].host;
            assert(next[w] == prev[w]);
        } else {
            assert(next[i] == new[b].host);
        }
    }
}

/// Groups the chunks `start ..= start + located.len() - 1` by the server that
/// holds them, `located[i]` being the server of chunk `start + i`.
pub fn group_chunks(start: u64, located: &Vec<u64>) -> (groups: Vec<ChunkGroup>)
    requires
        start + located@.len() <= u64::MAX + 1,
    ensures
        is_grouping(start as int, located@, groups@),
        total_chunk_count(groups@) == located@.len(),
{
    let n = located.len();
    let mut groups: Vec<ChunkGroup> = Vec::new();
    // where each listed server's group stands in `groups`
    let mut index: HashMap<u64, usize> = HashMap::new();
    proof {
        broadcast use {
            vstd::std_specs::hash::axiom_u64_obeys_hash_table_key_model,
            vstd::std_specs::hash::axiom_random_state_builds_valid_hashers,
        };
        assert(vstd::std_specs::hash::obeys_key_model::<u64>());
        assert(vstd::std_specs::hash::builds_valid_hashers::<std::collections::hash_map::RandomState>());
        reveal(hosts_distinct);
        reveal(chunks_exact);
        reveal(chunks_in_range);
        reveal(chunks_sorted);
        reveal(hosts_cover);
        reveal(hosts_ordered);
        reveal(hosts_witnessed);
    }
    let mut i: usize = 0;
    while i < n
        invariant
            n == located@.len(),
            start + n <= u64::MAX + 1,
            i <= n,
            is_grouping(start as int, located@.take(i as int), groups@),
            total_chunk_count(groups@) == i,
            forall|h: u64| #[trigger] index@.contains_key(h) ==> index@[h] < groups@.len() && groups@[index@[h] as int].host == h,
            forall|b: int| 0 <= b < groups@.len() ==> #[trigger] index@.contains_key(groups@[b].host),
            vstd::std_specs::hash::obeys_key_model::<u64>(),
            vstd::std_specs::hash::builds_valid_hashers::<std::collections::hash_map::RandomState>(),
        decreases n - i,
    {
        let target = located[i];
        let chunk: u64 = start + i as u64;
        let ghost old_groups = groups@;
        let ghost prev = located@.take(i as int);
        assert(located@.take(i + 1) =~= prev.push(target));
        match index.get(&target) {
            Some(a_ref) => {
                let a = *a_ref;
                proof {
                    vstd::std_specs::hash::axiom_maps_deref_key_to_value(index@, &target, a);
                }
                groups[a].chunks.push(chunk);
                proof {
                    let s = start as int;
                    lemma_appended_distinct(old_groups, groups@, a as int, chunk);
                    lemma_total_count_grows(old_groups, groups@, a as int);
                    lemma_appended_range_sorted(s, prev, old_groups, groups@, a as int);
                    lemma_appended_exact(s, prev, target, old_groups, groups@, a as int);
                    lemma_appended_cover(prev, target, old_groups, groups@, a as int, chunk);
                    lemma_appended_ordered(prev, target, old_groups, groups@, a as int, chunk);
                    lemma_appended_witnessed(prev, target, old_groups, groups@, a as int, chunk);
                    assert forall|b: int| 0 <= b < groups@.len() implies #[trigger] index@.contains_key(groups@[b].host) by {
                        assert(index@.contains_key(old_groups[b].host));
                    }
                }
            },
            None => {
                proof {
                    vstd::std_specs::hash::axiom_contains_deref_key(index@, &target);
                }
                let nb = groups.len();
                let mut chunks: Vec<u64> = Vec::new();
                chunks.push(chunk);
                groups.push(ChunkGroup { host: target, chunks });
                let ghost old_index = index@;
                assert forall|b: int| 0 <= b < old_groups.len() implies #[trigger] old_groups[b].host != target by {
                    assert(old_index.contains_key(old_groups[b].host));
                }
                index.insert(target, nb);
                proof {
                    assert(groups@[old_groups.len() as int].chunks@ =~= seq![chunk]);
                    assert(groups@.drop_last() =~= old_groups);
                    lemma_target_unseen(prev, target, old_groups);
                    lemma_opened_chunks(start as int, prev, target, old_groups, groups@);
                    lemma_opened_cover(prev, target, old_groups, groups@, chunk);
                    lemma_opened_ordered(prev, target, old_groups, groups@, chunk);
                    lemma_opened_witnessed(prev, target, old_groups, groups@, chunk);
                    assert forall|b: int| 0 <= b < groups@.len() implies #[trigger] index@.contains_key(groups@[b].host) by {
                        if b < nb {
                            assert(groups@[b] == old_groups[b]);
                        }
                    }
                    assert forall|h: u64| #[trigger] index@.contains_key(h) implies index@[h] < groups@.len() && groups@[index@[h] as int].host == h by {
                        if h != target {
                            assert(groups@[index@[h] as int] == old_groups[index@[h] as int]);
                        }
                    }
                }
            },
        }
        i = i + 1;
    }
    assert(located@.take(n as int) =~= located@);
    groups
}

} // verus!
