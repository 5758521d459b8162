use vstd::prelude::*;
use crate::arith::{spec_block_of, block_index};
use crate::config::CHUNK_SIZE;
use crate::message::{PostOption, Payload, Request};

verus! {

/// `r` goes to `host` and asks for `option` on a path sent as a record.
pub open spec fn is_path_request(r: Request, host: u64, option: PostOption, path: Seq<char>) -> bool {
    &&& r.host == host
    &&& r.option == option
    &&& r.payload matches Payload::Path(p)
    &&& p@ == path
}

/// `r` goes to `host` and asks for `option` with the bare string `data`.
pub open spec fn is_raw_request(r: Request, host: u64, option: PostOption, data: Seq<char>) -> bool {
    &&& r.host == host
    &&& r.option == option
    &&& r.payload matches Payload::Raw(p)
    &&& p@ == data
}

/// Asks the server that holds the metadata of `path` for its stat record.
pub fn stat_request(path: &String, meta_host: u64) -> (r: Request)
    ensures
        is_path_request(r, meta_host, PostOption::Stat, path@),
{
    Request { host: meta_host, option: PostOption::Stat, payload: Payload::Path(path.clone()) }
}

/// Asks the metadata server of `path` to create it with `mode`.
pub fn create_request(path: &String, mode: u32, meta_host: u64) -> (r: Request)
    ensures
        r.host == meta_host,
        r.option == PostOption::Create,
        r.payload matches Payload::Create { path: p, mode: m } && p@ == path@ && m == mode,
{
    Request {
        host: meta_host,
        option: PostOption::Create,
        payload: Payload::Create { path: path.clone(), mode },
    }
}

/// Asks the metadata server of `path` for the size that its entry records.
pub fn metadentry_size_request(path: &String, meta_host: u64) -> (r: Request)
    ensures
        is_path_request(r, meta_host, PostOption::UpdateMetadentry, path@),
{
    Request {
        host: meta_host,
        option: PostOption::UpdateMetadentry,
        payload: Payload::Path(path.clone()),
    }
}

/// Asks the metadata server of `path` to lower the recorded size to
/// `new_size`.
pub fn decr_size_request(path: &String, new_size: i64, meta_host: u64) -> (r: Request)
    ensures
        r.host == meta_host,
        r.option == PostOption::UpdateMetadentry,
        r.payload matches Payload::Decr { path: p, new_size: n } && p@ == path@ && n == new_size,
{
    Request {
        host: meta_host,
        option: PostOption::UpdateMetadentry,
        payload: Payload::Decr { path: path.clone(), new_size },
    }
}

/// Asks the metadata server of `path` to account for a write of `size` bytes
/// at `offset` (or at the end, with `append_flag`).
pub fn update_metadentry_request(
    path: &String,
    size: u64,
    offset: i64,
    append_flag: bool,
    meta_host: u64,
) -> (r: Request)
    ensures
        r.host == meta_host,
        r.option == PostOption::UpdateMetadentry,
        r.payload matches Payload::UpdateMetadentry { path: p, size: s, offset: o, append: a }
            && p@ == path@ && s == size && o == offset && a == append_flag,
{
    Request {
        host: meta_host,
        option: PostOption::UpdateMetadentry,
        payload: Payload::UpdateMetadentry { path: path.clone(), size, offset, append: append_flag },
    }
}

/// Asks the client's own server for the file system configuration.
pub fn fs_config_request(local_host: u64) -> (r: Request)
    ensures
        r.host == local_host,
        r.option == PostOption::FsConfig,
        r.payload is Empty,
{
    Request { host: local_host, option: PostOption::FsConfig, payload: Payload::Empty }
}

/// The quotient of `size` by the chunk size, rounded toward zero, over the
/// sizes that a removal accepts (from one chunk below zero upward).
pub open spec fn remove_quotient(size: int) -> int {
    if size >= 0 {
        spec_block_of(size, CHUNK_SIZE as int)
    } else {
        0
    }
}

/// The sizes a removal that is not of the metadata entry alone accepts:
/// non-negative ones, or one just below zero when there are no servers (the
/// removal then asks every server, that is none).
pub open spec fn remove_size_ok(size: int, host_count: u64) -> bool {
    &&& size >= 0 || (size > -(CHUNK_SIZE as int) && host_count == 0)
    &&& host_count <= i64::MAX
}

/// Whether removing a file of `size` bytes goes chunk by chunk (its chunks
/// are fewer than the servers): then the last chunk to remove, else none,
/// and every server is asked.
pub fn remove_chunk_end(size: i64, host_count: u64) -> (end: Option<u64>)
    requires
        remove_size_ok(size as int, host_count),
    ensures
        end is Some <==> remove_quotient(size as int) < host_count,
        end matches Some(e) ==> e == remove_quotient(size as int),
{
    if size < 0 {
        return None;
    }
    let e = block_index(size, CHUNK_SIZE);
    if e < host_count {
        Some(e)
    } else {
        None
    }
}

/// The servers asked to remove a file chunk by chunk: its metadata server
/// first, then the server of each chunk in chunk order, skipping those that
/// are the metadata server.
pub open spec fn chunk_removal_hosts(meta_host: u64, chunk_hosts: Seq<u64>) -> Seq<u64> {
    seq![meta_host] + chunk_hosts.filter(other_than(meta_host))
}

/// Holds of every server but `x`.
pub open spec fn other_than(x: u64) -> spec_fn(u64) -> bool {
    |h: u64| h != x
}

/// The requests that remove `path`. With `remove_metadentry_only`, one
/// request to its metadata server. Otherwise, where its chunks are fewer
/// than the servers, one to each server of `chunk_removal_hosts`
/// (`chunk_hosts[i]` holds chunk `i`); else one to every server in order.
pub fn remove_requests(
    path: &String,
    remove_metadentry_only: bool,
    size: i64,
    host_count: u64,
    meta_host: u64,
    chunk_hosts: &Vec<u64>,
) -> (reqs: Vec<Request>)
    requires
        !remove_metadentry_only ==> remove_size_ok(size as int, host_count),
        !remove_metadentry_only && remove_quotient(size as int) < host_count
            ==> chunk_hosts@.len() == remove_quotient(size as int) + 1,
    ensures
        remove_metadentry_only ==> reqs@.len() == 1 && is_path_request(reqs@[0], meta_host, PostOption::RemoveMeta, path@),
        !remove_metadentry_only && remove_quotient(size as int) < host_count ==> {
            let hosts = chunk_removal_hosts(meta_host, chunk_hosts@);
            &&& reqs@.len() == hosts.len()
            &&& forall|k: int| 0 <= k < hosts.len() ==> is_raw_request(#[trigger] reqs@[k], hosts[k], PostOption::Remove, path@)
        },
        !remove_metadentry_only && remove_quotient(size as int) >= host_count ==> {
            &&& reqs@.len() == host_count
            &&& forall|k: int| 0 <= k < host_count ==> is_raw_request(#[trigger] reqs@[k], k as u64, PostOption::Remove, path@)
        },
{
    let mut reqs: Vec<Request> = Vec::new();
    if remove_metadentry_only {
        reqs.push(Request { host: meta_host, option: PostOption::RemoveMeta, payload: Payload::Path(path.clone()) });
        return reqs;
    }
    match remove_chunk_end(size, host_count) {
        Some(_) => {
            reqs.push(Request { host: meta_host, option: PostOption::Remove, payload: Payload::Raw(path.clone()) });
            let n = chunk_hosts.len();
            let mut i: usize = 0;
            assert(chunk_hosts@.take(0).filter(other_than(meta_host)) =~= Seq::<u64>::empty()) by {
                reveal_with_fuel(Seq::filter, 1);
            }
            assert(chunk_removal_hosts(meta_host, chunk_hosts@.take(0)) =~= seq![meta_host]);
            while i < n
                invariant
                    n == chunk_hosts@.len(),
                    i <= n,
                    reqs@.len() == chunk_removal_hosts(meta_host, chunk_hosts@.take(i as int)).len(),
                    forall|k: int| 0 <= k < reqs@.len() ==> is_raw_request(#[trigger] reqs@[k],
                        chunk_removal_hosts(meta_host, chunk_hosts@.take(i as int))[k], PostOption::Remove, path@),
                decreases n - i,
            {
                let h = chunk_hosts[i];
                let ghost before = chunk_removal_hosts(meta_host, chunk_hosts@.take(i as int));
                let ghost after = chunk_removal_hosts(meta_host, chunk_hosts@.take(i + 1));
                proof {
                    let t = chunk_hosts@.take(i + 1);
                    assert(t.drop_last() =~= chunk_hosts@.take(i as int));
                    assert(t.last() == h);
                    reveal_with_fuel(Seq::filter, 1);
                    if h != meta_host {
                        assert(after =~= before.push(h));
                    } else {
                        assert(after =~= before);
                    }
                }
                if h != meta_host {
                    reqs.push(Request { host: h, option: PostOption::Remove, payload: Payload::Raw(path.clone()) });
                }
                i = i + 1;
            }
            proof {
                assert(chunk_hosts@.take(n as int) =~= chunk_hosts@);
            }
        }
        None => {
            let mut k: u64 = 0;
            while k < host_count
                invariant
                    k <= host_count,
                    reqs@.len() == k,
                    forall|j: int| 0 <= j < k ==> is_raw_request(#[trigger] reqs@[j], j as u64, PostOption::Remove, path@),
                decreases host_count - k,
            {
                reqs.push(Request { host: k, option: PostOption::Remove, payload: Payload::Raw(path.clone()) });
                k = k + 1;
            }
        }
    }
    reqs
}

/// The chunks a truncation from `old_size` to `new_size` addresses: none
/// when the file would grow, which truncation refuses; else from the chunk
/// of byte `new_size` to the chunk of byte `old_size - new_size - 1`.
pub fn truncate_span(old_size: i64, new_size: i64) -> (sp: Option<(u64, u64)>)
    requires
        old_size >= new_size ==> new_size >= 0 && old_size > new_size,
    ensures
        sp is None <==> old_size < new_size,
        sp matches Some(p) ==> p.0 == spec_block_of(new_size as int, CHUNK_SIZE as int)
            && p.1 == spec_block_of(old_size - new_size - 1, CHUNK_SIZE as int),
{
    if old_size < new_size {
        return None;
    }
    Some((block_index(new_size, CHUNK_SIZE), block_index(old_size - new_size - 1, CHUNK_SIZE)))
}

/// Number of chunks from `start` to `end`, none when `end` is before `start`.
pub open spec fn chunk_count(start: int, end: int) -> int {
    if end >= start { end - start + 1 } else { 0 }
}

/// One truncation request, to `new_size`, for the server of each chunk of the
/// span (`chunk_hosts[i]` holds its `i`-th chunk), in chunk order.
pub fn truncate_requests(path: &String, new_size: i64, chunk_hosts: &Vec<u64>) -> (reqs: Vec<Request>)
    ensures
        reqs@.len() == chunk_hosts@.len(),
        forall|k: int| 0 <= k < reqs@.len() ==> {
            &&& (#[trigger] reqs@[k]).host == chunk_hosts@[k]
            &&& reqs@[k].option == PostOption::Trunc
            &&& reqs@[k].payload matches Payload::Trunc { path: p, new_size: n }
            &&& p@ == path@
            &&& n == new_size
        },
{
    let mut reqs: Vec<Request> = Vec::new();
    let mut i: usize = 0;
    while i < chunk_hosts.len()
        invariant
            i <= chunk_hosts@.len(),
            reqs@.len() == i,
            forall|k: int| 0 <= k < i ==> {
                &&& (#[trigger] reqs@[k]).host == chunk_hosts@[k]
                &&& reqs@[k].option == PostOption::Trunc
                &&& reqs@[k].payload matches Payload::Trunc { path: p, new_size: n }
                &&& p@ == path@
                &&& n == new_size
            },
        decreases chunk_hosts@.len() - i,
    {
        reqs.push(Request {
            host: chunk_hosts[i],
            option: PostOption::Trunc,
            payload: Payload::Trunc { path: path.clone(), new_size },
        });
        i = i + 1;
    }
    reqs
}

/// One directory listing request for `path` to each server that holds part
/// of the directory, in the order given.
pub fn dirents_requests(path: &String, targets: &Vec<u64>) -> (reqs: Vec<Request>)
    requires
        targets@.len() > 0,
    ensures
        reqs@.len() == targets@.len(),
        forall|k: int| 0 <= k < reqs@.len() ==> is_raw_request(#[trigger] reqs@[k], targets@[k], PostOption::GetDirents, path@),
{
    let mut reqs: Vec<Request> = Vec::new();
    let mut i: usize = 0;
    while i < targets.len()
        invariant
            i <= targets@.len(),
            reqs@.len() == i,
            forall|k: int| 0 <= k < i ==> is_raw_request(#[trigger] reqs@[k], targets@[k], PostOption::GetDirents, path@),
        decreases targets@.len() - i,
    {
        reqs.push(Request { host: targets[i], option: PostOption::GetDirents, payload: Payload::Raw(path.clone()) });
        i = i + 1;
    }
    reqs
}

/// One chunk statistics request to every server in order; the request goes
/// out under the remove operation with the body `"0"`.
pub fn chunk_stat_requests(host_count: u64) -> (reqs: Vec<Request>)
    ensures
        reqs@.len() == host_count,
        forall|k: int| 0 <= k < host_count ==> is_raw_request(#[trigger] reqs@[k], k as u64, PostOption::Remove, "0"@),
{
    let mut reqs: Vec<Request> = Vec::new();
    let mut k: u64 = 0;
    while k < host_count
        invariant
            k <= host_count,
            reqs@.len() == k,
            forall|j: int| 0 <= j < k ==> is_raw_request(#[trigger] reqs@[j], j as u64, PostOption::Remove, "0"@),
        decreases host_count - k,
    {
        reqs.push(Request { host: k, option: PostOption::Remove, payload: Payload::Raw("0".to_owned()) });
        k = k + 1;
    }
    reqs
}

} // verus!
