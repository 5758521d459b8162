use sfs_forward::arith::{block_index, chunk_lpad, chunk_rpad, offset_to_chunk_id};
use sfs_forward::config::{RDMAConfig, CHUNK_SIZE, CLIENT_CM_IDS, DIRENT_BUF_SIZE};
use sfs_forward::grouping::group_chunks;
use sfs_forward::message::{Payload, PostOption, Request};
use sfs_forward::plan::{chunk_span, read_requests, read_span, split_span, write_requests, write_span, ReadSpan};
use sfs_forward::requests::{
    chunk_stat_requests, create_request, decr_size_request, dirents_requests, fs_config_request,
    metadentry_size_request, remove_chunk_end, remove_requests, stat_request, truncate_requests,
    truncate_span, update_metadentry_request,
};

fn raw(r: &Request) -> &str {
    match &r.payload {
        Payload::Raw(s) => s.as_str(),
        _ => panic!("not a raw payload"),
    }
}

fn path_of(r: &Request) -> &str {
    match &r.payload {
        Payload::Path(s) => s.as_str(),
        _ => panic!("not a path payload"),
    }
}

#[test]
fn constants_and_config() {
    assert_eq!(CHUNK_SIZE, 8);
    assert_eq!(DIRENT_BUF_SIZE, 8 * 1024 * 1024);
    assert_eq!(CLIENT_CM_IDS, 1);
    let c = RDMAConfig { addr: "10.0.0.1:9000".to_string() };
    assert_eq!(c.addr, "10.0.0.1:9000");
}

#[test]
fn chunk_arithmetic() {
    assert_eq!(offset_to_chunk_id(0, 8), 0);
    assert_eq!(offset_to_chunk_id(7, 8), 0);
    assert_eq!(offset_to_chunk_id(8, 8), 1);
    assert_eq!(offset_to_chunk_id(13, 8), 1);
    assert_eq!(block_index(23, 8), 2);
    assert_eq!(chunk_lpad(13, 8), 5);
    assert_eq!(chunk_lpad(16, 8), 0);
    assert_eq!(chunk_rpad(13, 8), 3);
    assert_eq!(chunk_rpad(16, 8), 0);
    assert_eq!(chunk_rpad(17, 8), 7);
}

#[test]
fn pads_recompose_offsets() {
    for off in 0i64..40 {
        let id = offset_to_chunk_id(off, 8);
        let l = chunk_lpad(off, 8);
        let r = chunk_rpad(off, 8);
        assert_eq!(id * 8 + l, off as u64);
        assert_eq!((off as u64 + r) % 8, 0);
        assert!(l < 8 && r < 8);
    }
}

#[test]
fn spans() {
    let sp = chunk_span(13, 4);
    assert_eq!((sp.offset, sp.chunk_start, sp.chunk_end), (13, 1, 2));
    let sp = chunk_span(16, 0);
    assert_eq!((sp.chunk_start, sp.chunk_end), (2, 1));
    assert!(write_span(true, 5, -1, 100).is_none());
    let sp = write_span(true, 5, 10, 100).unwrap();
    assert_eq!((sp.offset, sp.chunk_start, sp.chunk_end), (5, 0, 1));
    let sp = write_span(false, 5, 10, 100).unwrap();
    assert_eq!((sp.offset, sp.chunk_start, sp.chunk_end), (90, 11, 12));
}

#[test]
fn grouping_by_first_appearance() {
    let located = vec![3u64, 1, 3, 2, 1];
    let groups = group_chunks(10, &located);
    let got: Vec<(u64, Vec<u64>)> = groups.iter().map(|g| (g.host, g.chunks.clone())).collect();
    assert_eq!(got, vec![(3, vec![10, 12]), (1, vec![11, 14]), (2, vec![13])]);
    assert!(group_chunks(0, &vec![]).is_empty());
}

#[test]
fn every_chunk_on_exactly_one_server() {
    let located = vec![0u64, 2, 2, 1, 0, 2, 1];
    let groups = group_chunks(4, &located);
    for (i, h) in located.iter().enumerate() {
        let holders: Vec<u64> = groups
            .iter()
            .filter(|g| g.chunks.contains(&(4 + i as u64)))
            .map(|g| g.host)
            .collect();
        assert_eq!(holders, vec![*h]);
    }
    let total: usize = groups.iter().map(|g| g.chunks.len()).sum();
    assert_eq!(total, located.len());
}

#[test]
fn split_shares_add_up() {
    let (groups, totals) = split_span(5, 10, &vec![1, 2]);
    assert_eq!(groups.len(), 2);
    assert_eq!(totals, vec![3, 7]);
    let (_, totals) = split_span(5, 10, &vec![4, 4]);
    assert_eq!(totals, vec![10]);
    let (_, totals) = split_span(3, 2, &vec![9]);
    assert_eq!(totals, vec![2]);
    let (_, totals) = split_span(1, 30, &vec![0, 1, 0, 1]);
    assert_eq!(totals, vec![15, 15]);
    assert_eq!(totals.iter().sum::<u64>(), 30);
    let (groups, totals) = split_span(16, 0, &vec![]);
    assert!(groups.is_empty() && totals.is_empty());
    let (_, totals) = split_span(3, 0, &vec![5]);
    assert_eq!(totals, vec![0]);
}

#[test]
fn write_plan() {
    let path = "/f".to_string();
    let buf = "abcdefghij".to_string();
    let reqs = write_requests(&path, &buf, 5, 10, 3, &vec![1, 2]);
    assert_eq!(reqs.len(), 2);
    let mut sum = 0;
    for (r, (host, n, tot)) in reqs.iter().zip([(1u64, 1u64, 3u64), (2, 1, 7)]) {
        assert_eq!(r.host, host);
        assert_eq!(r.option, PostOption::Write);
        match &r.payload {
            Payload::Write(d) => {
                assert_eq!(d.path, "/f");
                assert_eq!(d.offset, 5);
                assert_eq!(d.host_id, host);
                assert_eq!(d.host_size, 3);
                assert_eq!(d.chunk_n, n);
                assert_eq!((d.chunk_start, d.chunk_end), (0, 1));
                assert_eq!(d.total_chunk_size, tot);
                assert_eq!(d.buffers, "abcdefghij");
                sum += d.total_chunk_size;
            }
            _ => panic!("not a write"),
        }
    }
    assert_eq!(sum, 10);
}

#[test]
fn read_plan() {
    let path = "/g".to_string();
    let reqs = read_requests(&path, 8, 20, 2, &vec![1, 0, 1]);
    assert_eq!(reqs.len(), 2);
    let mut sum = 0;
    for (r, (host, n)) in reqs.iter().zip([(1u64, 2u64), (0, 1)]) {
        assert_eq!(r.host, host);
        assert_eq!(r.option, PostOption::Read);
        match &r.payload {
            Payload::Read(d) => {
                assert_eq!(d.path, "/g");
                assert_eq!(d.offset, 0);
                assert_eq!(d.chunk_n, n);
                assert_eq!((d.chunk_start, d.chunk_end), (1, 3));
                sum += d.total_chunk_size;
            }
            _ => panic!("not a read"),
        }
    }
    assert_eq!(sum, 20);
}

#[test]
fn single_requests() {
    let p = "/a/b".to_string();
    let r = stat_request(&p, 4);
    assert_eq!((r.host, r.option, path_of(&r)), (4, PostOption::Stat, "/a/b"));
    let r = create_request(&p, 0o644, 1);
    assert_eq!((r.host, r.option), (1, PostOption::Create));
    assert!(matches!(&r.payload, Payload::Create { path, mode } if path == "/a/b" && *mode == 0o644));
    let r = metadentry_size_request(&p, 2);
    assert_eq!((r.host, r.option, path_of(&r)), (2, PostOption::UpdateMetadentry, "/a/b"));
    let r = decr_size_request(&p, 12, 2);
    assert_eq!(r.option, PostOption::UpdateMetadentry);
    assert!(matches!(&r.payload, Payload::Decr { path, new_size } if path == "/a/b" && *new_size == 12));
    let r = update_metadentry_request(&p, 30, 7, true, 0);
    assert_eq!((r.host, r.option), (0, PostOption::UpdateMetadentry));
    assert!(matches!(&r.payload, Payload::UpdateMetadentry { path, size, offset, append }
        if path == "/a/b" && *size == 30 && *offset == 7 && *append));
    let r = fs_config_request(3);
    assert_eq!((r.host, r.option), (3, PostOption::FsConfig));
    assert!(matches!(r.payload, Payload::Empty));
}

#[test]
fn removal_plans() {
    let p = "/x".to_string();
    let reqs = remove_requests(&p, true, 100, 4, 2, &vec![]);
    assert_eq!(reqs.len(), 1);
    assert_eq!((reqs[0].host, reqs[0].option, path_of(&reqs[0])), (2, PostOption::RemoveMeta, "/x"));

    assert_eq!(remove_chunk_end(20, 4), Some(2));
    assert_eq!(remove_chunk_end(32, 4), None);
    let reqs = remove_requests(&p, false, 20, 4, 2, &vec![1, 2, 3]);
    let hosts: Vec<u64> = reqs.iter().map(|r| r.host).collect();
    assert_eq!(hosts, vec![2, 1, 3]);
    for r in &reqs {
        assert_eq!((r.option, raw(r)), (PostOption::Remove, "/x"));
    }
    let reqs = remove_requests(&p, false, 7, 4, 0, &vec![3]);
    let hosts: Vec<u64> = reqs.iter().map(|r| r.host).collect();
    assert_eq!(hosts, vec![0, 3]);
    let reqs = remove_requests(&p, false, 40, 3, 1, &vec![]);
    let hosts: Vec<u64> = reqs.iter().map(|r| r.host).collect();
    assert_eq!(hosts, vec![0, 1, 2]);
}

#[test]
fn truncation_plans() {
    assert_eq!(truncate_span(4, 10), None);
    assert_eq!(truncate_span(40, 10), Some((1, 3)));
    assert_eq!(truncate_span(11, 10), Some((1, 0)));
    let p = "/t".to_string();
    let reqs = truncate_requests(&p, 10, &vec![5, 6, 5]);
    assert_eq!(reqs.len(), 3);
    let hosts: Vec<u64> = reqs.iter().map(|r| r.host).collect();
    assert_eq!(hosts, vec![5, 6, 5]);
    for r in &reqs {
        assert_eq!(r.option, PostOption::Trunc);
        assert!(matches!(&r.payload, Payload::Trunc { path, new_size } if path == "/t" && *new_size == 10));
    }
    assert!(truncate_requests(&p, 10, &vec![]).is_empty());
}

#[test]
fn listing_and_stat_plans() {
    let p = "/d".to_string();
    let reqs = dirents_requests(&p, &vec![2, 0]);
    assert_eq!(reqs.iter().map(|r| r.host).collect::<Vec<_>>(), vec![2, 0]);
    for r in &reqs {
        assert_eq!((r.option, raw(r)), (PostOption::GetDirents, "/d"));
    }
    let reqs = chunk_stat_requests(3);
    assert_eq!(reqs.iter().map(|r| r.host).collect::<Vec<_>>(), vec![0, 1, 2]);
    for r in &reqs {
        assert_eq!((r.option, raw(r)), (PostOption::Remove, "0"));
    }
    assert!(chunk_stat_requests(0).is_empty());
}

#[test]
fn write_range_ignores_unused_value() {
    let a = write_span(false, 1, 10, 100).unwrap();
    let b = write_span(false, 77, 10, 100).unwrap();
    assert_eq!((a.offset, a.chunk_start, a.chunk_end), (b.offset, b.chunk_start, b.chunk_end));
    let a = write_span(true, 30, 10, 100).unwrap();
    let b = write_span(true, 30, 10, 5000).unwrap();
    assert_eq!((a.offset, a.chunk_start, a.chunk_end), (b.offset, b.chunk_start, b.chunk_end));
}

#[test]
fn read_plan_mirrors_write_plan() {
    let p = "/m".to_string();
    let located = vec![2u64, 0, 2, 1];
    let reads = read_requests(&p, 3, 27, 3, &located);
    let writes = write_requests(&p, &"data".to_string(), 3, 27, 3, &located);
    assert_eq!(reads.len(), writes.len());
    for (r, w) in reads.iter().zip(writes.iter()) {
        assert_eq!(r.host, w.host);
        match (&r.payload, &w.payload) {
            (Payload::Read(d1), Payload::Write(d2)) => {
                assert_eq!(
                    (&d1.path, d1.offset, d1.host_id, d1.host_size, d1.chunk_n, d1.chunk_start, d1.chunk_end, d1.total_chunk_size),
                    (&d2.path, d2.offset, d2.host_id, d2.host_size, d2.chunk_n, d2.chunk_start, d2.chunk_end, d2.total_chunk_size)
                );
            }
            _ => panic!("wrong payloads"),
        }
    }
}

#[test]
fn read_spans() {
    match read_span(13, 4) {
        ReadSpan::Chunks(sp) => assert_eq!((sp.offset, sp.chunk_start, sp.chunk_end), (13, 1, 2)),
        _ => panic!("expected chunks"),
    }
    assert!(matches!(read_span(16, -1), ReadSpan::NoChunks));
    assert!(matches!(read_span(20, -2), ReadSpan::Unplannable));
}

#[test]
fn removal_with_no_servers() {
    let p = "/x".to_string();
    assert_eq!(remove_chunk_end(-3, 0), None);
    assert!(remove_requests(&p, false, -3, 0, 0, &vec![]).is_empty());
    assert!(remove_requests(&p, false, 40, 0, 0, &vec![]).is_empty());
}
