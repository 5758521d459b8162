use sfs_forward::forward::{
    forward_create, forward_decr_size, forward_get_fs_config, forward_get_metadentry_size,
    forward_remove, forward_stat, forward_truncate, forward_update_metadentry_size,
    update_metadentry_outcome,
};
use sfs_forward::gather::{
    chunk_stat_replies_readable, dirents_listing, forward_get_chunk_stat, forward_get_dirents, forward_read,
    try_forward_get_dirents,
    next_read_send, next_write_send,
    forward_write, read_replies_readable, write_replies_readable,
};
use sfs_forward::message::{ChunkStat, ChunkStatReply, FileType, ForwardError, PostResult, ReadReply, ReadResult};

fn ok(data: &str) -> PostResult {
    PostResult { err: false, data: data.to_string() }
}

fn failed(data: &str) -> PostResult {
    PostResult { err: true, data: data.to_string() }
}

#[test]
fn stat_outcomes() {
    match forward_stat::<String>(Ok(ok("{\"mode\":1}"))) {
        Ok(d) => assert_eq!(d, "{\"mode\":1}"),
        Err(_) => panic!("expected the record"),
    }
    assert!(matches!(forward_stat::<String>(Ok(failed("2"))), Err(ForwardError::NotFound)));
    match forward_stat::<String>(Err("link down".to_string())) {
        Err(ForwardError::Post(e)) => assert_eq!(e, "link down"),
        _ => panic!("expected the transport error"),
    }
}

#[test]
fn create_outcomes() {
    assert_eq!(forward_create::<u8>(Ok(ok("whatever"))), Ok(0));
    assert_eq!(forward_create::<u8>(Ok(failed("17"))), Ok(17));
    assert_eq!(forward_create::<u8>(Ok(failed("-2"))), Ok(-2));
    assert_eq!(forward_create::<u8>(Ok(failed("+3"))), Ok(3));
    assert_eq!(forward_create::<u8>(Err(9)), Err(9));
}

#[test]
fn remove_outcomes() {
    assert_eq!(forward_remove::<u8>(true, Ok(vec![failed("5")])), Ok(0));
    assert_eq!(forward_remove::<u8>(false, Ok(vec![ok(""), ok("")])), Ok(0));
    assert_eq!(forward_remove::<u8>(false, Ok(vec![ok(""), failed("2"), failed("x")])), Ok(2));
    assert_eq!(forward_remove::<u8>(false, Ok(vec![])), Ok(0));
    assert_eq!(forward_remove::<u8>(false, Err(1)), Err(1));
    assert_eq!(forward_remove::<u8>(true, Err(1)), Err(1));
}

#[test]
fn metadentry_size_outcomes() {
    assert_eq!(forward_get_metadentry_size::<u8>(Ok(ok("4096"))), (0, 4096));
    assert_eq!(forward_get_metadentry_size::<u8>(Ok(failed("2"))), (2, 0));
    assert_eq!(forward_get_metadentry_size::<u8>(Err(0)), (-1, 0));
}

#[test]
fn decr_size_outcomes() {
    assert_eq!(forward_decr_size::<u8>(Ok(ok(""))), 0);
    assert_eq!(forward_decr_size::<u8>(Ok(failed("-5"))), -5);
    assert_eq!(forward_decr_size::<u8>(Err(0)), -1);
}

#[test]
fn truncate_outcomes() {
    assert_eq!(forward_truncate::<u8>(3, 10, Ok(vec![])), -1);
    assert_eq!(forward_truncate::<u8>(30, 10, Err(0)), -1);
    assert_eq!(forward_truncate::<u8>(30, 10, Ok(vec![ok(""), failed("9")])), 5);
    assert_eq!(forward_truncate::<u8>(30, 10, Ok(vec![ok(""), ok("")])), 0);
}

#[test]
fn update_metadentry_outcomes() {
    assert_eq!(update_metadentry_outcome::<u8>(Err(0), 16), (16, 0));
    assert_eq!(update_metadentry_outcome::<u8>(Ok(ok("120")), 16), (0, 120));
    assert_eq!(update_metadentry_outcome::<u8>(Ok(failed("28")), 16), (28, 28));
    assert_eq!(forward_update_metadentry_size::<u8>(Err(0)), (libc::EBUSY, 0));
    assert_eq!(forward_update_metadentry_size::<u8>(Ok(ok("64"))), (0, 64));
}

#[test]
fn fs_config_taken_only_on_success() {
    assert!(forward_get_fs_config::<u8>(&Ok(ok("{}"))));
    assert!(!forward_get_fs_config::<u8>(&Ok(failed("{}"))));
    assert!(!forward_get_fs_config::<u8>(&Err(0)));
}

#[test]
fn write_outcomes() {
    let all_ok: Vec<Result<PostResult, u8>> = vec![Ok(ok("3")), Ok(ok("7"))];
    assert!(write_replies_readable(&all_ok));
    assert_eq!(forward_write(10, &all_ok), (0, 10));
    assert_eq!(forward_write(-1, &all_ok), (-1, 0));
    let one_failed: Vec<Result<PostResult, u8>> = vec![Ok(ok("3")), Ok(failed("1")), Ok(ok("junk"))];
    assert!(write_replies_readable(&one_failed));
    assert_eq!(forward_write(10, &one_failed), (-1, 0));
    let transport: Vec<Result<PostResult, u8>> = vec![Ok(ok("3")), Err(0)];
    assert_eq!(forward_write(10, &transport), (-1, 0));
    assert_eq!(forward_write::<u8>(0, &vec![]), (0, 0));
    let junk: Vec<Result<PostResult, u8>> = vec![Ok(ok("3")), Ok(ok("three"))];
    assert!(!write_replies_readable(&junk));
    let big: Vec<Result<PostResult, u8>> = vec![Ok(ok("9223372036854775807")), Ok(ok("1"))];
    assert!(!write_replies_readable(&big));
}

fn read_ok(nreads: u64, chunks: Vec<(u64, &str)>) -> Result<ReadReply, u8> {
    Ok(ReadReply {
        err: false,
        result: Some(ReadResult {
            nreads,
            data: chunks.into_iter().map(|(c, s)| (c, s.to_string())).collect(),
        }),
    })
}

#[test]
fn read_outcomes() {
    // a read at offset 13 starts in chunk 1, 5 bytes into it
    let replies = vec![read_ok(3, vec![(1, "abc"), (3, "ghijklmn")]), read_ok(8, vec![(2, "defghijk")])];
    assert!(read_replies_readable(13, &replies));
    let out = forward_read(13, &replies);
    assert_eq!((out.code, out.nread), (0, 11));
    let placed: Vec<(usize, usize, u64)> = out.copies.iter().map(|c| (c.reply, c.chunk, c.local_offset)).collect();
    assert_eq!(placed, vec![(0, 0, 0), (0, 1, 19), (1, 0, 11)]);

    let failing = vec![read_ok(3, vec![(1, "abc")]), Ok(ReadReply { err: true, result: None }), read_ok(1, vec![(9, "z")])];
    assert!(read_replies_readable(13, &failing));
    let out = forward_read(13, &failing);
    assert_eq!((out.code, out.nread), (-1, 0));
    assert_eq!(out.copies.len(), 1);

    let transport: Vec<Result<ReadReply, u8>> = vec![Err(3)];
    let out = forward_read(0, &transport);
    assert_eq!((out.code, out.nread, out.copies.len()), (-1, 0, 0));

    let missing: Vec<Result<ReadReply, u8>> = vec![Ok(ReadReply { err: false, result: None })];
    assert!(!read_replies_readable(0, &missing));
    let too_early = vec![read_ok(1, vec![(0, "a")])];
    assert!(!read_replies_readable(13, &too_early));
}

fn stat_reply(total: u64, free: u64) -> ChunkStatReply {
    ChunkStatReply {
        err: false,
        data: String::new(),
        stat: Some(ChunkStat { chunk_size: 8, chunk_total: total, chunk_free: free }),
    }
}

#[test]
fn chunk_stat_outcomes() {
    let zero = ChunkStat { chunk_size: 0, chunk_total: 0, chunk_free: 0 };
    assert_eq!(ChunkStat::new(), zero);
    let v = vec![stat_reply(10, 4), stat_reply(6, 6)];
    assert!(chunk_stat_replies_readable(&v));
    assert_eq!(
        forward_get_chunk_stat::<u8>(Ok(v)),
        (0, ChunkStat { chunk_size: 8, chunk_total: 16, chunk_free: 10 })
    );
    let v = vec![stat_reply(10, 4), ChunkStatReply { err: true, data: "12".to_string(), stat: None }];
    assert!(chunk_stat_replies_readable(&v));
    assert_eq!(forward_get_chunk_stat::<u8>(Ok(v)), (12, zero));
    assert_eq!(forward_get_chunk_stat::<u8>(Err(0)), (-1, zero));
    let wrong_size = vec![ChunkStatReply {
        err: false,
        data: String::new(),
        stat: Some(ChunkStat { chunk_size: 4096, chunk_total: 1, chunk_free: 1 }),
    }];
    assert!(!chunk_stat_replies_readable(&wrong_size));
}

#[test]
fn dirents_outcomes() {
    let p = "/dir".to_string();
    let replies: Result<Vec<Vec<(String, bool)>>, u8> = Ok(vec![
        vec![("a".to_string(), false), ("sub".to_string(), true)],
        vec![],
        vec![("b".to_string(), false)],
    ]);
    let (code, dir) = dirents_listing(&p, replies);
    assert_eq!(code, 0);
    assert_eq!(dir.path, "/dir");
    assert_eq!(dir.file_type, FileType::Directory);
    let got: Vec<(String, FileType)> = dir.entries.iter().map(|e| (e.name.clone(), e.file_type)).collect();
    assert_eq!(
        got,
        vec![
            ("a".to_string(), FileType::Regular),
            ("sub".to_string(), FileType::Directory),
            ("b".to_string(), FileType::Regular)
        ]
    );
    let (code, dir) = dirents_listing::<u8>(&p, Err(0));
    assert_eq!(code, -1);
    assert_eq!(dir.path, "");
    assert_eq!(dir.file_type, FileType::Regular);
    assert!(dir.entries.is_empty());
}

#[test]
fn sending_stops_after_first_failed_write() {
    let mut replies: Vec<Result<PostResult, u8>> = Vec::new();
    assert_eq!(next_write_send(3, &replies), Some(0));
    replies.push(Ok(ok("4")));
    assert_eq!(next_write_send(3, &replies), Some(1));
    replies.push(Ok(failed("1")));
    assert_eq!(next_write_send(3, &replies), None);
    let transport: Vec<Result<PostResult, u8>> = vec![Err(0)];
    assert_eq!(next_write_send(3, &transport), None);
    let done: Vec<Result<PostResult, u8>> = vec![Ok(ok("1")), Ok(ok("2"))];
    assert_eq!(next_write_send(2, &done), None);
    assert_eq!(next_write_send::<u8>(0, &vec![]), None);
}

#[test]
fn sending_stops_after_first_failed_read() {
    let mut replies: Vec<Result<ReadReply, u8>> = Vec::new();
    assert_eq!(next_read_send(2, &replies), Some(0));
    replies.push(read_ok(1, vec![(0, "a")]));
    assert_eq!(next_read_send(2, &replies), Some(1));
    replies.push(read_ok(1, vec![(1, "b")]));
    assert_eq!(next_read_send(2, &replies), None);
    let failing = vec![Ok(ReadReply { err: true, result: None })];
    assert_eq!(next_read_send::<u8>(2, &failing), None);
    let transport: Vec<Result<ReadReply, u8>> = vec![Err(2)];
    assert_eq!(next_read_send(2, &transport), None);
}

#[test]
fn dirents_from_raw_replies() {
    let p = "/dir".to_string();
    let replies: Result<Vec<PostResult>, u8> =
        Ok(vec![ok("[[\"a\",false],[\"sub\",true]]"), ok("[]"), ok("[[\"b\",false]]")]);
    let (code, dir) = forward_get_dirents(&p, replies);
    assert_eq!(code, 0);
    assert_eq!(dir.path, "/dir");
    assert_eq!(dir.file_type, FileType::Directory);
    let got: Vec<(String, FileType)> = dir.entries.iter().map(|e| (e.name.clone(), e.file_type)).collect();
    assert_eq!(
        got,
        vec![
            ("a".to_string(), FileType::Regular),
            ("sub".to_string(), FileType::Directory),
            ("b".to_string(), FileType::Regular)
        ]
    );
    let (code, dir) = forward_get_dirents::<u8>(&p, Err(0));
    assert_eq!((code, dir.path.as_str(), dir.entries.len()), (-1, "", 0));
    let bad: Result<Vec<PostResult>, u8> = Ok(vec![ok("[]"), ok("not json")]);
    assert!(try_forward_get_dirents(&p, bad).is_none());
    let good: Result<Vec<PostResult>, u8> = Ok(vec![ok("[[\"x\",true]]")]);
    let (code, dir) = try_forward_get_dirents(&p, good).unwrap();
    assert_eq!(code, 0);
    assert_eq!(dir.entries.len(), 1);
    assert_eq!(dir.entries[0].file_type, FileType::Directory);
    assert!(try_forward_get_dirents::<u8>(&p, Err(1)).is_some());
}
