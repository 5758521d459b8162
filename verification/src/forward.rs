use vstd::prelude::*;
use crate::message::{PostResult, ForwardError};
use crate::numparse::{spec_parse_i32, spec_parse_i64, parse_i32, parse_i64};

verus! {

/// No reply before index `n` reports a failure.
pub open spec fn no_failure(rs: Seq<PostResult>, n: int) -> bool {
    forall|j: int| 0 <= j < n ==> !(#[trigger] rs[j]).err
}

/// Reply `i` is the first that reports a failure.
pub open spec fn first_failure(rs: Seq<PostResult>, i: int) -> bool {
    &&& 0 <= i < rs.len()
    &&& rs[i].err
    &&& no_failure(rs, i)
}

/// Index of the first reply that reports a failure, if any.
fn find_failure(rs: &Vec<PostResult>) -> (i: Option<usize>)
    ensures
        i is None ==> no_failure(rs@, rs@.len() as int),
        i matches Some(i) ==> first_failure(rs@, i as int),
{
    let mut i: usize = 0;
    while i < rs.len()
        invariant
            i <= rs@.len(),
            no_failure(rs@, i as int),
        decreases rs@.len() - i,
    {
        if rs[i].err {
            return Some(i);
        }
        i = i + 1;
    }
    None
}

/// The stat record of a path from its metadata server's reply: the
/// transport's error passes through, a failed lookup is `NotFound`, and
/// otherwise the reply's payload is the record.
pub fn forward_stat<E>(reply: Result<PostResult, E>) -> (r: Result<String, ForwardError<E>>)
    ensures
        match reply {
            Err(e) => r == Err::<String, ForwardError<E>>(ForwardError::Post(e)),
            Ok(res) => if res.err {
                r matches Err(ForwardError::NotFound)
            } else {
                r matches Ok(d) && d@ == res.data@
            },
        },
{
    match reply {
        Err(e) => Err(ForwardError::Post(e)),
        Ok(res) => {
            if res.err {
                Err(ForwardError::NotFound)
            } else {
                Ok(res.data)
            }
        },
    }
}

/// The outcome of a create from the metadata server's reply: the transport's
/// error passes through; a failed create gives the error code in the reply,
/// a successful one 0.
pub fn forward_create<E>(reply: Result<PostResult, E>) -> (r: Result<i32, E>)
    requires
        reply matches Ok(res) ==> (res.err ==> spec_parse_i32(res.data@) is Some),
    ensures
        match reply {
            Err(e) => r == Err::<i32, E>(e),
            Ok(res) => r == Ok::<i32, E>(if res.err { spec_parse_i32(res.data@).unwrap() } else { 0 }),
        },
{
    match reply {
        Err(e) => Err(e),
        Ok(res) => {
            if res.err {
                Ok(parse_i32(res.data.as_str()).unwrap())
            } else {
                Ok(0)
            }
        },
    }
}

/// The outcome of a remove from the servers' replies: the transport's error
/// passes through. Removing the metadata entry alone succeeds with 0 whatever
/// the server answered; otherwise the error code of the first server that
/// failed, or 0 where none failed.
pub fn forward_remove<E>(remove_metadentry_only: bool, replies: Result<Vec<PostResult>, E>) -> (r: Result<i32, E>)
    requires
        !remove_metadentry_only && replies is Ok ==> forall|i: int|
            first_failure(replies->Ok_0@, i) ==> spec_parse_i32(#[trigger] replies->Ok_0@[i].data@) is Some,
    ensures
        match replies {
            Err(e) => r == Err::<i32, E>(e),
            Ok(v) => {
                &&& remove_metadentry_only ==> r == Ok::<i32, E>(0)
                &&& !remove_metadentry_only && no_failure(v@, v@.len() as int) ==> r == Ok::<i32, E>(0)
                &&& forall|i: int| !remove_metadentry_only && first_failure(v@, i) ==> r == Ok::<i32, E>(spec_parse_i32(#[trigger] v@[i].data@).unwrap())
            },
        },
{
    match replies {
        Err(e) => Err(e),
        Ok(v) => {
            if remove_metadentry_only {
                return Ok(0);
            }
            match find_failure(&v) {
                Some(i) => Ok(parse_i32(v[i].data.as_str()).unwrap()),
                None => Ok(0),
            }
        },
    }
}

/// The size recorded for a path, from its metadata server's reply: `(-1, 0)`
/// when the transport failed, `(code, 0)` when the server failed with `code`,
/// else `(0, size)`.
pub fn forward_get_metadentry_size<E>(reply: Result<PostResult, E>) -> (r: (i32, i64))
    requires
        reply matches Ok(res) ==> if res.err {
            spec_parse_i32(res.data@) is Some
        } else {
            spec_parse_i64(res.data@) is Some
        },
    ensures
        match reply {
            Err(_) => r == (-1i32, 0i64),
            Ok(res) => if res.err {
                r == (spec_parse_i32(res.data@).unwrap(), 0i64)
            } else {
                r == (0i32, spec_parse_i64(res.data@).unwrap())
            },
        },
{
    match reply {
        Err(_) => (-1, 0),
        Ok(res) => {
            if res.err {
                (parse_i32(res.data.as_str()).unwrap(), 0)
            } else {
                (0, parse_i64(res.data.as_str()).unwrap())
            }
        },
    }
}

/// The outcome of lowering a recorded size: -1 when the transport failed,
/// the server's error code when it failed, else 0.
pub fn forward_decr_size<E>(reply: Result<PostResult, E>) -> (r: i32)
    requires
        reply matches Ok(res) ==> (res.err ==> spec_parse_i32(res.data@) is Some),
    ensures
        match reply {
            Err(_) => r == -1,
            Ok(res) => r == if res.err { spec_parse_i32(res.data@).unwrap() } else { 0 },
        },
{
    match reply {
        Err(_) => -1,
        Ok(res) => {
            if res.err {
                parse_i32(res.data.as_str()).unwrap()
            } else {
                0
            }
        },
    }
}

/// The outcome of a truncation: -1 when it would grow the file (nothing is
/// sent then) or the transport failed, 5 when a server failed, else 0.
pub fn forward_truncate<E>(old_size: i64, new_size: i64, replies: Result<Vec<PostResult>, E>) -> (r: i32)
    ensures
        old_size < new_size ==> r == -1,
        old_size >= new_size ==> match replies {
            Err(_) => r == -1,
            Ok(v) => r == if no_failure(v@, v@.len() as int) { 0i32 } else { 5i32 },
        },
{
    if old_size < new_size {
        return -1;
    }
    match replies {
        Err(_) => -1,
        Ok(v) => {
            match find_failure(&v) {
                Some(_) => 5,
                None => 0,
            }
        },
    }
}

/// Reports libc's `EBUSY` ("device or resource busy"). The contract claims
/// only that the code is not zero, as libc defines it on every target; its
/// value differs between targets (positive on most, negative on some) and is
/// left unsaid.
#[verifier::external_body]
fn ebusy() -> (code: i32)
    ensures
        code != 0,
{
    libc::EBUSY
}

/// The outcome of recording a write in the metadata, from the server's
/// reply: `(busy_code, 0)` when the transport failed; else the server's
/// error code (0 where it did not fail) and the size in the reply.
pub fn update_metadentry_outcome<E>(reply: Result<PostResult, E>, busy_code: i32) -> (r: (i32, i64))
    requires
        reply matches Ok(res) ==> spec_parse_i64(res.data@) is Some && (res.err ==> spec_parse_i32(res.data@) is Some),
    ensures
        match reply {
            Err(_) => r == (busy_code, 0i64),
            Ok(res) => r == (
                if res.err { spec_parse_i32(res.data@).unwrap() } else { 0i32 },
                spec_parse_i64(res.data@).unwrap(),
            ),
        },
{
    match reply {
        Err(_) => (busy_code, 0),
        Ok(res) => {
            let code = if res.err { parse_i32(res.data.as_str()).unwrap() } else { 0 };
            (code, parse_i64(res.data.as_str()).unwrap())
        },
    }
}

/// `update_metadentry_outcome` with libc's `EBUSY` as the code for a failed
/// transport.
pub fn forward_update_metadentry_size<E>(reply: Result<PostResult, E>) -> (r: (i32, i64))
    requires
        reply matches Ok(res) ==> spec_parse_i64(res.data@) is Some && (res.err ==> spec_parse_i32(res.data@) is Some),
    ensures
        match reply {
            Err(_) => r.0 != 0 && r.1 == 0,
            Ok(res) => r == (
                if res.err { spec_parse_i32(res.data@).unwrap() } else { 0i32 },
                spec_parse_i64(res.data@).unwrap(),
            ),
        },
{
    let busy = ebusy();
    update_metadentry_outcome(reply, busy)
}

/// Whether the configuration in the local server's reply is to be taken:
/// only when the transport and the server both succeeded.
pub fn forward_get_fs_config<E>(reply: &Result<PostResult, E>) -> (take: bool)
    ensures
        take == (reply matches Ok(res) && !res.err),
{
    match reply {
        Ok(res) => !res.err,
        Err(_) => false,
    }
}

} // verus!
