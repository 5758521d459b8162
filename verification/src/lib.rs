//! Request planning and reply interpretation for the client side of a
//! distributed file system: which servers a file operation must reach, what
//! each of them is asked, and what the operation returns once they answer.
//!
//! The network itself, the distributor that maps paths and chunks to servers,
//! and the process-wide client context live outside this crate; they hand the
//! functions here plain values (server indices, the server replies) and take
//! plain values back.

pub mod config;
pub mod arith;
pub mod message;
pub mod numparse;
pub mod grouping;
pub mod plan;
pub mod requests;
pub mod forward;
pub mod gather;
pub mod laws;
pub mod outcome_laws;
