//! Core of a peer-to-peer group chat: signed wire frames, the topic ticket
//! codec, the membership registry, and the decision logic of the two driver
//! loops (input and subscribe).
//!
//! Network transport, the blob store, and all I/O live outside this crate;
//! the functions here compute over plain values and state exactly what they
//! return.

pub mod crypto;
pub mod input;
pub mod members;
pub mod structs;
pub mod subscribe;
pub mod ticket;
pub mod wire;

use vstd::prelude::*;

verus! {

/// Largest payload accepted for an inline file transfer, in bytes (8 MiB).
pub const MAX_FILESIZE: u64 = 8 * 1024 * 1024;

/// Hands its argument back unchanged, so a caller can log what it passed
/// through an instrumented call.
pub fn my_func(x: i32) -> (r: i32)
    ensures
        r == x,
{
    x
}

} // verus!
