//! The routing decisions of the streaming HTTP surface: which requests
//! stream the walk, which are refused, and the fixed bodies of the refusals.
//! The network itself stays outside the library; callers hand in the
//! request's method and path as bytes and act on the decision.

use vstd::prelude::*;
use crate::codec::{enc_change_line, encode_change_line};
use crate::record::{Change, RepoError};

verus! {

/// What the server does with one request.
#[derive(Debug, Clone, Copy, PartialEq, Eq, Structural)]
pub enum RouteDecision {
    /// A `GET` of the changes path: stream the walk as chunked lines.
    StreamChanges,
    /// Any other path: not found, with the plaintext hint as the body.
    NotFound,
    /// The changes path with a method other than `GET`.
    MethodNotAllowed,
}

/// The one served path, `/_changes`.
pub open spec fn changes_path() -> Seq<u8> {
    seq![47u8, 95, 99, 104, 97, 110, 103, 101, 115]
}

pub fn changes_path_bytes() -> (r: Vec<u8>)
    ensures
        r@ == changes_path(),
{
    let mut v: Vec<u8> = Vec::new();
    v.push(47);
    v.push(95);
    v.push(99);
    v.push(104);
    v.push(97);
    v.push(110);
    v.push(103);
    v.push(101);
    v.push(115);
    proof { assert(v@ =~= changes_path()); }
    v
}

/// The byte name of the one accepted method.
pub open spec fn get_method() -> Seq<u8> {
    seq![71u8, 69, 84]
}

pub fn get_method_bytes() -> (r: Vec<u8>)
    ensures
        r@ == get_method(),
{
    let mut v: Vec<u8> = Vec::new();
    v.push(71);
    v.push(69);
    v.push(84);
    proof { assert(v@ =~= get_method()); }
    v
}

/// The plaintext hint served with a refusal.
pub open spec fn hint_body() -> Seq<u8> {
    seq![84u8, 114, 121, 32, 71, 69, 84, 84, 73, 78, 71, 32, 32, 47, 95, 99, 104, 97, 110, 103, 101, 115, 33]
}

pub fn hint_body_bytes() -> (r: Vec<u8>)
    ensures
        r@ == hint_body(),
{
    let mut v: Vec<u8> = Vec::new();
    v.push(84);
    v.push(114);
    v.push(121);
    v.push(32);
    v.push(71);
    v.push(69);
    v.push(84);
    v.push(84);
    v.push(73);
    v.push(78);
    v.push(71);
    v.push(32);
    v.push(32);
    v.push(47);
    v.push(95);
    v.push(99);
    v.push(104);
    v.push(97);
    v.push(110);
    v.push(103);
    v.push(101);
    v.push(115);
    v.push(33);
    proof { assert(v@ =~= hint_body()); }
    v
}

/// Route one request: any path but the changes path is not found, whatever
/// the method; the changes path streams on `GET` and is refused with
/// method-not-allowed on anything else.
pub fn route(method: &[u8], path: &[u8]) -> (r: RouteDecision)
    ensures
        path@ != changes_path() ==> r == RouteDecision::NotFound,
        path@ == changes_path() && method@ == get_method() ==> r == RouteDecision::StreamChanges,
        path@ == changes_path() && method@ != get_method() ==> r == RouteDecision::MethodNotAllowed,
{
    let cp = changes_path_bytes();
    if !crate::support::bytes_eq(path, cp.as_slice()) {
        return RouteDecision::NotFound;
    }
    let gm = get_method_bytes();
    if !crate::support::bytes_eq(method, gm.as_slice()) {
        return RouteDecision::MethodNotAllowed;
    }
    RouteDecision::StreamChanges
}

/// What the streaming worker does with one step of the walk.
#[derive(Debug, PartialEq, Eq)]
pub enum WorkerStep {
    /// An event came out: push this wire line into the channel.
    Emit(Vec<u8>),
    /// The history is exhausted: close the channel, ending the body cleanly.
    Finish,
    /// The storage engine failed: abort the walk; the streamed body simply
    /// ends and nothing further is written.
    Abort,
}

/// The worker's decision for one step of the walk: the wire line of an
/// event, a clean finish at the end of the history, or an abort on a
/// storage failure. The caller's loop performs the send, and stops the walk
/// the moment a send fails, for that means the consumer is gone.
pub fn worker_step(item: Option<Result<Change, RepoError>>) -> (r: WorkerStep)
    ensures
        (match item {
            Some(Ok(c)) => r matches WorkerStep::Emit(line) && line@ == enc_change_line(c@),
            Some(Err(e)) => r is Abort,
            None => r is Finish,
        }),
{
    match item {
        Some(Ok(c)) => WorkerStep::Emit(encode_change_line(&c)),
        Some(Err(_)) => WorkerStep::Abort,
        None => WorkerStep::Finish,
    }
}

} // verus!
