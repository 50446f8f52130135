//! What the library takes on trust from the crates it calls.

use crate::wire::json_string_of;
use vstd::prelude::*;

verus! {

/// A JSON value, carried through the library as it is: call arguments and
/// call results are opaque to the multiplexing logic.
#[verifier::external_type_specification]
#[verifier::external_body]
pub struct ExValue(serde_json::Value);

/// The producing half of a single-use reply slot.
#[verifier::external_type_specification]
#[verifier::external_body]
#[verifier::reject_recursive_types(T)]
pub struct ExOneshotSender<T>(tokio::sync::oneshot::Sender<T>);

/// The consuming half of a single-use reply slot, awaited by the caller.
#[verifier::external_type_specification]
#[verifier::external_body]
#[verifier::reject_recursive_types(T)]
pub struct ExOneshotReceiver<T>(tokio::sync::oneshot::Receiver<T>);

/// The failure a caller observes when its slot is dropped unfilled. It is
/// declared because the receiving half's `Future` impl names it.
#[verifier::external_type_specification]
#[verifier::external_body]
pub struct ExRecvError(tokio::sync::oneshot::error::RecvError);

/// The outbound queue of one connection; a writer task drains it to the socket.
#[verifier::external_type_specification]
#[verifier::external_body]
#[verifier::reject_recursive_types(T)]
pub struct ExUnboundedSender<T>(tokio::sync::mpsc::UnboundedSender<T>);

/// Relies on `serde_json::to_string` on a `str`: the JSON string literal of
/// the characters, quoted, with quotes, backslashes and control characters
/// escaped as its `ESCAPE` table and `write_char_escape` do; writing into
/// memory cannot fail.
#[verifier::external_body]
pub(crate) fn json_string(s: &str) -> (r: String)
    ensures
        r@ == json_string_of(s@),
{
    serde_json::to_string(s).unwrap()
}

/// What `Display` of `serde_json::Value` writes: the value as compact JSON
/// text, which depends on the value alone (objects are kept in key order).
pub uninterp spec fn json_text_of(v: serde_json::Value) -> Seq<char>;

/// The receiving half that was made together with the sending half `slot`.
pub uninterp spec fn receiver_of(
    slot: tokio::sync::oneshot::Sender<serde_json::Value>,
) -> tokio::sync::oneshot::Receiver<serde_json::Value>;

/// Relies on `Display` of `serde_json::Value`: the value as compact JSON text.
#[verifier::external_body]
pub(crate) fn json_text(v: &serde_json::Value) -> (r: String)
    ensures
        r@ == json_text_of(*v),
{
    v.to_string()
}

/// Relies on `tokio::sync::oneshot::channel`: a fresh pair of halves of one
/// single-use slot, which share one inner cell.
#[verifier::external_body]
pub(crate) fn reply_channel() -> (r: (
    tokio::sync::oneshot::Sender<serde_json::Value>,
    tokio::sync::oneshot::Receiver<serde_json::Value>,
))
    ensures
        r.1 == receiver_of(r.0),
{
    tokio::sync::oneshot::channel()
}

/// Relies on `tokio::sync::oneshot::Sender::send`: fills the slot, which
/// fails only where the receiving half has already been dropped.
#[verifier::external_body]
pub(crate) fn fulfil(slot: tokio::sync::oneshot::Sender<serde_json::Value>, v: serde_json::Value) -> (r: bool) {
    slot.send(v).is_ok()
}

/// Relies on `tokio::sync::mpsc::UnboundedSender::send`: queues one frame
/// without waiting, which fails only where the receiving half is closed.
#[verifier::external_body]
pub(crate) fn enqueue(out: &tokio::sync::mpsc::UnboundedSender<String>, frame: String) -> (r: bool) {
    out.send(frame).is_ok()
}

} // verus!
