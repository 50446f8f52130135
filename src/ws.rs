//! The registry of live connections and the matching of replies to calls.

use crate::outside::{enqueue, fulfil, json_text_of, receiver_of, reply_channel};
use crate::wire::{
    encode_open, open_frame, request_frame, rpc_path, rpc_path_of, Message, MessageReply,
};
use std::collections::HashMap;
use tokio::sync::mpsc::UnboundedSender;
use tokio::sync::oneshot;
use vstd::prelude::*;

verus! {

broadcast use vstd::std_specs::hash::group_hash_axioms;

/// How many call numbers one connection can issue: every number of a `u32`.
pub const CALL_NUMBERS: u64 = 0x1_0000_0000;

/// What the library knows of one connection: the number its next call gets,
/// the reply slot of each call still outstanding, by call number, and the
/// frames queued to it so far, oldest first.
pub struct PeerState {
    pub next: nat,
    pub pending: Map<u32, oneshot::Sender<serde_json::Value>>,
    pub sent: Seq<Seq<char>>,
}

/// The frame that greets the connection `addr`:
/// `{"kind":"open","body":"/rpc/<addr>"}`.
pub open spec fn announcement_frame(addr: nat) -> Seq<char> {
    open_frame(seq!['"'] + rpc_path_of(addr) + seq!['"'])
}

/// The state of the connection `addr` once registered: it has issued no call,
/// and its announcement is the one frame queued to it.
pub open spec fn fresh_peer(addr: nat) -> PeerState {
    PeerState { next: 0, pending: Map::empty(), sent: seq![announcement_frame(addr)] }
}

/// A connection is consistent when every outstanding call number was issued
/// before its next one, and the numbers issued fit in a `u32`.
pub open spec fn peer_wf(p: PeerState) -> bool {
    &&& p.next <= CALL_NUMBERS
    &&& forall|n: u32| #[trigger] p.pending.contains_key(n) ==> (n as nat) < p.next
}

/// Every connection of the registry is consistent.
pub open spec fn registry_wf(m: Map<u64, PeerState>) -> bool {
    forall|a: u64| #[trigger] m.contains_key(a) ==> peer_wf(m[a])
}

/// `post` is `pre` after the call `n` was issued and its slot recorded:
/// `n` is the number that was next, the counter moved on by one, the slots
/// outstanding before are all kept, and exactly one frame was queued: the
/// request that carries `n`.
pub open spec fn issued(pre: PeerState, post: PeerState, n: u32) -> bool {
    &&& exists|call: Seq<char>| post.sent == pre.sent.push(#[trigger] request_frame(call, n as nat))
    &&& n as nat == pre.next
    &&& post.next == pre.next + 1
    &&& post.pending.dom() == pre.pending.dom().insert(n)
    &&& forall|k: u32| #[trigger] pre.pending.contains_key(k) ==> post.pending[k] == pre.pending[k]
}

/// `post` is `pre` after a call number was spent on a frame that could not
/// be queued: the counter moved on, no slot was left behind, and nothing
/// was queued.
pub open spec fn spent(pre: PeerState, post: PeerState) -> bool {
    &&& post.next == pre.next + 1
    &&& post.pending == pre.pending
    &&& post.sent == pre.sent
}

/// `post` is `pre` after the reply numbered `n` took its slot.
pub open spec fn resolved(pre: PeerState, post: PeerState, n: u32) -> bool {
    &&& pre.pending.contains_key(n)
    &&& post.next == pre.next
    &&& post.pending == pre.pending.remove(n)
    &&& post.sent == pre.sent
}

/// `post` is `pre` after the call `n` with the arguments `call` (as JSON
/// text) was issued and its request frame queued.
pub open spec fn post_of_issue(pre: PeerState, post: PeerState, n: u32, call: Seq<char>) -> bool {
    &&& issued(pre, post, n)
    &&& post.sent == pre.sent.push(request_frame(call, n as nat))
}

/// What `deliver` did with `reply` on the connection `addr`, taking the
/// registry from `pre` to `post` with the outcome `d`.
pub open spec fn delivered(
    pre: Map<u64, PeerState>,
    post: Map<u64, PeerState>,
    addr: u64,
    reply: MessageReply,
    d: Delivery,
) -> bool {
    match d {
        Delivery::PeerNotFound => !pre.contains_key(addr) && post == pre,
        Delivery::UnmatchedReply => {
            &&& pre.contains_key(addr)
            &&& !pre[addr].pending.contains_key(reply.spec_number())
            &&& post == pre
        },
        Delivery::Resolved | Delivery::CallerGone => {
            &&& pre.contains_key(addr)
            &&& pre[addr].pending.contains_key(reply.spec_number())
            &&& post == pre.insert(addr, post[addr])
            &&& resolved(pre[addr], post[addr], reply.spec_number())
        },
    }
}

/// Replacing one connection of a consistent registry by a consistent one
/// keeps the registry consistent.
proof fn lemma_wf_insert(m: Map<u64, PeerState>, a: u64, p: PeerState)
    requires
        registry_wf(m),
        peer_wf(p),
    ensures
        registry_wf(m.insert(a, p)),
{
    assert forall|b: u64| #[trigger] m.insert(a, p).contains_key(b) implies peer_wf(
        m.insert(a, p)[b],
    ) by {
        if b != a {
            assert(m.contains_key(b));
        }
    }
}

/// One live connection: its outbound queue, the number of its next call,
/// the reply slots of its outstanding calls, and the frames that were
/// queued to it.
pub struct Connection {
    write: UnboundedSender<String>,
    number: u64,
    replies: HashMap<u32, oneshot::Sender<serde_json::Value>>,
    sent: Ghost<Seq<Seq<char>>>,
}

impl Connection {
    pub closed spec fn state(&self) -> PeerState {
        PeerState { next: self.number as nat, pending: self.replies@, sent: self.sent@ }
    }
}

/// Why a call could not be issued.
#[derive(Debug, PartialEq, Eq, Structural)]
pub enum CallError {
    /// No connection is registered under the address.
    PeerNotFound,
    /// The connection has issued every call number there is.
    NumbersExhausted,
    /// The frame could not be queued: the connection's writer is gone.
    SendFailed,
}

/// What became of a reply frame.
#[derive(Debug, PartialEq, Eq, Structural)]
pub enum Delivery {
    /// The reply filled the slot of its call.
    Resolved,
    /// The reply took the slot of its call, whose caller had stopped waiting.
    CallerGone,
    /// No call with the reply's number is outstanding: the reply was dropped.
    UnmatchedReply,
    /// No connection is registered under the address.
    PeerNotFound,
}

/// A call that was issued and now waits for its reply.
pub struct PendingCall {
    /// The number that the request carries and its reply must carry.
    pub number: u32,
    /// Filled with the result when the reply arrives; fails when the
    /// connection is torn down first.
    pub reply: oneshot::Receiver<serde_json::Value>,
}

/// The registry of live connections, by address.
pub struct Ws {
    connections: HashMap<u64, Connection>,
}

impl View for Ws {
    type V = Map<u64, PeerState>;

    closed spec fn view(&self) -> Map<u64, PeerState> {
        self.connections@.map_values(|c: Connection| c.state())
    }
}

impl MessageReply {
    /// The call number that the reply carries.
    pub open spec fn spec_number(&self) -> u32 {
        match self {
            MessageReply::Reply { number, .. } => *number,
        }
    }

    /// The result that the reply carries.
    pub open spec fn spec_result(&self) -> serde_json::Value {
        match self {
            MessageReply::Reply { result, .. } => *result,
        }
    }
}

/// The frame that a connection registered under `addr` is greeted with:
/// `{"kind":"open","body":"/rpc/<addr>"}`.
pub fn announcement(addr: u64) -> (r: String)
    ensures
        r@ == announcement_frame(addr as nat),
{
    let path = rpc_path(addr);
    proof {
        crate::wire::lemma_rpc_path_needs_no_escape(addr as nat);
    }
    encode_open(path.as_str())
}

impl Ws {
    pub open spec fn wf(&self) -> bool {
        registry_wf(self@)
    }

    /// An empty registry.
    pub fn new() -> (r: Ws)
        ensures
            r@ == Map::<u64, PeerState>::empty(),
            r.wf(),
    {
        let r = Ws { connections: HashMap::new() };
        assert(r@ =~= Map::<u64, PeerState>::empty());
        r
    }

    /// Registers the connection `addr`, whose frames go out through
    /// `write`, after queueing its announcement there. A connection that
    /// was registered under the same address is dropped, and with it the
    /// slots of its outstanding calls. Where the announcement cannot be
    /// queued, nothing is registered and the result is `false`.
    pub fn open_connection(&mut self, addr: u64, write: UnboundedSender<String>) -> (r: bool)
        requires
            old(self).wf(),
        ensures
            final(self).wf(),
            r ==> final(self)@ == old(self)@.insert(addr, fresh_peer(addr as nat)),
            !r ==> final(self)@ == old(self)@,
    {
        let frame = announcement(addr);
        let ghost first = seq![frame@];
        if !enqueue(&write, frame) {
            return false;
        }
        let conn = Connection {
            write,
            number: 0,
            replies: HashMap::new(),
            sent: Ghost(first),
        };
        self.connections.insert(addr, conn);
        proof {
            assert(conn.state().pending =~= Map::empty());
            assert(self@ =~= old(self)@.insert(addr, fresh_peer(addr as nat)));
        }
        true
    }

    /// Takes the connection `addr` out of the registry, where there is one.
    fn detach(&mut self, addr: u64) -> (r: Option<Connection>)
        requires
            old(self).wf(),
        ensures
            final(self).wf(),
            final(self)@ == old(self)@.remove(addr),
            match r {
                None => !old(self)@.contains_key(addr),
                Some(conn) => old(self)@.contains_key(addr) && old(self)@[addr] == conn.state()
                    && peer_wf(conn.state()),
            },
    {
        let removed = self.connections.remove(&addr);
        proof {
            assert(self@ =~= old(self)@.remove(addr));
            assert forall|b: u64| #[trigger] self@.contains_key(b) implies peer_wf(self@[b]) by {
                assert(old(self)@.contains_key(b));
            }
            if removed is Some {
                assert(old(self).connections@.contains_key(addr));
                assert(old(self)@.contains_key(addr));
            } else {
                assert(!old(self).connections@.contains_key(addr));
            }
        }
        removed
    }

    /// Puts the connection `conn` into the registry under `addr`.
    fn attach(&mut self, addr: u64, conn: Connection)
        requires
            old(self).wf(),
            peer_wf(conn.state()),
        ensures
            final(self).wf(),
            final(self)@ == old(self)@.insert(addr, conn.state()),
    {
        let ghost st = conn.state();
        self.connections.insert(addr, conn);
        proof {
            assert(self@ =~= old(self)@.insert(addr, st));
            lemma_wf_insert(old(self)@, addr, st);
        }
    }

    /// Issues a call to the connection `addr` with the arguments `value`:
    /// takes the connection's next call number, records a reply slot under
    /// it and queues the request frame. The returned receiver is the one
    /// paired with the recorded slot.
    pub fn send(&mut self, addr: u64, value: serde_json::Value) -> (r: Result<
        PendingCall,
        CallError,
    >)
        requires
            old(self).wf(),
        ensures
            final(self).wf(),
            match r {
                Err(CallError::PeerNotFound) => !old(self)@.contains_key(addr) && final(self)@
                    == old(self)@,
                Err(CallError::NumbersExhausted) => old(self)@.contains_key(addr) && old(
                    self,
                )@[addr].next == CALL_NUMBERS && final(self)@ == old(self)@,
                Err(CallError::SendFailed) => {
                    &&& old(self)@.contains_key(addr)
                    &&& old(self)@[addr].next < CALL_NUMBERS
                    &&& final(self)@ == old(self)@.insert(addr, final(self)@[addr])
                    &&& spent(old(self)@[addr], final(self)@[addr])
                },
                Ok(call) => {
                    &&& old(self)@.contains_key(addr)
                    &&& old(self)@[addr].next < CALL_NUMBERS
                    &&& final(self)@ == old(self)@.insert(addr, final(self)@[addr])
                    &&& issued(old(self)@[addr], final(self)@[addr], call.number)
                    &&& final(self)@[addr].sent == old(self)@[addr].sent.push(
                        request_frame(json_text_of(value), call.number as nat),
                    )
                    &&& call.reply == receiver_of(final(self)@[addr].pending[call.number])
                },
            },
    {
        let mut conn = match self.detach(addr) {
            None => {
                return Err(CallError::PeerNotFound);
            },
            Some(conn) => conn,
        };
        if conn.number >= CALL_NUMBERS {
            self.attach(addr, conn);
            assert(self@ =~= old(self)@);
            return Err(CallError::NumbersExhausted);
        }
        let number = conn.number as u32;
        conn.number = conn.number + 1;
        let (slot, reply) = reply_channel();
        let ghost call_text = json_text_of(value);
        let msg = Message::Request { call: value, number };
        let frame = msg.encode();
        let ghost queued = frame@;
        let ghost pre = old(self)@[addr];
        if enqueue(&conn.write, frame) {
            conn.sent = Ghost(conn.sent@.push(queued));
            conn.replies.insert(number, slot);
            proof {
                assert(conn.state().pending.dom() =~= pre.pending.dom().insert(number));
                assert(post_of_issue(pre, conn.state(), number, call_text));
            }
            self.attach(addr, conn);
            Ok(PendingCall { number, reply })
        } else {
            proof {
                let st = conn.state();
                assert forall|n: u32| #[trigger] st.pending.contains_key(n) implies (n as nat)
                    < st.next by {
                    assert(pre.pending.contains_key(n));
                }
            }
            self.attach(addr, conn);
            Err(CallError::SendFailed)
        }
    }

    /// Takes out the slot of the call that `reply` answers on the connection
    /// `addr`, with the result to fill it with. Where no such call is
    /// outstanding, nothing changes and the result is `None`.
    pub fn take_reply(&mut self, addr: u64, reply: MessageReply) -> (r: Option<
        (oneshot::Sender<serde_json::Value>, serde_json::Value),
    >)
        requires
            old(self).wf(),
        ensures
            final(self).wf(),
            match r {
                None => {
                    &&& !old(self)@.contains_key(addr) || !old(self)@[addr].pending.contains_key(
                        reply.spec_number(),
                    )
                    &&& final(self)@ == old(self)@
                },
                Some((slot, result)) => {
                    &&& old(self)@.contains_key(addr)
                    &&& old(self)@[addr].pending.contains_key(reply.spec_number())
                    &&& slot == old(self)@[addr].pending[reply.spec_number()]
                    &&& result == reply.spec_result()
                    &&& final(self)@ == old(self)@.insert(addr, final(self)@[addr])
                    &&& resolved(old(self)@[addr], final(self)@[addr], reply.spec_number())
                },
            },
    {
        let MessageReply::Reply { result, number } = reply;
        let mut conn = match self.detach(addr) {
            None => {
                assert(self@ =~= old(self)@);
                return None;
            },
            Some(conn) => conn,
        };
        let ghost pre = old(self)@[addr];
        let slot = conn.replies.remove(&number);
        match slot {
            None => {
                assert(conn.replies@ =~= pre.pending);
                assert(conn.state() == pre);
                self.attach(addr, conn);
                assert(self@ =~= old(self)@);
                None
            },
            Some(slot) => {
                proof {
                    let st = conn.state();
                    assert forall|n: u32| #[trigger] st.pending.contains_key(n) implies (n as nat)
                        < st.next by {
                        assert(pre.pending.contains_key(n));
                    }
                }
                self.attach(addr, conn);
                Some((slot, result))
            },
        }
    }

    /// Hands a reply frame that arrived on the connection `addr` to the call
    /// with the same number: the slot of that call is taken out and filled
    /// with the reply's result. A reply whose number no outstanding call
    /// holds is dropped, and nothing changes.
    pub fn deliver(&mut self, addr: u64, reply: MessageReply) -> (r: Delivery)
        requires
            old(self).wf(),
        ensures
            final(self).wf(),
            delivered(old(self)@, final(self)@, addr, reply, r),
    {
        if !self.connections.contains_key(&addr) {
            assert(!old(self)@.contains_key(addr));
            return Delivery::PeerNotFound;
        }
        assert(old(self).connections@.contains_key(addr));
        match self.take_reply(addr, reply) {
            None => Delivery::UnmatchedReply,
            Some((slot, result)) => {
                if fulfil(slot, result) {
                    Delivery::Resolved
                } else {
                    Delivery::CallerGone
                }
            },
        }
    }


    /// Tears down the connection `addr`: it leaves the registry, and the
    /// slots of its outstanding calls are dropped unfilled, so that each of
    /// their callers observes a failure. Returns how many calls failed so.
    pub fn close(&mut self, addr: u64) -> (r: usize)
        requires
            old(self).wf(),
        ensures
            final(self).wf(),
            final(self)@ == old(self)@.remove(addr),
            r == (if old(self)@.contains_key(addr) {
                old(self)@[addr].pending.len()
            } else {
                0
            }),
    {
        let removed = self.connections.remove(&addr);
        assert(self@ =~= old(self)@.remove(addr));
        match removed {
            None => 0,
            Some(conn) => conn.replies.len(),
        }
    }


    /// Takes one event of the reader loop of the connection `addr`. A reply
    /// is delivered; a control frame is passed over. A frame that does not
    /// decode, like the end of the stream, tears down this connection alone,
    /// so that its outstanding calls fail while the other connections go
    /// on; the loop then stops.
    pub fn on_inbound(&mut self, addr: u64, event: Inbound) -> (r: Handled)
        requires
            old(self).wf(),
        ensures
            final(self).wf(),
            match event {
                Inbound::Reply(reply) => match r {
                    Handled::Delivered(d) => delivered(old(self)@, final(self)@, addr, reply, d),
                    _ => false,
                },
                Inbound::Control => r == Handled::Skipped && final(self)@ == old(self)@,
                Inbound::Malformed | Inbound::Ended => r == Handled::TornDown && final(self)@
                    == old(self)@.remove(addr),
            },
    {
        match event {
            Inbound::Reply(reply) => Handled::Delivered(self.deliver(addr, reply)),
            Inbound::Control => Handled::Skipped,
            Inbound::Malformed | Inbound::Ended => {
                self.close(addr);
                Handled::TornDown
            },
        }
    }
}

/// What the reader loop did with one event.
#[derive(Debug, PartialEq, Eq, Structural)]
pub enum Handled {
    /// A reply was handed on, with this outcome; the loop reads on.
    Delivered(Delivery),
    /// A control frame was passed over; the loop reads on.
    Skipped,
    /// The connection was torn down; the loop stops.
    TornDown,
}

/// What the reader loop of a connection takes from it next.
pub enum Inbound {
    /// A data frame that decoded as a reply.
    Reply(MessageReply),
    /// A control frame (ping, pong, close): no data for the library.
    Control,
    /// A data frame that did not decode as a reply.
    Malformed,
    /// The end of the stream, or a transport error.
    Ended,
}

/// One thing that can happen to a connection's state: a call is issued, a
/// call number is spent on a frame that could not be queued, or a reply
/// takes its slot.
pub open spec fn peer_step(pre: PeerState, post: PeerState) -> bool {
    ||| exists|n: u32| issued(pre, post, n)
    ||| spent(pre, post)
    ||| exists|n: u32| resolved(pre, post, n)
}

/// The states of one connection over its lifetime, each reached from the
/// one before by a single step.
pub open spec fn is_run(run: Seq<PeerState>) -> bool {
    forall|k: int| 0 <= k < run.len() - 1 ==> peer_step(#[trigger] run[k], run[k + 1])
}

/// The counter of a connection never goes back.
proof fn lemma_next_grows(run: Seq<PeerState>, i: int, j: int)
    requires
        is_run(run),
        0 <= i <= j < run.len(),
    ensures
        run[i].next <= run[j].next,
    decreases j - i,
{
    if i < j {
        lemma_next_grows(run, i, j - 1);
        assert(peer_step(run[j - 1], run[j]));
    }
}

/// Calls issued on one connection get strictly increasing numbers, whatever
/// happened on it in between.
pub proof fn lemma_call_numbers_increase(
    run: Seq<PeerState>,
    i: int,
    j: int,
    first: u32,
    second: u32,
)
    requires
        is_run(run),
        0 <= i < j < run.len() - 1,
        issued(run[i], run[i + 1], first),
        issued(run[j], run[j + 1], second),
    ensures
        first < second,
{
    lemma_next_grows(run, i + 1, j);
}

/// The number a call is issued with is held by no call still outstanding on
/// that connection, and is above all of their numbers.
pub proof fn lemma_issued_number_is_free(pre: PeerState, post: PeerState, n: u32)
    requires
        peer_wf(pre),
        issued(pre, post, n),
    ensures
        !pre.pending.contains_key(n),
        forall|k: u32| #[trigger] pre.pending.contains_key(k) ==> k < n,
{
}

/// A reply takes the slot of its own number and no other: every other
/// outstanding call keeps the very slot it was issued with.
pub proof fn lemma_reply_takes_own_slot(pre: PeerState, post: PeerState, n: u32, other: u32)
    requires
        resolved(pre, post, n),
        pre.pending.contains_key(other),
        other != n,
    ensures
        !post.pending.contains_key(n),
        post.pending.contains_key(other),
        post.pending[other] == pre.pending[other],
{
}

/// Two replies leave a connection in the same state whichever of them
/// arrives first.
pub proof fn lemma_reply_order_irrelevant(
    pre: PeerState,
    mid_a: PeerState,
    post_a: PeerState,
    mid_b: PeerState,
    post_b: PeerState,
    n: u32,
    m: u32,
)
    requires
        resolved(pre, mid_a, n),
        resolved(mid_a, post_a, m),
        resolved(pre, mid_b, m),
        resolved(mid_b, post_b, n),
    ensures
        post_a == post_b,
{
    assert(post_a.pending =~= post_b.pending);
}

/// The slot recorded for call `n` stays as it was until a reply numbered
/// `n` takes it.
proof fn lemma_slot_kept(run: Seq<PeerState>, i: int, j: int, n: u32)
    requires
        is_run(run),
        forall|k: int| 0 <= k < run.len() ==> peer_wf(#[trigger] run[k]),
        0 <= i < j < run.len(),
        run[i].pending.contains_key(n),
        forall|k: int| i <= k < j ==> !resolved(#[trigger] run[k], run[k + 1], n),
    ensures
        run[j].pending.contains_key(n),
        run[j].pending[n] == run[i].pending[n],
    decreases j - i,
{
    lemma_slot_kept_step(run, j - 1, n);
    if i < j - 1 {
        lemma_slot_kept(run, i, j - 1, n);
    }
}

/// One step that is not the reply numbered `n` keeps the slot of `n`.
proof fn lemma_slot_kept_step(run: Seq<PeerState>, k: int, n: u32)
    requires
        is_run(run),
        0 <= k < run.len() - 1,
        peer_wf(run[k]),
        !resolved(run[k], run[k + 1], n),
    ensures
        run[k].pending.contains_key(n) ==> run[k + 1].pending.contains_key(n) && run[k
            + 1].pending[n] == run[k].pending[n],
{
    let pre = run[k];
    let post = run[k + 1];
    assert(peer_step(pre, post));
    if pre.pending.contains_key(n) {
        if exists|m: u32| issued(pre, post, m) {
            let m = choose|m: u32| issued(pre, post, m);
            assert(post.pending.dom().contains(n));
        } else if exists|m: u32| resolved(pre, post, m) {
            let m = choose|m: u32| resolved(pre, post, m);
            assert(m != n);
        }
    }
}

/// Each call gets the result of the reply that carries its own number: the
/// first reply numbered `n` after call `n` was issued takes the very slot
/// recorded for that call, whatever calls and replies came in between.
pub proof fn lemma_reply_reaches_its_call(run: Seq<PeerState>, i: int, j: int, n: u32)
    requires
        is_run(run),
        forall|k: int| 0 <= k < run.len() ==> peer_wf(#[trigger] run[k]),
        0 <= i < j < run.len() - 1,
        issued(run[i], run[i + 1], n),
        resolved(run[j], run[j + 1], n),
        forall|k: int| i < k < j ==> !resolved(#[trigger] run[k], run[k + 1], n),
    ensures
        run[j].pending[n] == run[i + 1].pending[n],
{
    assert(run[i + 1].pending.dom().contains(n));
    if i + 1 < j {
        assert forall|k: int| i + 1 <= k < j implies !resolved(#[trigger] run[k], run[k + 1], n) by {
            assert(i < k);
        }
        lemma_slot_kept(run, i + 1, j, n);
    }
}

/// The request frame of call `n` stands at `index` in `sent`.
pub open spec fn request_at(sent: Seq<Seq<char>>, index: int, n: u32) -> bool {
    exists|call: Seq<char>| sent[index] == request_frame(call, n as nat)
}

/// Calls issued back to back on one connection get the consecutive numbers
/// that follow its counter, and each queues, in that order, the request
/// frame that carries its number, after what was queued before.
pub proof fn lemma_back_to_back_calls(run: Seq<PeerState>, numbers: Seq<u32>)
    requires
        run.len() == numbers.len() + 1,
        forall|i: int|
            0 <= i < numbers.len() ==> issued(#[trigger] run[i], run[i + 1], numbers[i]),
    ensures
        forall|i: int| 0 <= i < numbers.len() ==> numbers[i] as nat == run[0].next + i,
        run.last().next == run[0].next + numbers.len(),
        run.last().sent.len() == run[0].sent.len() + numbers.len(),
        run.last().sent.subrange(0, run[0].sent.len() as int) == run[0].sent,
        forall|i: int|
            0 <= i < numbers.len() ==> #[trigger] request_at(
                run.last().sent,
                run[0].sent.len() + i,
                numbers[i],
            ),
    decreases numbers.len(),
{
    if numbers.len() > 0 {
        let n = numbers.len() - 1;
        let shorter = run.drop_last();
        lemma_back_to_back_calls(shorter, numbers.drop_last());
        let pre = run[n];
        let post = run[n + 1];
        assert(shorter.last() == pre);
        assert(issued(pre, post, numbers[n]));
        let call = choose|call: Seq<char>|
            post.sent == pre.sent.push(#[trigger] request_frame(call, numbers[n] as nat));
        let base = run[0].sent.len();
        assert(post.sent.subrange(0, base as int) =~= run[0].sent) by {
            assert(pre.sent.subrange(0, base as int) == run[0].sent);
        }
        assert forall|i: int| 0 <= i < numbers.len() implies #[trigger] request_at(
            post.sent,
            base + i,
            numbers[i],
        ) by {
            if i < n {
                assert(request_at(pre.sent, base + i, numbers.drop_last()[i]));
                let c = choose|c: Seq<char>|
                    pre.sent[base + i] == request_frame(c, numbers.drop_last()[i] as nat);
                assert(post.sent[base + i] == request_frame(c, numbers[i] as nat));
            } else {
                assert(post.sent[base + i] == request_frame(call, numbers[i] as nat));
            }
        }
        assert forall|i: int| 0 <= i < numbers.len() implies numbers[i] as nat == run[0].next
            + i by {
            if i < n {
                assert(numbers.drop_last()[i] == numbers[i]);
            }
        }
    }
}

/// The result of the reply that carries a call's number goes to that
/// call's own receiver: the slot the reply takes is the one paired with the
/// receiver the call was issued with, whatever calls and replies came in
/// between.
pub proof fn lemma_reply_reaches_its_caller(
    run: Seq<PeerState>,
    i: int,
    j: int,
    n: u32,
    receiver: oneshot::Receiver<serde_json::Value>,
    slot: oneshot::Sender<serde_json::Value>,
)
    requires
        is_run(run),
        forall|k: int| 0 <= k < run.len() ==> peer_wf(#[trigger] run[k]),
        0 <= i < j < run.len() - 1,
        issued(run[i], run[i + 1], n),
        receiver == receiver_of(run[i + 1].pending[n]),
        forall|k: int| i < k < j ==> !resolved(#[trigger] run[k], run[k + 1], n),
        resolved(run[j], run[j + 1], n),
        slot == run[j].pending[n],
    ensures
        receiver_of(slot) == receiver,
{
    lemma_reply_reaches_its_call(run, i, j, n);
}

} // verus!
