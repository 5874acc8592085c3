//! The state of a bounded multi-producer, single-consumer channel.
//!
//! `ChannelInner` is what a sender and a receiver share behind a lock: the
//! queue of values in flight, the bound given at creation, the number of
//! live senders and whether the receiver is gone. Every operation of the
//! channel is one step of this state, and each step's contract is the
//! matching transition of the abstract `ChannelState`.

use std::collections::VecDeque;
use vstd::prelude::*;
use vstd::string::*;

verus! {

/// Why `try_send` refused a value; the value is handed back.
pub enum TrySendError<T> {
    /// The channel holds as many values as its capacity allows.
    Full(T),
    /// The receiver is gone; nothing will ever be received.
    Disconnected(T),
}

/// Why `try_recv` returned no value.
#[derive(PartialEq, Eq, Structural, Debug, Clone, Copy)]
pub enum TryRecvError {
    /// Nothing is queued, but a sender may still send.
    Empty,
    /// Nothing is queued and no sender is left.
    Disconnected,
}

/// The receiver is gone; the value is handed back.
pub struct SendError<T>(pub T);

/// The abstract state of a channel.
pub struct ChannelState<T> {
    /// Values sent and not yet received, oldest first.
    pub queued: Seq<T>,
    /// The bound that `try_send` respects.
    pub capacity: nat,
    /// The number of live senders.
    pub senders: nat,
    /// Whether the receiver has been dropped.
    pub receiver_dropped: bool,
}

impl<T> ChannelState<T> {
    /// The state of a fresh channel: one sender, a live receiver, nothing queued.
    pub open spec fn fresh(capacity: nat) -> Self {
        ChannelState { queued: Seq::empty(), capacity, senders: 1, receiver_dropped: false }
    }

    /// The state after `val` joins the back of the queue.
    pub open spec fn pushed(self, val: T) -> Self {
        ChannelState { queued: self.queued.push(val), ..self }
    }

    /// What `try_send` does: refuse when the receiver is gone, refuse when
    /// the queue is at capacity, and queue the value otherwise.
    pub open spec fn try_send_outcome(self, val: T) -> (Self, Result<(), TrySendError<T>>) {
        if self.receiver_dropped {
            (self, Err(TrySendError::Disconnected(val)))
        } else if self.queued.len() >= self.capacity {
            (self, Err(TrySendError::Full(val)))
        } else {
            (self.pushed(val), Ok(()))
        }
    }

    /// What the blocking `send` does: refuse only when the receiver is
    /// gone; the capacity is not consulted.
    pub open spec fn send_outcome(self, val: T) -> (Self, Result<(), SendError<T>>) {
        if self.receiver_dropped {
            (self, Err(SendError(val)))
        } else {
            (self.pushed(val), Ok(()))
        }
    }

    /// The state with one more live sender.
    pub open spec fn sender_added(self) -> Self {
        ChannelState { senders: self.senders + 1, ..self }
    }

    /// The state with one live sender less.
    pub open spec fn sender_removed(self) -> Self {
        ChannelState { senders: (self.senders - 1) as nat, ..self }
    }

    /// The state once the receiver is gone.
    pub open spec fn receiver_closed(self) -> Self {
        ChannelState { receiver_dropped: true, ..self }
    }

    /// What `try_recv` does: take the oldest value, or report why there is none.
    pub open spec fn try_recv_outcome(self) -> (Self, Result<T, TryRecvError>) {
        if self.queued.len() > 0 {
            (ChannelState { queued: self.queued.drop_first(), ..self }, Ok(self.queued[0]))
        } else if self.senders == 0 {
            (self, Err(TryRecvError::Disconnected))
        } else {
            (self, Err(TryRecvError::Empty))
        }
    }
}

/// The state after each value of `vs`, in order, went through the blocking `send`.
pub open spec fn send_all<T>(s: ChannelState<T>, vs: Seq<T>) -> ChannelState<T>
    decreases vs.len(),
{
    if vs.len() == 0 {
        s
    } else {
        send_all(s, vs.drop_last()).send_outcome(vs.last()).0
    }
}

/// The values that `n` calls of `try_recv` hand out, stopping at the first error.
pub open spec fn drain<T>(s: ChannelState<T>, n: nat) -> Seq<T>
    decreases n,
{
    if n == 0 {
        Seq::empty()
    } else {
        match s.try_recv_outcome() {
            (next, Ok(v)) => seq![v] + drain(next, (n - 1) as nat),
            (_, Err(_)) => Seq::empty(),
        }
    }
}

proof fn lemma_send_all<T>(s: ChannelState<T>, vs: Seq<T>)
    requires
        !s.receiver_dropped,
    ensures
        send_all(s, vs) == (ChannelState { queued: s.queued + vs, ..s }),
    decreases vs.len(),
{
    if vs.len() > 0 {
        lemma_send_all(s, vs.drop_last());
        assert(s.queued + vs.drop_last() + seq![vs.last()] =~= s.queued + vs);
        assert((s.queued + vs.drop_last()).push(vs.last()) =~= s.queued + vs);
    } else {
        assert(s.queued + vs =~= s.queued);
    }
}

proof fn lemma_drain_all<T>(s: ChannelState<T>)
    ensures
        drain(s, s.queued.len()) == s.queued,
    decreases s.queued.len(),
{
    if s.queued.len() > 0 {
        let next = s.try_recv_outcome().0;
        lemma_drain_all(next);
        assert(seq![s.queued[0]] + s.queued.drop_first() =~= s.queued);
    } else {
        assert(s.queued =~= Seq::<T>::empty());
    }
}

/// First in, first out: while the receiver lives, draining a channel after
/// sending `vs` hands out what was already queued and then `vs`, in the
/// order in which they were sent, with nothing lost or repeated.
pub proof fn law_fifo<T>(s: ChannelState<T>, vs: Seq<T>)
    requires
        !s.receiver_dropped,
    ensures
        drain(send_all(s, vs), s.queued.len() + vs.len()) == s.queued + vs,
{
    lemma_send_all(s, vs);
    lemma_drain_all(send_all(s, vs));
}

/// A value sent into an empty channel is the next value received.
pub proof fn law_send_then_recv<T>(s: ChannelState<T>, v: T)
    requires
        !s.receiver_dropped,
        s.queued.len() == 0,
    ensures
        s.send_outcome(v).0.try_recv_outcome().1 == Ok::<T, TryRecvError>(v),
        s.send_outcome(v).0.try_recv_outcome().0 == s,
{
    assert(s.send_outcome(v).0.try_recv_outcome().0.queued =~= s.queued);
}

/// Below capacity and with the receiver alive, `try_send` succeeds and does
/// exactly what the blocking `send` does; otherwise it changes nothing.
pub proof fn law_try_send_below_capacity<T>(s: ChannelState<T>, v: T)
    ensures
        s.try_send_outcome(v).1 is Ok <==> (!s.receiver_dropped && s.queued.len() < s.capacity),
        s.try_send_outcome(v).1 is Ok ==> s.try_send_outcome(v).0 == s.send_outcome(v).0,
        s.try_send_outcome(v).1 is Err ==> s.try_send_outcome(v).0 == s,
{
}

/// `try_send` never fills a channel past its capacity.
pub proof fn law_try_send_keeps_bound<T>(s: ChannelState<T>, v: T)
    requires
        s.queued.len() <= s.capacity,
    ensures
        s.try_send_outcome(v).0.queued.len() <= s.capacity,
{
}

/// Once the receiver is gone, every send is refused as disconnected, the
/// value comes back, and the channel is left as it was.
pub proof fn law_closed_refuses<T>(s: ChannelState<T>, v: T)
    requires
        s.receiver_dropped,
    ensures
        s.try_send_outcome(v) == (s, Err::<(), TrySendError<T>>(TrySendError::Disconnected(v))),
        s.send_outcome(v) == (s, Err::<(), SendError<T>>(SendError(v))),
{
}

/// `try_recv` reports `Disconnected` exactly when nothing is queued and no
/// sender is left, and `Empty` exactly when nothing is queued and a sender
/// lives.
pub proof fn law_recv_errors<T>(s: ChannelState<T>)
    ensures
        s.try_recv_outcome().1 == Err::<T, TryRecvError>(TryRecvError::Disconnected)
            <==> (s.queued.len() == 0 && s.senders == 0),
        s.try_recv_outcome().1 == Err::<T, TryRecvError>(TryRecvError::Empty)
            <==> (s.queued.len() == 0 && s.senders > 0),
{
}

/// Cloning a sender and dropping the clone leaves the channel as it was.
pub proof fn law_clone_then_drop<T>(s: ChannelState<T>)
    ensures
        s.sender_added().sender_removed() == s,
{
}

/// A fresh channel holds the capacity it was made with, queues nothing, has
/// one live sender and a live receiver.
pub proof fn law_fresh_channel<T>(capacity: nat)
    ensures
        ChannelState::<T>::fresh(capacity).capacity == capacity,
        ChannelState::<T>::fresh(capacity).queued.len() == 0,
        ChannelState::<T>::fresh(capacity).senders == 1,
        !ChannelState::<T>::fresh(capacity).receiver_dropped,
{
}

/// A fresh channel accepts every `try_send` until `capacity` values are
/// queued: from it, `k < capacity` accepted sends leave room for one more.
pub proof fn law_fresh_accepts_up_to_capacity<T>(capacity: nat, vs: Seq<T>, v: T)
    requires
        vs.len() < capacity,
    ensures
        send_all(ChannelState::<T>::fresh(capacity), vs).try_send_outcome(v).1 is Ok,
{
    lemma_send_all(ChannelState::<T>::fresh(capacity), vs);
}

/// What `try_send` answers and leaves behind, over every state and value:
/// `Disconnected` exactly when the receiver is gone, `Full` exactly when the
/// receiver lives and the queue is at capacity, `Ok` otherwise; a refused
/// value comes back unchanged and leaves the channel as it was, and an
/// accepted value joins the back of the queue and changes nothing else.
pub proof fn law_try_send_result<T>(s: ChannelState<T>, v: T)
    ensures
        ({
            let (n, r) = s.try_send_outcome(v);
            &&& (r is Err && r->Err_0 is Disconnected) <==> s.receiver_dropped
            &&& (r is Err && r->Err_0 is Full) <==> (!s.receiver_dropped && s.queued.len()
                >= s.capacity)
            &&& r is Ok <==> (!s.receiver_dropped && s.queued.len() < s.capacity)
            &&& r is Err ==> n == s && (match r->Err_0 {
                TrySendError::Full(x) => x == v,
                TrySendError::Disconnected(x) => x == v,
            })
            &&& r is Ok ==> {
                &&& n.queued == s.queued.push(v)
                &&& n.capacity == s.capacity
                &&& n.senders == s.senders
                &&& n.receiver_dropped == s.receiver_dropped
            }
        }),
{
}

/// What the blocking `send` answers and leaves behind: refused, with the
/// value handed back and the channel unchanged, exactly when the receiver is
/// gone; otherwise the value joins the back of the queue, whatever the
/// capacity, and nothing else changes.
pub proof fn law_send_result<T>(s: ChannelState<T>, v: T)
    ensures
        ({
            let (n, r) = s.send_outcome(v);
            &&& r is Err <==> s.receiver_dropped
            &&& r is Err ==> n == s && r->Err_0.0 == v
            &&& r is Ok ==> {
                &&& n.queued == s.queued.push(v)
                &&& n.capacity == s.capacity
                &&& n.senders == s.senders
                &&& n.receiver_dropped == s.receiver_dropped
            }
        }),
{
}

/// What `try_recv` answers and leaves behind: with values queued, the
/// oldest one, removed from the front of the queue and nothing else
/// changed; with none queued, `Disconnected` when no sender lives and
/// `Empty` when one does, the channel left exactly as it was.
pub proof fn law_try_recv_result<T>(s: ChannelState<T>)
    ensures
        ({
            let (n, r) = s.try_recv_outcome();
            &&& s.queued.len() > 0 ==> {
                &&& r == Ok::<T, TryRecvError>(s.queued[0])
                &&& n.queued == s.queued.subrange(1, s.queued.len() as int)
                &&& n.capacity == s.capacity
                &&& n.senders == s.senders
                &&& n.receiver_dropped == s.receiver_dropped
            }
            &&& s.queued.len() == 0 ==> {
                &&& n == s
                &&& r == Err::<T, TryRecvError>(
                    if s.senders == 0 {
                        TryRecvError::Disconnected
                    } else {
                        TryRecvError::Empty
                    },
                )
            }
            &&& r is Err ==> n == s
        }),
{
    if s.queued.len() > 0 {
        assert(s.queued.drop_first() =~= s.queued.subrange(1, s.queued.len() as int));
    }
}

/// An empty channel with a live sender answers `Empty` to every `try_recv`,
/// however often it is asked.
pub proof fn law_empty_stays_empty<T>(s: ChannelState<T>, n: nat)
    requires
        s.queued.len() == 0,
        s.senders > 0,
    ensures
        drain(s, n) == Seq::<T>::empty(),
        s.try_recv_outcome() == (s, Err::<T, TryRecvError>(TryRecvError::Empty)),
        s.try_recv_outcome().0.try_recv_outcome() == (s, Err::<T, TryRecvError>(
            TryRecvError::Empty,
        )),
{
}

/// Dropping the receiver marks it gone in every case, and changes nothing
/// else; from then on every send is refused as disconnected.
pub proof fn law_receiver_closed<T>(s: ChannelState<T>, v: T)
    ensures
        s.receiver_closed().receiver_dropped,
        s.receiver_closed().queued == s.queued,
        s.receiver_closed().capacity == s.capacity,
        s.receiver_closed().senders == s.senders,
        s.receiver_closed().try_send_outcome(v).1 == Err::<(), TrySendError<T>>(
            TrySendError::Disconnected(v),
        ),
        s.receiver_closed().send_outcome(v).1 == Err::<(), SendError<T>>(SendError(v)),
{
}

/// Cloning a sender adds one live sender and changes nothing else; dropping
/// one takes one away and changes nothing else.
pub proof fn law_sender_count_changes<T>(s: ChannelState<T>)
    ensures
        s.sender_added().senders == s.senders + 1,
        s.sender_added().queued == s.queued,
        s.sender_added().capacity == s.capacity,
        s.sender_added().receiver_dropped == s.receiver_dropped,
        s.senders > 0 ==> s.sender_removed().senders + 1 == s.senders,
        s.sender_removed().queued == s.queued,
        s.sender_removed().capacity == s.capacity,
        s.sender_removed().receiver_dropped == s.receiver_dropped,
{
}

/// One call on a channel: a send or a receive, or what cloning or dropping
/// a handle does.
pub enum ChannelOp<T> {
    TrySend(T),
    Send(T),
    TryRecv,
    AddSender,
    RemoveSender,
    DropReceiver,
}

/// The state after `op`.
pub open spec fn step<T>(s: ChannelState<T>, op: ChannelOp<T>) -> ChannelState<T> {
    match op {
        ChannelOp::TrySend(v) => s.try_send_outcome(v).0,
        ChannelOp::Send(v) => s.send_outcome(v).0,
        ChannelOp::TryRecv => s.try_recv_outcome().0,
        ChannelOp::AddSender => s.sender_added(),
        ChannelOp::RemoveSender => s.sender_removed(),
        ChannelOp::DropReceiver => s.receiver_closed(),
    }
}

/// `op` is a send that returns `Ok` in state `s`.
pub open spec fn accepts_send<T>(s: ChannelState<T>, op: ChannelOp<T>) -> bool {
    match op {
        ChannelOp::TrySend(v) => s.try_send_outcome(v).1 is Ok,
        ChannelOp::Send(v) => s.send_outcome(v).1 is Ok,
        _ => false,
    }
}

/// `op` is a receive that returns `Ok` in state `s`.
pub open spec fn delivers<T>(s: ChannelState<T>, op: ChannelOp<T>) -> bool {
    op is TryRecv && s.try_recv_outcome().1 is Ok
}

/// The state after the calls of `ops`, in order.
pub open spec fn run<T>(s: ChannelState<T>, ops: Seq<ChannelOp<T>>) -> ChannelState<T>
    decreases ops.len(),
{
    if ops.len() == 0 {
        s
    } else {
        step(run(s, ops.drop_last()), ops.last())
    }
}

/// How many of the calls of `ops` were sends that returned `Ok`.
pub open spec fn sends_accepted<T>(s: ChannelState<T>, ops: Seq<ChannelOp<T>>) -> nat
    decreases ops.len(),
{
    if ops.len() == 0 {
        0
    } else {
        sends_accepted(s, ops.drop_last()) + if accepts_send(run(s, ops.drop_last()), ops.last()) {
            1nat
        } else {
            0nat
        }
    }
}

/// How many of the calls of `ops` were receives that returned `Ok`.
pub open spec fn values_delivered<T>(s: ChannelState<T>, ops: Seq<ChannelOp<T>>) -> nat
    decreases ops.len(),
{
    if ops.len() == 0 {
        0
    } else {
        values_delivered(s, ops.drop_last()) + if delivers(run(s, ops.drop_last()), ops.last()) {
            1nat
        } else {
            0nat
        }
    }
}

/// Over any history of calls, the number of queued values grows by one for
/// each send that returned `Ok` and shrinks by one for each receive that
/// returned `Ok`; nothing else changes it.
pub proof fn law_len_counts_sends_and_receives<T>(s: ChannelState<T>, ops: Seq<ChannelOp<T>>)
    ensures
        run(s, ops).queued.len() + values_delivered(s, ops) == s.queued.len() + sends_accepted(
            s,
            ops,
        ),
    decreases ops.len(),
{
    if ops.len() > 0 {
        law_len_counts_sends_and_receives(s, ops.drop_last());
    }
}

/// From a fresh channel, `len` is the number of sends that returned `Ok`
/// minus the number of receives that returned `Ok`.
pub proof fn law_fresh_len<T>(capacity: nat, ops: Seq<ChannelOp<T>>)
    ensures
        run(ChannelState::<T>::fresh(capacity), ops).queued.len() == sends_accepted(
            ChannelState::<T>::fresh(capacity),
            ops,
        ) - values_delivered(ChannelState::<T>::fresh(capacity), ops),
{
    law_len_counts_sends_and_receives(ChannelState::<T>::fresh(capacity), ops);
}

/// The shared state of a bounded channel.
pub struct ChannelInner<T> {
    buf: VecDeque<T>,
    capacity: usize,
    sender_count: usize,
    receiver_dropped: bool,
}

impl<T> View for ChannelInner<T> {
    type V = ChannelState<T>;

    closed spec fn view(&self) -> ChannelState<T> {
        ChannelState {
            queued: self.buf@,
            capacity: self.capacity as nat,
            senders: self.sender_count as nat,
            receiver_dropped: self.receiver_dropped,
        }
    }
}

impl<T> ChannelInner<T> {
    /// The shared state of a channel made by `bounded(capacity)`: empty,
    /// with the one sender and the one receiver that `bounded` hands out.
    pub fn new(capacity: usize) -> (ch: Self)
        ensures
            ch@ == ChannelState::<T>::fresh(capacity as nat),
            ch@.capacity == capacity,
            ch@.queued.len() == 0,
            ch@.senders == 1,
            !ch@.receiver_dropped,
    {
        ChannelInner { buf: VecDeque::new(), capacity, sender_count: 1, receiver_dropped: false }
    }

    /// The number of values queued.
    pub fn len(&self) -> (n: usize)
        ensures
            n == self@.queued.len(),
    {
        proof {
            broadcast use vstd::std_specs::vecdeque::axiom_spec_len;
        }
        self.buf.len()
    }

    /// The bound given at creation.
    pub fn capacity(&self) -> (c: usize)
        ensures
            c == self@.capacity,
    {
        self.capacity
    }

    /// The number of live senders.
    pub fn sender_count(&self) -> (c: usize)
        ensures
            c == self@.senders,
    {
        self.sender_count
    }

    /// Whether the receiver has been dropped.
    pub fn is_receiver_dropped(&self) -> (b: bool)
        ensures
            b == self@.receiver_dropped,
    {
        self.receiver_dropped
    }

    /// Queues `val` unless the receiver is gone or the queue is full; a
    /// refused value is handed back in the error.
    pub fn try_send(&mut self, val: T) -> (r: Result<(), TrySendError<T>>)
        ensures
            (final(self)@, r) == old(self)@.try_send_outcome(val),
    {
        proof {
            broadcast use vstd::std_specs::vecdeque::axiom_spec_len;
        }
        if self.receiver_dropped {
            return Err(TrySendError::Disconnected(val));
        }
        if self.buf.len() >= self.capacity {
            return Err(TrySendError::Full(val));
        }
        self.buf.push_back(val);
        Ok(())
    }

    /// Queues `val` unless the receiver is gone. The capacity is not
    /// consulted, so that a blocking sender never waits on a full queue.
    pub fn send(&mut self, val: T) -> (r: Result<(), SendError<T>>)
        ensures
            (final(self)@, r) == old(self)@.send_outcome(val),
    {
        if self.receiver_dropped {
            return Err(SendError(val));
        }
        self.buf.push_back(val);
        Ok(())
    }

    /// Takes the oldest queued value; with none queued, reports
    /// `Disconnected` when no sender is left and `Empty` otherwise.
    pub fn try_recv(&mut self) -> (r: Result<T, TryRecvError>)
        ensures
            (final(self)@, r) == old(self)@.try_recv_outcome(),
    {
        match self.buf.pop_front() {
            Some(val) => {
                proof {
                    assert(self.buf@ =~= old(self).buf@.drop_first());
                }
                Ok(val)
            },
            None => {
                if self.sender_count == 0 {
                    Err(TryRecvError::Disconnected)
                } else {
                    Err(TryRecvError::Empty)
                }
            },
        }
    }

    /// Counts one more sender: what cloning a sender does.
    pub fn add_sender(&mut self)
        requires
            old(self)@.senders < usize::MAX,
        ensures
            final(self)@ == old(self)@.sender_added(),
    {
        self.sender_count = self.sender_count + 1;
    }

    /// Counts one sender less: what dropping a sender does.
    pub fn remove_sender(&mut self)
        requires
            old(self)@.senders > 0,
        ensures
            final(self)@ == old(self)@.sender_removed(),
    {
        self.sender_count = self.sender_count - 1;
    }

    /// Marks the receiver as gone: what dropping the receiver does.
    pub fn drop_receiver(&mut self)
        ensures
            final(self)@ == old(self)@.receiver_closed(),
    {
        self.receiver_dropped = true;
    }
}

impl<T> TrySendError<T> {
    /// The value that was refused.
    pub fn into_inner(self) -> (v: T)
        ensures
            v == (match self {
                TrySendError::Full(x) => x,
                TrySendError::Disconnected(x) => x,
            }),
    {
        match self {
            TrySendError::Full(x) => x,
            TrySendError::Disconnected(x) => x,
        }
    }

    /// Whether the channel was full.
    pub fn is_full(&self) -> (b: bool)
        ensures
            b == (self is Full),
    {
        match self {
            TrySendError::Full(_) => true,
            TrySendError::Disconnected(_) => false,
        }
    }

    /// The text that formatting the error for debugging shows; the value
    /// itself is left out.
    pub fn debug_string(&self) -> (s: String)
        ensures
            s@ == (match self {
                TrySendError::Full(_) => "TrySendError::Full(..)"@,
                TrySendError::Disconnected(_) => "TrySendError::Disconnected(..)"@,
            }),
    {
        match self {
            TrySendError::Full(_) => String::from_str("TrySendError::Full(..)"),
            TrySendError::Disconnected(_) => String::from_str("TrySendError::Disconnected(..)"),
        }
    }
}

impl<T> SendError<T> {
    /// The text that formatting the error for debugging shows; the value
    /// itself is left out.
    pub fn debug_string(&self) -> (s: String)
        ensures
            s@ == "SendError(..)"@,
    {
        String::from_str("SendError(..)")
    }
}

} // verus!
