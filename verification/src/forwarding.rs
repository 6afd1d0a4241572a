//! The way of a message from a DDS Reader to Zenoh.
//!
//! The callback of a DDS Reader runs on the one thread that delivers for all
//! routes, so it must never block: it puts the message into a bounded queue, and
//! drops and counts it when the queue is full. A forwarder takes the messages
//! out of the queue and publishes them. It ends on a command, when the queue is
//! abandoned, or, since the command may find no place in the queue, when it is
//! woken up by a timeout while the stop flag is set.
use crate::route_publisher::{queue_size_for, ZPublisher};
use vstd::prelude::*;

verus! {

/// An item of the queue.
#[derive(Debug)]
pub enum FwdCmd {
    Msg(Vec<u8>),
    Stop,
}

/// The sending end of a queue, as the crate `flume` has it.
#[verifier::external_type_specification]
#[verifier::external_body]
#[verifier::reject_recursive_types(T)]
pub struct ExSender<T>(flume::Sender<T>);

/// The receiving end of a queue, as the crate `flume` has it.
#[verifier::external_type_specification]
#[verifier::external_body]
#[verifier::reject_recursive_types(T)]
pub struct ExReceiver<T>(flume::Receiver<T>);

/// The number of items that the queue holds at most, where it is bounded.
pub uninterp spec fn queue_capacity(queue: flume::Sender<FwdCmd>) -> Option<usize>;

/// Whether the two are the ends of one queue.
pub uninterp spec fn same_queue(
    tx: flume::Sender<FwdCmd>,
    rx: flume::Receiver<FwdCmd>,
) -> bool;

/// What became of an item that was put into the queue.
#[derive(Clone, Copy, PartialEq, Eq, Structural, Debug)]
pub enum Enqueued {
    Sent,
    Full,
    Disconnected,
}

/// An item that was put to a queue, with the answer.
pub struct Offer {
    pub cmd: FwdCmd,
    pub answer: Enqueued,
}

/// What was offered through this end of a queue, in order.
pub uninterp spec fn offers(queue: flume::Sender<FwdCmd>) -> Seq<Offer>;

/// Whether both are the same end of one queue, perhaps at different times.
pub open spec fn same_end(a: flume::Sender<FwdCmd>, b: flume::Sender<FwdCmd>) -> bool {
    &&& queue_capacity(a) == queue_capacity(b)
    &&& forall|rx: flume::Receiver<FwdCmd>| #[trigger] same_queue(a, rx) == same_queue(b, rx)
}

/// What a forwarder finds in the queue.
#[derive(Debug)]
pub enum Received {
    Cmd(FwdCmd),
    /// The queue is abandoned.
    Disconnected,
    /// Nothing came for a while.
    Timeout,
}

/// What a forwarder does next.
#[derive(Debug)]
pub enum ForwarderAction {
    /// Publish the payload, and report the outcome to [`ForwardCounters::forwarded`].
    Put(Vec<u8>),
    Wait,
    Terminate,
}

/// The traffic of a route.
#[derive(Clone, Copy, PartialEq, Eq, Structural, Debug)]
pub struct ForwardCounters {
    /// Messages that were forwarded.
    pub fwd_msg_count: u64,
    /// Bytes that were forwarded.
    pub fwd_byte_count: u64,
    /// Messages that were dropped because the queue was full.
    pub dropped_msg_count: u64,
}

/// Whether the `n`-th dropped message is worth a warning: the first one, and then
/// one in a hundred.
pub open spec fn warns(n: u64) -> bool {
    n == 1 || n % 100 == 0
}

/// The counters once a message is put into the queue, or is not.
pub open spec fn with_enqueued(c: ForwardCounters, outcome: Enqueued) -> ForwardCounters {
    if outcome == Enqueued::Full {
        ForwardCounters { dropped_msg_count: c.dropped_msg_count.wrapping_add(1), ..c }
    } else {
        c
    }
}

/// The warning that is due then: the number of messages dropped so far.
pub open spec fn warning(c: ForwardCounters, outcome: Enqueued) -> Option<u64> {
    let n = c.dropped_msg_count.wrapping_add(1);
    if outcome == Enqueued::Full && warns(n) {
        Some(n)
    } else {
        None
    }
}

/// The counters once a message of `len` bytes is published, or is not.
pub open spec fn with_forwarded(c: ForwardCounters, len: u64, published: bool) -> ForwardCounters {
    if published {
        ForwardCounters {
            fwd_msg_count: c.fwd_msg_count.wrapping_add(1),
            fwd_byte_count: c.fwd_byte_count.wrapping_add(len),
            ..c
        }
    } else {
        c
    }
}

/// No traffic yet.
pub open spec fn no_traffic() -> ForwardCounters {
    ForwardCounters { fwd_msg_count: 0, fwd_byte_count: 0, dropped_msg_count: 0 }
}

/// `flume::bounded`: the two ends of one queue that holds at most `capacity`
/// items. Nothing was offered through it yet.
#[verifier::external_body]
fn bounded(capacity: usize) -> (r: (flume::Sender<FwdCmd>, flume::Receiver<FwdCmd>))
    ensures
        queue_capacity(r.0) == Some(capacity),
        same_queue(r.0, r.1),
        offers(r.0) == Seq::<Offer>::empty(),
{
    flume::bounded(capacity)
}

/// The two ends of the queue in front of a publisher: deep enough for the burst of
/// history that comes when the Reader is created, within bounds.
pub fn open_queue(publisher: &ZPublisher) -> (r: (flume::Sender<FwdCmd>, flume::Receiver<FwdCmd>))
    ensures
        queue_capacity(r.0) == Some(queue_size_for(publisher.cache_size)),
        same_queue(r.0, r.1),
        offers(r.0) == Seq::<Offer>::empty(),
{
    bounded(publisher.queue_size())
}

/// `flume::Sender::try_send`: offers one item to the queue, and tells what became
/// of it. It does not wait for a place in the queue. The answer depends on the
/// state of the queue at that moment, and what the queue holds afterwards on the
/// other threads that use it: both are left unsaid.
#[verifier::external_body]
fn try_send(queue: &mut flume::Sender<FwdCmd>, cmd: FwdCmd) -> (r: Enqueued)
    ensures
        offers(*final(queue)) == offers(*old(queue)).push(Offer { cmd, answer: r }),
        same_end(*final(queue), *old(queue)),
{
    match queue.try_send(cmd) {
        Ok(()) => Enqueued::Sent,
        Err(flume::TrySendError::Full(_)) => Enqueued::Full,
        Err(flume::TrySendError::Disconnected(_)) => Enqueued::Disconnected,
    }
}

/// Whether `cmd`, and nothing else, was offered between the two times.
pub open spec fn offered_once(
    before: flume::Sender<FwdCmd>,
    after: flume::Sender<FwdCmd>,
    cmd: FwdCmd,
    answer: Enqueued,
) -> bool {
    same_end(after, before) && offers(after) == offers(before).push(Offer { cmd, answer })
}

impl ForwardCounters {
    /// No traffic yet.
    pub fn new() -> (r: ForwardCounters)
        ensures
            r == no_traffic(),
    {
        ForwardCounters { fwd_msg_count: 0, fwd_byte_count: 0, dropped_msg_count: 0 }
    }

    /// Counts a message that found no place in the queue. The number of messages
    /// dropped so far is returned when it is time to warn of it.
    pub fn enqueued(&mut self, outcome: Enqueued) -> (r: Option<u64>)
        ensures
            *final(self) == with_enqueued(*old(self), outcome),
            r == warning(*old(self), outcome),
    {
        match outcome {
            Enqueued::Full => {
                let n: u64 = self.dropped_msg_count.wrapping_add(1);
                self.dropped_msg_count = n;
                if n == 1 || n % 100 == 0 {
                    Some(n)
                } else {
                    None
                }
            },
            _ => None,
        }
    }

    /// Puts a message into the queue without ever waiting, and counts it if it has
    /// to be dropped. Nothing else is put into the queue.
    pub fn route_sample(
        &mut self,
        queue: &mut flume::Sender<FwdCmd>,
        payload: Vec<u8>,
    ) -> (r: Option<u64>)
        ensures
            ({
                let answer = offers(*final(queue)).last().answer;
                &&& offered_once(*old(queue), *final(queue), FwdCmd::Msg(payload), answer)
                &&& *final(self) == with_enqueued(*old(self), answer)
                &&& r == warning(*old(self), answer)
            }),
    {
        let answer = try_send(queue, FwdCmd::Msg(payload));
        self.enqueued(answer)
    }

    /// Counts a message of `len` bytes if it was published.
    pub fn forwarded(&mut self, len: usize, published: bool)
        ensures
            *final(self) == with_forwarded(*old(self), len as u64, published),
    {
        if published {
            self.fwd_msg_count = self.fwd_msg_count.wrapping_add(1);
            self.fwd_byte_count = self.fwd_byte_count.wrapping_add(len as u64);
        }
    }
}

/// Asks the forwarder to end: the command to stop, and nothing else, is put into
/// the queue. It is not delivered where the queue is full, so the stop flag has to
/// be set before.
pub fn request_stop(queue: &mut flume::Sender<FwdCmd>) -> (r: Enqueued)
    ensures
        offered_once(*old(queue), *final(queue), FwdCmd::Stop, r),
{
    try_send(queue, FwdCmd::Stop)
}

/// What the forwarder does about what it finds in the queue: it publishes a
/// message, and ends on the command, when the queue is abandoned, or on a timeout
/// while the stop flag is set.
pub open spec fn action_for(received: Received, stop: bool) -> ForwarderAction {
    match received {
        Received::Cmd(FwdCmd::Msg(payload)) => ForwarderAction::Put(payload),
        Received::Cmd(FwdCmd::Stop) => ForwarderAction::Terminate,
        Received::Disconnected => ForwarderAction::Terminate,
        Received::Timeout => if stop {
            ForwarderAction::Terminate
        } else {
            ForwarderAction::Wait
        },
    }
}

/// What the forwarder does about what it finds in the queue.
pub fn next_action(received: Received, stop: bool) -> (r: ForwarderAction)
    ensures
        r == action_for(received, stop),
{
    match received {
        Received::Cmd(FwdCmd::Msg(payload)) => ForwarderAction::Put(payload),
        Received::Cmd(FwdCmd::Stop) => ForwarderAction::Terminate,
        Received::Disconnected => ForwarderAction::Terminate,
        Received::Timeout => if stop {
            ForwarderAction::Terminate
        } else {
            ForwarderAction::Wait
        },
    }
}

/// A message that was taken out of the queue: its size, and whether it could be
/// published.
pub struct Attempt {
    pub len: u64,
    pub published: bool,
}

/// The counters after some attempts to publish.
pub open spec fn after_attempts(c: ForwardCounters, attempts: Seq<Attempt>) -> ForwardCounters
    decreases attempts.len(),
{
    if attempts.len() == 0 {
        c
    } else {
        with_forwarded(
            after_attempts(c, attempts.drop_last()),
            attempts.last().len,
            attempts.last().published,
        )
    }
}

/// The number of messages that were published.
pub open spec fn published(attempts: Seq<Attempt>) -> nat
    decreases attempts.len(),
{
    if attempts.len() == 0 {
        0
    } else {
        published(attempts.drop_last()) + (if attempts.last().published {
            1nat
        } else {
            0
        })
    }
}

/// The number of bytes that were published.
pub open spec fn published_bytes(attempts: Seq<Attempt>) -> nat
    decreases attempts.len(),
{
    if attempts.len() == 0 {
        0
    } else {
        published_bytes(attempts.drop_last()) + (if attempts.last().published {
            attempts.last().len as nat
        } else {
            0
        })
    }
}

/// The counters tell how many messages and bytes were published, whatever failed
/// in between, as long as these numbers fit.
pub proof fn law_counters_tell_the_traffic(attempts: Seq<Attempt>)
    requires
        published(attempts) <= u64::MAX,
        published_bytes(attempts) <= u64::MAX,
    ensures
        after_attempts(no_traffic(), attempts).fwd_msg_count == published(attempts),
        after_attempts(no_traffic(), attempts).fwd_byte_count == published_bytes(attempts),
        after_attempts(no_traffic(), attempts).dropped_msg_count == 0,
    decreases attempts.len(),
{
    if attempts.len() > 0 {
        law_counters_tell_the_traffic(attempts.drop_last());
    }
}

/// The counters after some messages were put into the queue, or were not.
pub open spec fn after_enqueues(c: ForwardCounters, outcomes: Seq<Enqueued>) -> ForwardCounters
    decreases outcomes.len(),
{
    if outcomes.len() == 0 {
        c
    } else {
        with_enqueued(after_enqueues(c, outcomes.drop_last()), outcomes.last())
    }
}

/// The number of messages that found the queue full.
pub open spec fn found_full(outcomes: Seq<Enqueued>) -> nat
    decreases outcomes.len(),
{
    if outcomes.len() == 0 {
        0
    } else {
        found_full(outcomes.drop_last()) + (if outcomes.last() == Enqueued::Full {
            1nat
        } else {
            0
        })
    }
}

/// The messages that found the queue full are counted as dropped, and no others.
pub proof fn law_dropped_messages_are_counted(outcomes: Seq<Enqueued>)
    requires
        found_full(outcomes) <= u64::MAX,
    ensures
        after_enqueues(no_traffic(), outcomes).dropped_msg_count == found_full(outcomes),
        after_enqueues(no_traffic(), outcomes).fwd_msg_count == 0,
    decreases outcomes.len(),
{
    if outcomes.len() > 0 {
        law_dropped_messages_are_counted(outcomes.drop_last());
    }
}

/// One turn of the forwarder: what it finds in the queue, whether the stop flag is
/// set, and, where it publishes a message, whether that works.
pub struct Turn {
    pub received: Received,
    pub stop: bool,
    pub published: bool,
}

/// What a forwarder has done after some turns.
pub struct Run {
    /// The payloads that it has tried to publish, in order.
    pub puts: Seq<Vec<u8>>,
    pub counters: ForwardCounters,
    pub ended: bool,
}

/// What the forwarder has done after one more turn. One that has ended does
/// nothing.
pub open spec fn after_turn(run: Run, turn: Turn) -> Run {
    if run.ended {
        run
    } else {
        match action_for(turn.received, turn.stop) {
            ForwarderAction::Put(payload) => Run {
                puts: run.puts.push(payload),
                counters: with_forwarded(run.counters, payload@.len() as u64, turn.published),
                ended: false,
            },
            ForwarderAction::Wait => run,
            ForwarderAction::Terminate => Run { ended: true, ..run },
        }
    }
}

/// What a new forwarder has done after the turns.
pub open spec fn after_turns(turns: Seq<Turn>) -> Run
    decreases turns.len(),
{
    if turns.len() == 0 {
        Run { puts: Seq::empty(), counters: no_traffic(), ended: false }
    } else {
        after_turn(after_turns(turns.drop_last()), turns.last())
    }
}

/// The messages that are found in the queue, in queue order.
pub open spec fn messages(turns: Seq<Turn>) -> Seq<Vec<u8>>
    decreases turns.len(),
{
    if turns.len() == 0 {
        Seq::empty()
    } else {
        match turns.last().received {
            Received::Cmd(FwdCmd::Msg(payload)) => messages(turns.drop_last()).push(payload),
            _ => messages(turns.drop_last()),
        }
    }
}

/// The attempts to publish them.
pub open spec fn attempts_of(turns: Seq<Turn>) -> Seq<Attempt>
    decreases turns.len(),
{
    if turns.len() == 0 {
        Seq::empty()
    } else {
        match turns.last().received {
            Received::Cmd(FwdCmd::Msg(payload)) => attempts_of(turns.drop_last()).push(
                Attempt { len: payload@.len() as u64, published: turns.last().published },
            ),
            _ => attempts_of(turns.drop_last()),
        }
    }
}

/// Whether the forwarder goes on after the turn.
pub open spec fn goes_on(turn: Turn) -> bool {
    action_for(turn.received, turn.stop) !is Terminate
}

/// The forwarder publishes the messages in queue order, one attempt for each, up
/// to the first turn that ends it. A failed attempt does not end it, and only
/// messages that were published are counted.
pub proof fn law_forwarder_keeps_the_order(turns: Seq<Turn>, end: int)
    requires
        0 <= end <= turns.len(),
        forall|i: int| 0 <= i < end ==> goes_on(#[trigger] turns[i]),
        end < turns.len() ==> !goes_on(turns[end]),
    ensures
        after_turns(turns).puts == messages(turns.take(end)),
        after_turns(turns).counters == after_attempts(
            no_traffic(),
            attempts_of(turns.take(end)),
        ),
        attempts_of(turns.take(end)).len() == after_turns(turns).puts.len(),
        after_turns(turns).ended == (end < turns.len()),
    decreases turns.len(),
{
    if turns.len() == 0 {
        assert(turns.take(end) =~= turns);
    } else {
        let rest = turns.drop_last();
        if end == turns.len() {
            assert(turns.take(end) =~= turns);
            assert(rest.take(end - 1) =~= rest);
            assert forall|i: int| 0 <= i < end - 1 implies goes_on(#[trigger] rest[i]) by {
                assert(rest[i] == turns[i]);
            }
            law_forwarder_keeps_the_order(rest, end - 1);
            assert(goes_on(turns[end - 1]));
            if let Received::Cmd(FwdCmd::Msg(payload)) = turns.last().received {
                let before = attempts_of(rest);
                let attempt = Attempt {
                    len: payload@.len() as u64,
                    published: turns.last().published,
                };
                assert(before.push(attempt).drop_last() =~= before);
            }
        } else {
            assert(rest.take(end) =~= turns.take(end));
            assert forall|i: int| 0 <= i < end implies goes_on(#[trigger] rest[i]) by {
                assert(rest[i] == turns[i]);
            }
            if end < rest.len() {
                assert(rest[end] == turns[end]);
            }
            law_forwarder_keeps_the_order(rest, end);
        }
    }
}

/// A message that finds the queue full counts as dropped, whatever was counted
/// before, and nothing else is counted then. A warning comes with the first of them
/// and with each hundredth, and tells how many there are.
pub proof fn law_drop_is_counted_and_told(c: ForwardCounters, outcome: Enqueued)
    ensures
        with_enqueued(c, outcome).fwd_msg_count == c.fwd_msg_count,
        with_enqueued(c, outcome).fwd_byte_count == c.fwd_byte_count,
        outcome == Enqueued::Full && c.dropped_msg_count < u64::MAX ==> with_enqueued(
            c,
            outcome,
        ).dropped_msg_count == c.dropped_msg_count + 1,
        outcome != Enqueued::Full ==> with_enqueued(c, outcome).dropped_msg_count
            == c.dropped_msg_count,
        c.dropped_msg_count < u64::MAX ==> (warning(c, outcome) is Some <==> outcome
            == Enqueued::Full && (c.dropped_msg_count == 0 || (c.dropped_msg_count + 1) % 100 == 0)),
        warning(c, outcome) matches Some(n) ==> n == with_enqueued(c, outcome).dropped_msg_count,
{
}

/// A message that was published counts, with its bytes. One that was not does not.
pub proof fn law_publication_is_counted(c: ForwardCounters, len: u64, published: bool)
    ensures
        with_forwarded(c, len, published).dropped_msg_count == c.dropped_msg_count,
        !published ==> with_forwarded(c, len, published) == c,
        published && c.fwd_msg_count < u64::MAX ==> with_forwarded(c, len, published).fwd_msg_count
            == c.fwd_msg_count + 1,
        published && c.fwd_byte_count + len <= u64::MAX ==> with_forwarded(
            c,
            len,
            published,
        ).fwd_byte_count == c.fwd_byte_count + len,
{
}

/// Whether the turn is the last one: the command to stop, an abandoned queue, or a
/// timeout while the stop flag is set.
pub open spec fn is_last_turn(turn: Turn) -> bool {
    ||| turn.received == Received::Cmd(FwdCmd::Stop)
    ||| turn.received == Received::Disconnected
    ||| turn.received == Received::Timeout && turn.stop
}

/// The forwarder ends on the command to stop, on an abandoned queue, and on a timeout
/// while the stop flag is set. Nothing else ends it: neither a message, with the
/// flag set or not, nor a timeout without it.
pub proof fn law_forwarder_ends_when_told(turns: Seq<Turn>)
    ensures
        after_turns(turns).ended <==> exists|i: int|
            0 <= i < turns.len() && is_last_turn(#[trigger] turns[i]),
    decreases turns.len(),
{
    if turns.len() > 0 {
        let rest = turns.drop_last();
        law_forwarder_ends_when_told(rest);
        if exists|i: int| 0 <= i < rest.len() && is_last_turn(#[trigger] rest[i]) {
            let i = choose|i: int| 0 <= i < rest.len() && is_last_turn(#[trigger] rest[i]);
            assert(turns[i] == rest[i]);
        }
        if is_last_turn(turns.last()) {
            assert(turns[turns.len() - 1] == turns.last());
        }
        if exists|i: int| 0 <= i < turns.len() && is_last_turn(#[trigger] turns[i]) {
            let i = choose|i: int| 0 <= i < turns.len() && is_last_turn(#[trigger] turns[i]);
            if i < rest.len() {
                assert(rest[i] == turns[i]);
            }
        }
    }
}

/// A message is published as it is, whether the stop flag is set or not, and without
/// one there is nothing to publish.
pub proof fn law_message_is_published_as_it_is(received: Received, stop: bool)
    ensures
        match received {
            Received::Cmd(FwdCmd::Msg(payload)) => action_for(received, stop)
                == ForwarderAction::Put(payload),
            _ => action_for(received, stop) !is Put,
        },
        received == Received::Timeout && !stop ==> action_for(received, stop) is Wait,
{
}

} // verus!
