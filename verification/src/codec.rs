//! Decoding of received messages, one at a time or in the background.

use crate::lineage::{or_zero, queue_start, Marker, QueueIds, Trail};
use std::collections::VecDeque;
use vstd::prelude::*;

verus! {

/// The marker of a decode that is done, in the form that a collector admits.
pub open spec fn decode_result(receive_id: u64, accepted: bool) -> Marker {
    Marker {
        stage: "message_decode_result",
        queue_id: None,
        message_id: None,
        receive_id: Some(receive_id),
        accepted: Some(
            if accepted {
                1
            } else {
                0
            },
        ),
    }
}

/// The marker of a decoded message that was submitted to the consumer.
pub open spec fn decoded_queue(queue_id: Option<u64>, receive_id: u64, accepted: bool) -> Marker {
    Marker {
        stage: "message_decoded_queue",
        queue_id: Some(or_zero(queue_id)),
        message_id: None,
        receive_id: Some(receive_id),
        accepted: Some(
            if accepted {
                1
            } else {
                0
            },
        ),
    }
}

/// The trail with the marker, where the message can be traced.
pub open spec fn marked(trail: Seq<Marker>, receive_id: Option<u64>, marker: Marker) -> Seq<Marker> {
    if receive_id is Some {
        trail.push(marker)
    } else {
        trail
    }
}

/// A message that is being decoded: who it is from, and what it can be traced by.
pub struct Decoding<P> {
    pub peer: P,
    pub receive_id: Option<u64>,
}

impl<P> Decoding<P> {
    /// Begins to decode a message from the peer.
    pub fn start(peer: P, receive_id: Option<u64>, trail: &mut Trail) -> (decoding: Self)
        ensures
            decoding == (Decoding { peer, receive_id }),
            final(trail)@ == marked(
                old(trail)@,
                receive_id,
                Marker::spec_received("message_decode", receive_id->0),
            ),
    {
        if let Some(id) = receive_id {
            trail.mark(Marker::received("message_decode", id));
        }
        Decoding { peer, receive_id }
    }

    /// Returns the identifier under which the decode is observed.
    pub fn observed_id(&self) -> (id: u64)
        ensures
            id == or_zero(self.receive_id),
    {
        match self.receive_id {
            Some(id) => id,
            None => 0,
        }
    }

    /// Ends the decode with what the decoder returned, which stays with the peer and
    /// the identifier of the message.
    pub fn finish<V, E>(self, result: Result<V, E>, trail: &mut Trail) -> (decoded: (
        P,
        Result<V, E>,
        Option<u64>,
    ))
        ensures
            decoded == (self.peer, result, self.receive_id),
            final(trail)@ == marked(
                old(trail)@,
                self.receive_id,
                decode_result(self.receive_id->0, result is Ok),
            ),
    {
        if let Some(id) = self.receive_id {
            let accepted: u64 = if result.is_ok() {
                1
            } else {
                0
            };
            trail.mark(
                Marker {
                    stage: "message_decode_result",
                    queue_id: None,
                    message_id: None,
                    receive_id: Some(id),
                    accepted: Some(accepted),
                },
            );
        }
        (self.peer, result, self.receive_id)
    }
}

/// A decoded message on its way to the consumer: the peer, the value, and what the
/// message can be traced by.
pub struct Decoded<P, V>(pub P, pub V, pub Option<u64>);

impl<P, V> Decoded<P, V> {
    /// Rejects a message for which the consumer has no room: it would likely no
    /// longer be useful by the time the consumer gets back to it.
    pub fn handle(overflow: &mut VecDeque<Self>, message: Self) -> (handled: bool)
        ensures
            !handled,
            final(overflow)@ == old(overflow)@,
    {
        let _ = message;
        false
    }

    /// Hands the message to the consumer.
    pub fn deliver(self, trail: &mut Trail) -> (message: (P, V))
        ensures
            message == (self.0, self.1),
            final(trail)@ == marked(
                old(trail)@,
                self.2,
                Marker::spec_received("message_delivered", self.2->0),
            ),
    {
        let Decoded(peer, value, receive_id) = self;
        if let Some(id) = receive_id {
            trail.mark(Marker::received("message_delivered", id));
        }
        (peer, value)
    }
}

/// What is to be done with the result of a decode.
pub enum Handled<P, V, E> {
    /// Submit the message to the consumer, under the queue identifier.
    Forward { queue_id: Option<u64>, message: Decoded<P, V> },
    /// Block the peer, which sent an invalid message.
    Block { peer: P, error: E },
}

/// What is to be done with the result of a decode, under the queue identifier.
pub open spec fn handled<P, V, E>(
    result: (P, Result<V, E>, Option<u64>),
    queue_id: Option<u64>,
) -> Handled<P, V, E> {
    match result.1 {
        Ok(value) => Handled::Forward { queue_id, message: Decoded(result.0, value, result.2) },
        Err(error) => Handled::Block { peer: result.0, error },
    }
}

/// What the background receiver waits for next.
#[derive(Clone, Copy, Debug, PartialEq, Eq, Structural)]
pub enum Wait {
    /// For a decode to complete, and nothing else.
    Completion,
    /// For a decode to complete or a message to arrive, whichever is first.
    Either,
    /// For nothing: it is done.
    Done,
}

/// What the background receiver was woken by.
#[derive(Clone, Copy, Debug, PartialEq, Eq, Structural)]
pub enum Event {
    /// A message arrived, and its decode was submitted.
    Received,
    /// A decode completed, and its result was handled.
    Completed,
    /// No further message will arrive.
    Closed,
}

/// The event loop of a background receiver.
///
/// In-flight decodes are bounded by `capacity` before more bytes are read, and are
/// all awaited once the receiver is closed.
#[derive(Debug)]
pub struct WrappedBackgroundReceiver {
    capacity: usize,
    in_flight: usize,
    closed: bool,
}

/// The state of an event loop.
pub ghost struct Loop {
    pub capacity: nat,
    pub in_flight: nat,
    pub closed: bool,
}

impl Loop {
    /// There are no more decodes in flight than allowed.
    pub open spec fn wf(self) -> bool {
        &&& 1 <= self.capacity
        &&& self.in_flight <= self.capacity
    }

    /// What the loop waits for.
    pub open spec fn wait(self) -> Wait {
        if self.in_flight >= self.capacity || (self.closed && self.in_flight > 0) {
            Wait::Completion
        } else if self.closed {
            Wait::Done
        } else {
            Wait::Either
        }
    }

    /// The event can come of what the loop waits for.
    pub open spec fn expects(self, event: Event) -> bool {
        match event {
            Event::Received => self.wait() == Wait::Either,
            Event::Closed => self.wait() == Wait::Either,
            Event::Completed => self.in_flight > 0,
        }
    }

    /// The loop after an event.
    pub open spec fn after(self, event: Event) -> Loop {
        match event {
            Event::Received => Loop { in_flight: self.in_flight + 1, ..self },
            Event::Closed => Loop { closed: true, ..self },
            Event::Completed => Loop { in_flight: (self.in_flight - 1) as nat, ..self },
        }
    }

    /// The loop after the events, in order.
    pub open spec fn after_all(self, events: Seq<Event>) -> Loop
        decreases events.len(),
    {
        if events.len() == 0 {
            self
        } else {
            self.after_all(events.drop_last()).after(events.last())
        }
    }

    /// Each of the events can come of what the loop waits for then.
    pub open spec fn expects_all(self, events: Seq<Event>) -> bool
        decreases events.len(),
    {
        events.len() > 0 ==> {
            &&& self.expects_all(events.drop_last())
            &&& self.after_all(events.drop_last()).expects(events.last())
        }
    }
}

impl View for WrappedBackgroundReceiver {
    type V = Loop;

    closed spec fn view(&self) -> Loop {
        Loop {
            capacity: self.capacity as nat,
            in_flight: self.in_flight as nat,
            closed: self.closed,
        }
    }
}

impl WrappedBackgroundReceiver {
    /// Returns the loop with no decode in flight.
    pub fn new(capacity: usize) -> (receiver: Self)
        requires
            1 <= capacity,
        ensures
            receiver@.wf(),
            receiver@ == (Loop { capacity: capacity as nat, in_flight: 0, closed: false }),
    {
        WrappedBackgroundReceiver { capacity, in_flight: 0, closed: false }
    }

    /// Returns what the loop waits for.
    pub fn wait(&self) -> (wait: Wait)
        ensures
            wait == self@.wait(),
            wait == Wait::Either <==> !self@.closed && self@.in_flight < self@.capacity,
            wait == Wait::Done <==> self@.closed && self@.in_flight == 0 && self@.capacity > 0,
    {
        if self.in_flight >= self.capacity || (self.closed && self.in_flight > 0) {
            Wait::Completion
        } else if self.closed {
            Wait::Done
        } else {
            Wait::Either
        }
    }

    /// Returns the number of decodes in flight.
    pub fn in_flight(&self) -> (in_flight: usize)
        ensures
            in_flight == self@.in_flight,
    {
        self.in_flight
    }

    /// Decides what is to be done with the result of a decode: a message is forwarded
    /// with its own identifier, and an invalid one blocks the peer that sent it.
    pub fn handle_decode_result<P, V, E>(
        result: (P, Result<V, E>, Option<u64>),
        enabled: bool,
        ids: &mut QueueIds,
        trail: &mut Trail,
    ) -> (action: Handled<P, V, E>)
        ensures
            result.1 is Ok && old(ids).assigns(enabled, None, result.2) ==> {
                &&& action == handled(result, Some(old(ids).next))
                &&& *final(ids) == old(ids).after(enabled, None, result.2)
                &&& final(trail)@ == old(trail)@.push(
                    Marker {
                        stage: "message_decoded_queue_start",
                        queue_id: Some(old(ids).next),
                        message_id: Some(0),
                        receive_id: result.2,
                        accepted: None,
                    },
                )
            },
            result.1 is Err || !old(ids).assigns(enabled, None, result.2) ==> {
                &&& action == handled(result, None)
                &&& *final(ids) == *old(ids)
                &&& final(trail)@ == old(trail)@
            },
    {
        let (peer, decoded, receive_id) = result;
        match decoded {
            Ok(value) => {
                let queue_id = queue_start(
                    "message_decoded_queue_start",
                    None,
                    receive_id,
                    enabled,
                    ids,
                    trail,
                );
                Handled::Forward { queue_id, message: Decoded(peer, value, receive_id) }
            },
            Err(error) => Handled::Block { peer, error },
        }
    }

    /// Marks what became of a message that was submitted to the consumer.
    pub fn forwarded(
        queue_id: Option<u64>,
        receive_id: Option<u64>,
        accepted: bool,
        trail: &mut Trail,
    )
        ensures
            final(trail)@ == marked(
                old(trail)@,
                receive_id,
                decoded_queue(queue_id, receive_id->0, accepted),
            ),
    {
        if let Some(id) = receive_id {
            let accepted: u64 = if accepted {
                1
            } else {
                0
            };
            trail.mark(
                Marker {
                    stage: "message_decoded_queue",
                    queue_id: Some(queue_id.unwrap_or(0)),
                    message_id: None,
                    receive_id: Some(id),
                    accepted: Some(accepted),
                },
            );
        }
    }

    /// Takes note of an event, and returns what the loop waits for next.
    pub fn run(&mut self, event: Event) -> (wait: Wait)
        requires
            old(self)@.wf(),
            old(self)@.expects(event),
        ensures
            final(self)@.wf(),
            final(self)@ == old(self)@.after(event),
            wait == final(self)@.wait(),
    {
        match event {
            Event::Received => {
                self.in_flight = self.in_flight + 1;
            },
            Event::Completed => {
                self.in_flight = self.in_flight - 1;
            },
            Event::Closed => {
                self.closed = true;
            },
        }
        self.wait()
    }
}

/// How often the event occurs.
pub open spec fn occurrences(events: Seq<Event>, event: Event) -> nat
    decreases events.len(),
{
    if events.len() == 0 {
        0
    } else {
        occurrences(events.drop_last(), event) + (if events.last() == event {
            1nat
        } else {
            0
        })
    }
}

/// However messages arrive and decodes complete, no more decodes are in flight than
/// allowed, every message that arrived is either still being decoded or its decode
/// was handled, and the loop is done exactly when the receiver is closed and all of
/// them were.
pub proof fn law_decodes_are_bounded_and_drained(receiver: Loop, events: Seq<Event>)
    requires
        receiver.wf(),
        receiver.in_flight == 0,
        !receiver.closed,
        receiver.expects_all(events),
    ensures
        receiver.after_all(events).wf(),
        receiver.after_all(events).capacity == receiver.capacity,
        receiver.after_all(events).in_flight + occurrences(events, Event::Completed)
            == occurrences(events, Event::Received),
        receiver.after_all(events).closed <==> occurrences(events, Event::Closed) > 0,
        receiver.after_all(events).wait() == Wait::Done <==> occurrences(events, Event::Closed) > 0
            && occurrences(events, Event::Completed) == occurrences(events, Event::Received),
    decreases events.len(),
{
    if events.len() > 0 {
        law_decodes_are_bounded_and_drained(receiver, events.drop_last());
    }
}

/// What an open loop waits for depends on room alone: with fewer decodes in flight than
/// allowed it takes whatever comes first, a message or the end of them included, and
/// otherwise it waits for a decode. A closed loop waits for the decodes that are left. No
/// loop waits for a decode where none is in flight.
pub proof fn law_loop_waits_for_what_can_come(receiver: Loop)
    requires
        1 <= receiver.capacity,
        receiver.in_flight <= receiver.capacity,
    ensures
        receiver.wf(),
        !receiver.closed && receiver.in_flight < receiver.capacity ==> {
            &&& receiver.wait() == Wait::Either
            &&& receiver.expects(Event::Received)
            &&& receiver.expects(Event::Closed)
        },
        receiver.in_flight == receiver.capacity ==> receiver.wait() == Wait::Completion,
        receiver.closed && receiver.in_flight > 0 ==> receiver.wait() == Wait::Completion,
        receiver.wait() == Wait::Completion ==> receiver.in_flight > 0,
        receiver.wait() == Wait::Done <==> receiver.closed && receiver.in_flight == 0,
        receiver.expects(Event::Completed) <==> receiver.in_flight > 0,
        receiver.expects(Event::Received) <==> receiver.wait() == Wait::Either,
        receiver.expects(Event::Closed) <==> receiver.wait() == Wait::Either,
{
}

/// A message that arrives is one more in flight, a decode that completes one less, and
/// the two undo each other. Only the end of messages closes the loop, and nothing changes
/// its capacity.
pub proof fn law_events_are_counted(receiver: Loop)
    ensures
        receiver.after(Event::Received).in_flight == receiver.in_flight + 1,
        receiver.after(Event::Received).after(Event::Completed) == receiver,
        receiver.in_flight > 0 ==> receiver.after(Event::Completed).in_flight
            == receiver.in_flight - 1,
        receiver.in_flight > 0 ==> receiver.after(Event::Completed).after(Event::Received)
            == receiver,
        receiver.after(Event::Closed).in_flight == receiver.in_flight,
        receiver.after(Event::Closed).closed,
        receiver.after(Event::Received).closed == receiver.closed,
        receiver.after(Event::Completed).closed == receiver.closed,
        forall|event: Event| (#[trigger] receiver.after(event)).capacity == receiver.capacity,
{
}

/// The event, the given number of times.
pub open spec fn times(event: Event, n: nat) -> Seq<Event> {
    Seq::new(n, |i: int| event)
}

/// As many messages are read at once as there is room for, and a closed loop is done
/// after as many completions as decodes are left, and not before.
pub proof fn law_room_is_used_and_drained(receiver: Loop, n: nat)
    requires
        receiver.wf(),
    ensures
        !receiver.closed && receiver.in_flight + n <= receiver.capacity ==> {
            &&& receiver.expects_all(times(Event::Received, n))
            &&& receiver.after_all(times(Event::Received, n)).in_flight == receiver.in_flight + n
        },
        receiver.closed && n <= receiver.in_flight ==> {
            &&& receiver.expects_all(times(Event::Completed, n))
            &&& receiver.after_all(times(Event::Completed, n)).wait() == Wait::Done <==> n
                == receiver.in_flight
        },
{
    lemma_received(receiver, n);
    lemma_completed(receiver, n);
}

proof fn lemma_received(receiver: Loop, n: nat)
    requires
        receiver.wf(),
    ensures
        !receiver.closed && receiver.in_flight + n <= receiver.capacity ==> {
            &&& receiver.expects_all(times(Event::Received, n))
            &&& receiver.after_all(times(Event::Received, n)) == (Loop {
                capacity: receiver.capacity,
                in_flight: receiver.in_flight + n,
                closed: false,
            })
        },
    decreases n,
{
    if n > 0 {
        let before = times(Event::Received, (n - 1) as nat);
        assert(times(Event::Received, n).drop_last() =~= before);
        lemma_received(receiver, (n - 1) as nat);
    }
}

proof fn lemma_completed(receiver: Loop, n: nat)
    ensures
        receiver.closed && n <= receiver.in_flight ==> {
            &&& receiver.expects_all(times(Event::Completed, n))
            &&& receiver.after_all(times(Event::Completed, n)) == (Loop {
                capacity: receiver.capacity,
                in_flight: (receiver.in_flight - n) as nat,
                closed: true,
            })
        },
    decreases n,
{
    if n > 0 {
        let before = times(Event::Completed, (n - 1) as nat);
        assert(times(Event::Completed, n).drop_last() =~= before);
        lemma_completed(receiver, (n - 1) as nat);
    }
}

/// What is marked of a message: only one that can be traced leaves a marker, each marker
/// carries the identifier of its message and says by one or zero whether the message was
/// accepted, and a submission without a queue identifier is marked with zero.
pub proof fn law_markers_tell_what_happened(
    trail: Seq<Marker>,
    receive_id: Option<u64>,
    marker: Marker,
    queue_id: Option<u64>,
    id: u64,
    accepted: bool,
)
    ensures
        receive_id is None ==> marked(trail, receive_id, marker) == trail,
        receive_id is Some ==> marked(trail, receive_id, marker) == trail + seq![marker],
        decode_result(id, accepted).stage == "message_decode_result",
        decode_result(id, accepted).receive_id == Some(id),
        decode_result(id, accepted).queue_id is None,
        decode_result(id, accepted).message_id is None,
        decode_result(id, accepted).accepted == Some(accepted as u64),
        decoded_queue(queue_id, id, accepted).stage == "message_decoded_queue",
        decoded_queue(queue_id, id, accepted).receive_id == Some(id),
        decoded_queue(queue_id, id, accepted).message_id is None,
        decoded_queue(queue_id, id, accepted).accepted == Some(accepted as u64),
        queue_id is None ==> decoded_queue(queue_id, id, accepted).queue_id == Some(0u64),
        queue_id is Some ==> decoded_queue(queue_id, id, accepted).queue_id == queue_id,
{
    assert(trail.push(marker) =~= trail + seq![marker]);
}

/// A message that was decoded is forwarded with its own peer, value and identifier under
/// the queue identifier, and one that was not blocks the peer that sent it, for the
/// error that the decoder gave.
pub proof fn law_every_result_is_handled_by_its_own_values<P, V, E>(
    peer: P,
    result: Result<V, E>,
    receive_id: Option<u64>,
    queue_id: Option<u64>,
)
    ensures
        match result {
            Ok(value) => handled((peer, result, receive_id), queue_id) == (Handled::<
                P,
                V,
                E,
            >::Forward { queue_id, message: Decoded(peer, value, receive_id) }),
            Err(error) => handled((peer, result, receive_id), queue_id) == (Handled::<
                P,
                V,
                E,
            >::Block { peer, error }),
        },
{
}

/// A loop that has as many decodes in flight as allowed, or whose receiver is closed,
/// accepts no message, and a closed one never does again.
pub proof fn law_backpressure_stops_reading(receiver: Loop, event: Event)
    requires
        receiver.wf(),
        receiver.expects(event),
    ensures
        receiver.in_flight == receiver.capacity || receiver.closed ==> event == Event::Completed,
        receiver.closed ==> receiver.after(event).closed,
        receiver.closed ==> receiver.after(event).in_flight < receiver.in_flight,
{
}

/// The messages that are forwarded of the results, in order.
pub open spec fn forwards<P, V, E>(results: Seq<(P, Result<V, E>, Option<u64>)>) -> Seq<
    Decoded<P, V>,
>
    decreases results.len(),
{
    if results.len() == 0 {
        seq![]
    } else {
        match handled(results.last(), None) {
            Handled::Forward { message, .. } => forwards(results.drop_last()).push(message),
            Handled::Block { .. } => forwards(results.drop_last()),
        }
    }
}

/// The peers that are blocked for the results, in order.
pub open spec fn blocks<P, V, E>(results: Seq<(P, Result<V, E>, Option<u64>)>) -> Seq<P>
    decreases results.len(),
{
    if results.len() == 0 {
        seq![]
    } else {
        match handled(results.last(), None) {
            Handled::Forward { .. } => blocks(results.drop_last()),
            Handled::Block { peer, .. } => blocks(results.drop_last()).push(peer),
        }
    }
}

/// Every result, in whatever order they come, either forwards a message or blocks a
/// peer. A forwarded message keeps the peer, the value and the identifier of its own
/// decode, whatever its neighbors were, and only a peer whose message was invalid is
/// blocked.
pub proof fn law_results_do_not_swap<P, V, E>(results: Seq<(P, Result<V, E>, Option<u64>)>)
    ensures
        forwards(results).len() + blocks(results).len() == results.len(),
        forall|i: int|
            0 <= i < forwards(results).len() ==> exists|j: int|
                0 <= j < results.len() && #[trigger] results[j] == (
                    (#[trigger] forwards(results)[i]).0,
                    Ok::<V, E>(forwards(results)[i].1),
                    forwards(results)[i].2,
                ),
        forall|i: int|
            0 <= i < blocks(results).len() ==> exists|j: int|
                0 <= j < results.len() && (#[trigger] results[j]).0 == #[trigger] blocks(results)[i]
                    && results[j].1 is Err,
    decreases results.len(),
{
    if results.len() > 0 {
        let before = results.drop_last();
        let last = results.last();
        law_results_do_not_swap(before);
        assert(results[results.len() - 1] == last);
        assert forall|i: int| 0 <= i < forwards(results).len() implies exists|j: int|
            0 <= j < results.len() && #[trigger] results[j] == (
                (#[trigger] forwards(results)[i]).0,
                Ok::<V, E>(forwards(results)[i].1),
                forwards(results)[i].2,
            ) by {
            if i < forwards(before).len() {
                let j = choose|j: int|
                    0 <= j < before.len() && #[trigger] before[j] == (
                        forwards(before)[i].0,
                        Ok::<V, E>(forwards(before)[i].1),
                        forwards(before)[i].2,
                    );
                assert(results[j] == before[j]);
            }
        }
        assert forall|i: int| 0 <= i < blocks(results).len() implies exists|j: int|
            0 <= j < results.len() && (#[trigger] results[j]).0 == #[trigger] blocks(results)[i]
                && results[j].1 is Err by {
            if i < blocks(before).len() {
                let j = choose|j: int|
                    0 <= j < before.len() && (#[trigger] before[j]).0 == blocks(before)[i]
                        && before[j].1 is Err;
                assert(results[j] == before[j]);
            }
        }
    }
}

} // verus!
