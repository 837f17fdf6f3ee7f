//! Fetches in flight, and the deliveries of their responses to the consumer.
//!
//! A delivery runs outside of this module: `deliver` and `redeliver` return what is
//! to be handed to the consumer, and `next_delivery` takes in that one has run. A
//! delivery whose fetch is gone by then was aborted.

use crate::buffer::{contents, share_bytes};
use crate::types::{equivalence, same};
use bytes::Bytes;
use std::time::Duration;
use tracing::Span;
use vstd::prelude::*;

verus! {

/// Trusted: a span of the `tracing` crate. Whether a collector has it is `disabled`.
#[verifier::external_type_specification]
#[verifier::external_body]
pub struct ExSpan(tracing::Span);

/// The span was never enabled by a collector.
pub uninterp spec fn disabled(span: Span) -> bool;

/// Trusted: `Span::is_disabled` tells whether the span was never enabled, which is
/// settled when the span is made.
pub assume_specification[ tracing::Span::is_disabled ](span: &Span) -> (is_disabled: bool)
    ensures
        is_disabled == disabled(*span),
;

/// A key and those who wait for its value, each with the span of their request.
pub struct Delivery<K, S> {
    pub key: K,
    pub subscribers: Vec<(S, Span)>,
}

/// The span of a subscriber that was attached to a response: the context that was
/// opened under the request, or the request itself where that context is disabled.
pub open spec fn attached<O: Fn(&Span, u64) -> Span>(
    open: O,
    receive_id: u64,
    request: Span,
    span: Span,
) -> bool {
    exists|context: Span| #[trigger]
        call_ensures(open, (&request, receive_id), context) && span == (if disabled(context) {
            request
        } else {
            context
        })
}

/// The delivery is the given one, each subscriber attached to the response where
/// that can be traced, and unchanged otherwise.
pub open spec fn in_context<K, S, O: Fn(&Span, u64) -> Span>(
    open: O,
    receive_id: Option<u64>,
    before: Delivery<K, S>,
    after: Delivery<K, S>,
) -> bool {
    &&& after.key == before.key
    &&& after.subscribers@.len() == before.subscribers@.len()
    &&& forall|i: int|
        0 <= i < before.subscribers@.len() ==> {
            let (subscriber, request) = before.subscribers@[i];
            let (still, span) = #[trigger] after.subscribers@[i];
            &&& still == subscriber
            &&& match receive_id {
                Some(id) if id != 0 => attached(open, id, request, span),
                _ => span == request,
            }
        }
}

/// Preserves request ancestry while attaching the exact response to each
/// subscriber: `open` makes the context of a response under a request.
pub fn response_context<K, S, O: Fn(&Span, u64) -> Span>(
    delivery: Delivery<K, S>,
    receive_id: Option<u64>,
    open: O,
) -> (attached_delivery: Delivery<K, S>)
    requires
        forall|request: &Span, id: u64| #[trigger] call_requires(open, (request, id)),
    ensures
        in_context(open, receive_id, delivery, attached_delivery),
{
    let ghost before = delivery;
    let mut delivery = delivery;
    if let Some(id) = receive_id {
        if id != 0 {
            let mut i: usize = 0;
            while i < delivery.subscribers.len()
                invariant
                    forall|request: &Span, id: u64| #[trigger] call_requires(open, (request, id)),
                    delivery.key == before.key,
                    delivery.subscribers@.len() == before.subscribers@.len(),
                    i <= delivery.subscribers@.len(),
                    forall|j: int|
                        0 <= j < i ==> {
                            &&& (#[trigger] delivery.subscribers@[j]).0 == before.subscribers@[j].0
                            &&& attached(
                                open,
                                id,
                                before.subscribers@[j].1,
                                delivery.subscribers@[j].1,
                            )
                        },
                    forall|j: int|
                        i <= j < before.subscribers@.len() ==> #[trigger] delivery.subscribers@[j]
                            == before.subscribers@[j],
                decreases delivery.subscribers@.len() - i,
            {
                let context = open(&delivery.subscribers[i].1, id);
                assert(call_ensures(open, (&before.subscribers@[i as int].1, id), context));
                if !context.is_disabled() {
                    delivery.subscribers[i].1 = context;
                }
                i = i + 1;
            }
        }
    }
    delivery
}

/// A response that was received: from whom, how long it took, how many bytes it is,
/// and what it can be traced by.
pub struct Context<P> {
    pub peer: P,
    pub elapsed: Duration,
    pub bytes: usize,
    pub receive_id: Option<u64>,
}

/// A response that is kept, so that later subscribers are delivered the same bytes,
/// and whether the consumer has accepted it.
pub struct Response<P> {
    pub context: Context<P>,
    pub value: Bytes,
    pub accepted: bool,
}

/// A fetch in flight: the timer of its duration until that is recorded, the response
/// if there is one, and the delivery that is running, if any.
pub struct Fetch<K, P, T> {
    pub key: K,
    pub timer: Option<T>,
    pub response: Option<Response<P>>,
    pub running: Option<u64>,
}

/// A delivery that is to be handed to the consumer.
pub struct Job<K, S, P> {
    pub id: u64,
    pub delivery: Delivery<K, S>,
    pub context: Context<P>,
    pub value: Bytes,
}

/// The response of a peer, as it is kept.
pub open spec fn received<P>(
    peer: P,
    elapsed: Duration,
    value: Bytes,
    receive_id: Option<u64>,
) -> Response<P> {
    Response {
        context: Context { peer, elapsed, bytes: contents(value).len() as usize, receive_id },
        value,
        accepted: false,
    }
}

impl<K, S, P: Clone> Job<K, S, P> {
    /// The job hands out the response: the same bytes, and what is known of them.
    pub open spec fn carries(self, response: Response<P>) -> bool {
        &&& contents(self.value) == contents(response.value)
        &&& cloned::<P>(response.context.peer, self.context.peer)
        &&& self.context.elapsed == response.context.elapsed
        &&& self.context.bytes == response.context.bytes
        &&& self.context.receive_id == response.context.receive_id
    }
}

/// A delivery was aborted before it ran to its end.
#[derive(Clone, Copy, Debug, PartialEq, Eq, Structural)]
pub struct Aborted;

/// The fetches in flight, and the identifier of the next delivery.
#[verifier::ext_equal]
pub ghost struct Fetches<K, P, T> {
    pub entries: Seq<Fetch<K, P, T>>,
    pub next: nat,
}

impl<K: PartialEq, P, T> Fetches<K, P, T> {
    /// The fetch at the index is that of the key.
    pub open spec fn at(self, key: K, i: int) -> bool {
        0 <= i < self.entries.len() && same(self.entries[i].key, key)
    }

    /// There is a fetch of the key.
    pub open spec fn has(self, key: K) -> bool {
        exists|i: int| self.at(key, i)
    }

    /// The index of the fetch of the key.
    pub open spec fn index(self, key: K) -> int {
        choose|i: int| self.at(key, i)
    }

    /// The fetch of the key.
    pub open spec fn fetch(self, key: K) -> Fetch<K, P, T> {
        self.entries[self.index(key)]
    }

    /// The delivery with the identifier runs for a fetch.
    pub open spec fn runs(self, id: u64) -> bool {
        exists|i: int| 0 <= i < self.entries.len() && (#[trigger] self.entries[i]).running == Some(id)
    }

    /// Keys are compared by an equivalence, none is fetched twice, and running
    /// deliveries have distinct identifiers.
    pub open spec fn wf(self) -> bool {
        &&& equivalence::<K>()
        &&& forall|i: int, j: int|
            0 <= i < j < self.entries.len() ==> !same(
                #[trigger] self.entries[i].key,
                #[trigger] self.entries[j].key,
            )
        &&& forall|i: int|
            0 <= i < self.entries.len() ==> ((#[trigger] self.entries[i]).running matches Some(id)
                ==> id < self.next)
        &&& forall|i: int, j: int|
            0 <= i < j < self.entries.len() ==> {
                ||| (#[trigger] self.entries[i]).running is None
                ||| self.entries[i].running != (#[trigger] self.entries[j]).running
            }
        &&& self.next <= u64::MAX
    }

    /// With another fetch at the place of that of the key.
    pub open spec fn with(self, key: K, fetch: Fetch<K, P, T>) -> Self {
        Fetches { entries: self.entries.update(self.index(key), fetch), ..self }
    }

    /// With another fetch.
    pub open spec fn inserted(self, key: K, timer: T) -> Self {
        Fetches {
            entries: self.entries.push(
                Fetch { key, timer: Some(timer), response: None, running: None },
            ),
            ..self
        }
    }

    /// Without the fetch of the key.
    pub open spec fn removed(self, key: K) -> Self {
        if self.has(key) {
            Fetches { entries: self.entries.remove(self.index(key)), ..self }
        } else {
            self
        }
    }

    /// With a new response to the fetch of the key, and its delivery running.
    pub open spec fn delivered(self, key: K, response: Response<P>) -> Self {
        let fetch = self.fetch(key);
        Fetches {
            next: self.next + 1,
            ..self.with(
                key,
                Fetch { response: Some(response), running: Some(self.next as u64), ..fetch },
            )
        }
    }

    /// With another delivery of the response to the fetch of the key running.
    pub open spec fn redelivered(self, key: K) -> Self {
        let fetch = self.fetch(key);
        Fetches {
            next: self.next + 1,
            ..self.with(key, Fetch { running: Some(self.next as u64), ..fetch })
        }
    }

    /// The response to the fetch of the key has been accepted.
    pub open spec fn is_accepted(self, key: K) -> bool {
        self.has(key) && self.fetch(key).response is Some && self.fetch(key).response->0.accepted
    }

    /// With the response to the fetch of the key accepted, and its duration recorded.
    pub open spec fn accepted(self, key: K) -> Self {
        let fetch = self.fetch(key);
        self.with(
            key,
            Fetch {
                timer: None,
                response: Some(Response { accepted: true, ..fetch.response->0 }),
                ..fetch
            },
        )
    }

    /// Without the response to the fetch of the key.
    pub open spec fn discarded(self, key: K) -> Self {
        if self.has(key) {
            self.with(key, Fetch { response: None, ..self.fetch(key) })
        } else {
            self
        }
    }

    /// With the delivery no longer running.
    pub open spec fn ended(self, id: u64) -> Self {
        Fetches {
            entries: self.entries.map_values(
                |fetch: Fetch<K, P, T>|
                    if fetch.running == Some(id) {
                        Fetch { running: None, ..fetch }
                    } else {
                        fetch
                    },
            ),
            ..self
        }
    }

    /// A response to the key can be delivered: it is fetched, no delivery is running
    /// for it, and identifiers last.
    pub open spec fn delivers(self, key: K) -> bool {
        &&& self.has(key)
        &&& self.fetch(key).running is None
        &&& self.next < u64::MAX
    }
}

/// Those of the fetches whose flag is set, in order.
pub open spec fn kept<K, P, T>(fetches: Seq<Fetch<K, P, T>>, flags: Seq<bool>) -> Seq<
    Fetch<K, P, T>,
>
    decreases fetches.len(),
{
    if fetches.len() == 0 {
        seq![]
    } else if flags[fetches.len() - 1] {
        kept(fetches.drop_last(), flags).push(fetches.last())
    } else {
        kept(fetches.drop_last(), flags)
    }
}

/// Tracks all in-flight fetch state.
pub struct Inflight<K, P, T> {
    entries: Vec<Fetch<K, P, T>>,
    next: u64,
}

impl<K, P, T> View for Inflight<K, P, T> {
    type V = Fetches<K, P, T>;

    closed spec fn view(&self) -> Fetches<K, P, T> {
        Fetches { entries: self.entries@, next: self.next as nat }
    }
}

impl<K: Eq, P: Clone, T> Inflight<K, P, T> {
    /// Returns the state of no fetch.
    pub fn new() -> (inflight: Self)
        requires
            equivalence::<K>(),
        ensures
            inflight@.wf(),
            inflight@.entries == Seq::<Fetch<K, P, T>>::empty(),
            inflight@.next == 0,
    {
        Inflight { entries: Vec::new(), next: 0 }
    }

    fn position(&self, key: &K) -> (index: Option<usize>)
        requires
            self@.wf(),
        ensures
            match index {
                Some(i) => self@.at(*key, i as int) && i == self@.index(*key),
                None => !self@.has(*key),
            },
    {
        let mut i: usize = 0;
        while i < self.entries.len()
            invariant
                self@.wf(),
                forall|j: int| 0 <= j < i ==> !#[trigger] self@.at(*key, j),
            decreases self.entries.len() - i,
        {
            if self.entries[i].key == *key {
                proof {
                    lemma_at(self@, *key, i as int);
                }
                return Some(i);
            }
            i = i + 1;
        }
        None
    }

    /// Returns true if there is a fetch of the key.
    pub fn contains(&self, key: &K) -> (contained: bool)
        requires
            self@.wf(),
        ensures
            contained == self@.has(*key),
    {
        self.position(key).is_some()
    }

    /// Returns what is known of the response to the fetch of the key, if there is one.
    pub fn response_context(&self, key: &K) -> (context: Option<&Context<P>>)
        requires
            self@.wf(),
        ensures
            match context {
                Some(context) => self@.has(*key) && self@.fetch(*key).response is Some && *context
                    == self@.fetch(*key).response->0.context,
                None => !self@.has(*key) || self@.fetch(*key).response is None,
            },
    {
        match self.position(key) {
            Some(i) => match &self.entries[i].response {
                Some(response) => Some(&response.context),
                None => None,
            },
            None => None,
        }
    }

    /// Returns whether a response to the key can be delivered.
    pub fn can_deliver(&self, key: &K) -> (delivers: bool)
        requires
            self@.wf(),
        ensures
            delivers == self@.delivers(*key),
    {
        match self.position(key) {
            Some(i) => self.entries[i].running.is_none() && self.next < u64::MAX,
            None => false,
        }
    }

    /// Inserts a new fetch of the key.
    pub fn insert(&mut self, key: K, timer: T)
        requires
            old(self)@.wf(),
            !old(self)@.has(key),
        ensures
            final(self)@.wf(),
            final(self)@ == old(self)@.inserted(key, timer),
    {
        proof {
            assert forall|i: int| 0 <= i < self@.entries.len() implies !same(
                #[trigger] self@.entries[i].key,
                key,
            ) by {
                assert(!self@.at(key, i));
            }
        }
        self.entries.push(Fetch { key, timer: Some(timer), response: None, running: None });
    }

    /// Removes the fetch of the key without recording its duration, and returns true
    /// if there was one. Its delivery, if one was running, is aborted.
    pub fn cancel(&mut self, key: &K) -> (present: bool)
        requires
            old(self)@.wf(),
        ensures
            final(self)@.wf(),
            present == old(self)@.has(*key),
            final(self)@ == old(self)@.removed(*key),
    {
        match self.position(key) {
            Some(i) => {
                self.entries.remove(i);
                true
            },
            None => false,
        }
    }

    /// Removes the fetch of the key as complete, and returns the timer by which its
    /// duration is to be recorded, unless it was before.
    pub fn complete(&mut self, key: &K) -> (timer: Option<T>)
        requires
            old(self)@.wf(),
            old(self)@.has(*key),
        ensures
            final(self)@.wf(),
            timer == old(self)@.fetch(*key).timer,
            final(self)@ == old(self)@.removed(*key),
    {
        match self.position(key) {
            Some(i) => self.entries.remove(i).timer,
            None => None,
        }
    }

    /// Drops the fetches for which the predicate returns false, and returns how many
    /// there were.
    pub fn retain<F: Fn(&K) -> bool>(&mut self, predicate: F) -> (dropped: usize)
        requires
            old(self)@.wf(),
            forall|key: &K| #[trigger] call_requires(predicate, (key,)),
        ensures
            final(self)@.wf(),
            final(self)@.next == old(self)@.next,
            dropped == old(self)@.entries.len() - final(self)@.entries.len(),
            exists|flags: Seq<bool>|
                {
                    &&& flags.len() == old(self)@.entries.len()
                    &&& forall|i: int|
                        0 <= i < flags.len() ==> call_ensures(
                            predicate,
                            (&old(self)@.entries[i].key,),
                            #[trigger] flags[i],
                        )
                    &&& final(self)@.entries == #[trigger] kept(old(self)@.entries, flags)
                    &&& dropped == flags.filter(|flag: bool| !flag).len()
                    &&& forall|i: int|
                        0 <= i < flags.len() ==> final(self)@.has(old(self)@.entries[i].key)
                            == #[trigger] flags[i]
                    &&& forall|i: int, id: u64|
                        0 <= i < flags.len() && !flags[i] && (
                        #[trigger] old(self)@.entries[i]).running == Some(id) ==> !(
                        #[trigger] final(self)@.runs(id))
                },
    {
        let ghost all = self.entries@;
        let ghost mut flags: Seq<bool> = Seq::empty();
        let ghost mut places: Seq<int> = Seq::empty();
        let total: usize = self.entries.len();
        let mut seen: usize = 0;
        let mut i: usize = 0;
        proof {
            assert(all.skip(0) =~= all);
        }
        while seen < total
            invariant
                i <= seen <= total,
                total == all.len(),
                flags.len() == seen,
                forall|key: &K| #[trigger] call_requires(predicate, (key,)),
                forall|j: int|
                    0 <= j < seen ==> call_ensures(predicate, (&all[j].key,), #[trigger] flags[j]),
                i == kept(all.take(seen as int), flags).len(),
                self.entries@ =~= kept(all.take(seen as int), flags) + all.skip(seen as int),
                places.len() == i,
                forall|j: int|
                    0 <= j < i ==> 0 <= #[trigger] places[j] < seen && kept(
                        all.take(seen as int),
                        flags,
                    )[j] == all[places[j]],
                forall|j: int, k: int| 0 <= j < k < places.len() ==> places[j] < places[k],
                self.next == old(self).next,
            decreases total - seen,
        {
            assert(self.entries@[i as int] == all[seen as int]);
            let keep = predicate(&self.entries[i].key);
            proof {
                assert(all.take(seen + 1).drop_last() =~= all.take(seen as int));
                assert(all.take(seen + 1).last() == all[seen as int]);
                lemma_kept_prefix(all.take(seen as int), flags, flags.push(keep));
                flags = flags.push(keep);
                if keep {
                    places = places.push(seen as int);
                }
            }
            if keep {
                i = i + 1;
            } else {
                self.entries.remove(i);
            }
            seen = seen + 1;
        }
        proof {
            assert(all.take(total as int) =~= all);
            assert(self.entries@ =~= kept(all, flags));
            lemma_wf_places(old(self)@, self@, places);
            law_retained_fetches_are_those_with_a_true_answer(old(self)@, flags, self@);
        }
        total - self.entries.len()
    }

    /// Drops all fetches, and returns how many there were.
    pub fn drain(&mut self) -> (dropped: usize)
        requires
            old(self)@.wf(),
        ensures
            final(self)@.wf(),
            final(self)@.entries == Seq::<Fetch<K, P, T>>::empty(),
            final(self)@.next == old(self)@.next,
            dropped == old(self)@.entries.len(),
    {
        let dropped: usize = self.entries.len();
        self.entries = Vec::new();
        dropped
    }

    /// Records the response to a fetch, so that later subscribers can be delivered the
    /// same bytes, and begins its delivery to the consumer.
    pub fn deliver<S, O: Fn(&Span, u64) -> Span>(
        &mut self,
        delivery: Delivery<K, S>,
        peer: P,
        elapsed: Duration,
        value: Bytes,
        receive_id: Option<u64>,
        open: O,
    ) -> (job: Job<K, S, P>)
        requires
            old(self)@.wf(),
            old(self)@.delivers(delivery.key),
            forall|request: &Span, id: u64| #[trigger] call_requires(open, (request, id)),
        ensures
            final(self)@.wf(),
            final(self)@ == old(self)@.delivered(
                delivery.key,
                received(peer, elapsed, value, receive_id),
            ),
            job.id == old(self)@.next,
            job.carries(received(peer, elapsed, value, receive_id)),
            contents(job.value) == contents(value),
            job.context.bytes == contents(value).len(),
            job.context.elapsed == elapsed,
            job.context.receive_id == receive_id,
            in_context(open, receive_id, delivery, job.delivery),
    {
        let id: u64 = self.next;
        let bytes: usize = value.len();
        let shared = share_bytes(&value);
        let context = Context { peer: peer.clone(), elapsed, bytes, receive_id };
        let position = self.position(&delivery.key);
        if let Some(i) = position {
            let response = Response {
                context: Context { peer, elapsed, bytes, receive_id },
                value,
                accepted: false,
            };
            self.entries[i].response = Some(response);
            self.entries[i].running = Some(id);
        }
        self.next = id + 1;
        let delivery = response_context(delivery, receive_id, open);
        Job { id, delivery, context, value: shared }
    }

    /// Begins another delivery of a response that was received before.
    pub fn redeliver<S, O: Fn(&Span, u64) -> Span>(&mut self, delivery: Delivery<K, S>, open: O) -> (job:
        Job<K, S, P>)
        requires
            old(self)@.wf(),
            old(self)@.delivers(delivery.key),
            old(self)@.fetch(delivery.key).response is Some,
            forall|request: &Span, id: u64| #[trigger] call_requires(open, (request, id)),
        ensures
            final(self)@.wf(),
            final(self)@ == old(self)@.redelivered(delivery.key),
            job.id == old(self)@.next,
            job.carries(old(self)@.fetch(delivery.key).response->0),
            contents(job.value) == contents(old(self)@.fetch(delivery.key).response->0.value),
            job.context.receive_id == old(self)@.fetch(
                delivery.key,
            ).response->0.context.receive_id,
            in_context(
                open,
                old(self)@.fetch(delivery.key).response->0.context.receive_id,
                delivery,
                job.delivery,
            ),
    {
        let id: u64 = self.next;
        let i: usize = self.position(&delivery.key).unwrap();
        let response = self.entries[i].response.as_ref().unwrap();
        let context = Context {
            peer: response.context.peer.clone(),
            elapsed: response.context.elapsed,
            bytes: response.context.bytes,
            receive_id: response.context.receive_id,
        };
        let value = share_bytes(&response.value);
        self.entries[i].running = Some(id);
        self.next = id + 1;
        let receive_id = context.receive_id;
        let delivery = response_context(delivery, receive_id, open);
        Job { id, delivery, context, value }
    }

    /// Returns whether the response to the fetch of the key has been accepted by the
    /// consumer.
    pub fn response_accepted(&self, key: &K) -> (accepted: bool)
        requires
            self@.wf(),
        ensures
            accepted == self@.is_accepted(*key),
    {
        match self.position(key) {
            Some(i) => match &self.entries[i].response {
                Some(response) => response.accepted,
                None => false,
            },
            None => false,
        }
    }

    /// Marks the response accepted, and returns the timer by which the duration of the
    /// fetch is to be recorded, unless it was before.
    pub fn accept_response(&mut self, key: &K) -> (timer: Option<T>)
        requires
            old(self)@.wf(),
            old(self)@.has(*key),
            old(self)@.fetch(*key).response is Some,
        ensures
            final(self)@.wf(),
            final(self)@ == old(self)@.accepted(*key),
            timer == old(self)@.fetch(*key).timer,
    {
        let i: usize = self.position(key).unwrap();
        let timer = self.entries[i].timer.take();
        if let Some(mut response) = self.entries[i].response.take() {
            response.accepted = true;
            self.entries[i].response = Some(response);
        }
        timer
    }

    /// Drops the response without completing the fetch.
    pub fn discard_response(&mut self, key: &K)
        requires
            old(self)@.wf(),
        ensures
            final(self)@.wf(),
            final(self)@ == old(self)@.discarded(*key),
    {
        if let Some(i) = self.position(key) {
            self.entries[i].response = None;
        }
    }

    /// Takes in that a delivery has run, with the verdict of the consumer, or `None` if
    /// it dropped its verdict. Returns what was delivered, or [`Aborted`] if the fetch
    /// is gone. The fetch is then free for another delivery.
    pub fn next_delivery<S, V>(
        &mut self,
        id: u64,
        context: Context<P>,
        delivery: Delivery<K, S>,
        outcome: Option<V>,
    ) -> (completed: Result<(P, Duration, usize, Delivery<K, S>, Option<V>), Aborted>)
        requires
            old(self)@.wf(),
        ensures
            final(self)@.wf(),
            final(self)@ == old(self)@.ended(id),
            completed == (if old(self)@.runs(id) {
                Ok((context.peer, context.elapsed, context.bytes, delivery, outcome))
            } else {
                Err(Aborted)
            }),
            completed is Ok <==> exists|i: int|
                0 <= i < old(self)@.entries.len() && (
                #[trigger] old(self)@.entries[i]).running == Some(id),
    {
        let mut i: usize = 0;
        while i < self.entries.len()
            invariant
                *self == *old(self),
                old(self)@.wf(),
                forall|j: int| 0 <= j < i ==> (#[trigger] self@.entries[j]).running != Some(id),
            decreases self.entries.len() - i,
        {
            if let Some(running) = self.entries[i].running {
                if running == id {
                    self.entries[i].running = None;
                    assert(old(self)@.entries[i as int].running == Some(id));
                    assert(self@.entries =~= old(self)@.ended(id).entries);
                    return Ok((context.peer, context.elapsed, context.bytes, delivery, outcome));
                }
            }
            i = i + 1;
        }
        assert(self@.entries =~= old(self)@.ended(id).entries);
        Err(Aborted)
    }
}

proof fn lemma_at<K: PartialEq, P, T>(fetches: Fetches<K, P, T>, key: K, i: int)
    requires
        fetches.wf(),
        fetches.at(key, i),
    ensures
        fetches.has(key),
        fetches.index(key) == i,
{
    let j = fetches.index(key);
    assert(fetches.at(key, j));
    let a = fetches.entries[i].key;
    let b = fetches.entries[j].key;
    assert(same(key, b));
    assert(same(a, b));
    assert(same(key, a));
    assert(same(b, a));
}

proof fn lemma_kept_prefix<K, P, T>(
    fetches: Seq<Fetch<K, P, T>>,
    flags: Seq<bool>,
    more: Seq<bool>,
)
    requires
        fetches.len() <= flags.len() <= more.len(),
        forall|i: int| 0 <= i < flags.len() ==> flags[i] == more[i],
    ensures
        kept(fetches, flags) == kept(fetches, more),
    decreases fetches.len(),
{
    if fetches.len() > 0 {
        lemma_kept_prefix(fetches.drop_last(), flags, more);
    }
}

/// What is well formed stays so when some of the fetches are left out.
proof fn lemma_wf_places<K: PartialEq, P, T>(
    before: Fetches<K, P, T>,
    after: Fetches<K, P, T>,
    places: Seq<int>,
)
    requires
        before.wf(),
        after.next == before.next,
        places.len() == after.entries.len(),
        forall|j: int|
            0 <= j < places.len() ==> 0 <= #[trigger] places[j] < before.entries.len()
                && after.entries[j] == before.entries[places[j]],
        forall|j: int, k: int| 0 <= j < k < places.len() ==> places[j] < places[k],
    ensures
        after.wf(),
{
    assert forall|i: int, j: int| 0 <= i < j < after.entries.len() implies {
        ||| (#[trigger] after.entries[i]).running is None
        ||| after.entries[i].running != (#[trigger] after.entries[j]).running
    } by {
        assert(places[i] < places[j]);
    }
    assert forall|i: int|
        0 <= i < after.entries.len() implies ((#[trigger] after.entries[i]).running matches Some(id)
        ==> id < after.next) by {
        assert(0 <= places[i] < before.entries.len());
    }
    assert forall|i: int, j: int| 0 <= i < j < after.entries.len() implies !same(
        #[trigger] after.entries[i].key,
        #[trigger] after.entries[j].key,
    ) by {
        assert(places[i] < places[j]);
    }
}

/// Replacing a fetch by one of the same key moves no fetch.
proof fn lemma_with<K: PartialEq, P, T>(
    before: Fetches<K, P, T>,
    key: K,
    fetch: Fetch<K, P, T>,
    other: K,
)
    requires
        before.wf(),
        before.has(key),
        fetch.key == before.fetch(key).key,
        equivalence::<K>(),
    ensures
        before.with(key, fetch).has(other) == before.has(other),
        before.has(other) ==> before.with(key, fetch).index(other) == before.index(other),
        before.with(key, fetch).fetch(key) == fetch,
        before.has(other) && !same(other, key) ==> before.with(key, fetch).fetch(other)
            == before.fetch(other),
{
    let after = before.with(key, fetch);
    let i = before.index(key);
    assert(before.at(key, i));
    assert(after.at(key, i));
    lemma_index(after, before, key, i);
    assert forall|j: int| before.at(other, j) == after.at(other, j) by {}
    if before.has(other) {
        let j = before.index(other);
        assert(before.at(other, j));
        assert(after.at(other, j));
        lemma_index(after, before, other, j);
        if i == j {
            assert(same(key, before.entries[i].key));
            assert(same(other, before.entries[j].key));
            assert(same(before.entries[j].key, key));
            assert(same(other, key));
        }
    } else if after.has(other) {
        let j = after.index(other);
        assert(after.at(other, j));
        assert(before.at(other, j));
    }
}

/// An index is that of a key also where only the keys are as in something well formed.
proof fn lemma_index<K: PartialEq, P, T>(
    after: Fetches<K, P, T>,
    before: Fetches<K, P, T>,
    key: K,
    i: int,
)
    requires
        before.wf(),
        after.entries.len() == before.entries.len(),
        forall|j: int|
            0 <= j < before.entries.len() ==> (#[trigger] after.entries[j]).key
                == before.entries[j].key,
        after.at(key, i),
    ensures
        after.has(key),
        after.index(key) == i,
        before.index(key) == i,
        before.has(key),
{
    let j = after.index(key);
    assert(after.at(key, j));
    assert(after.entries[j].key == before.entries[j].key);
    assert(after.entries[i].key == before.entries[i].key);
    assert(before.at(key, j));
    assert(before.at(key, i));
    lemma_at(before, key, i);
    lemma_at(before, key, j);
}

/// A fetch that was inserted is in flight, with its duration yet to be recorded.
pub proof fn law_inserted_fetch_is_contained<K: Eq, P, T>(
    fetches: Fetches<K, P, T>,
    key: K,
    timer: T,
)
    requires
        fetches.wf(),
        !fetches.has(key),
    ensures
        fetches.inserted(key, timer).has(key),
        fetches.inserted(key, timer).fetch(key).timer == Some(timer),
        fetches.inserted(key, timer).fetch(key).response is None,
        fetches.inserted(key, timer).fetch(key).running is None,
{
    let after = fetches.inserted(key, timer);
    let last = fetches.entries.len() as int;
    assert(same(key, key));
    assert(after.at(key, last));
    let j = after.index(key);
    assert(after.at(key, j));
    if j < last {
        assert(fetches.at(key, j));
    }
}

/// A fetch that was removed is not in flight any more, removing it again changes
/// nothing, and a delivery that was running for it is aborted.
pub proof fn law_removed_fetch_is_gone<K: Eq, P, T>(fetches: Fetches<K, P, T>, key: K)
    requires
        fetches.wf(),
    ensures
        !fetches.removed(key).has(key),
        fetches.removed(key).removed(key) == fetches.removed(key),
        fetches.has(key) && fetches.fetch(key).running is Some ==> !fetches.removed(key).runs(
            fetches.fetch(key).running->0,
        ),
{
    let after = fetches.removed(key);
    if fetches.has(key) {
        let i = fetches.index(key);
        assert(fetches.at(key, i));
        if after.has(key) {
            let j = after.index(key);
            assert(after.at(key, j));
            let k = if j < i {
                j
            } else {
                j + 1
            };
            assert(after.entries[j] == fetches.entries[k]);
            assert(fetches.at(key, k));
            lemma_at(fetches, key, k);
        }
        if let Some(id) = fetches.fetch(key).running {
            assert forall|j: int| 0 <= j < after.entries.len() implies (
            #[trigger] after.entries[j]).running != Some(id) by {
                let k = if j < i {
                    j
                } else {
                    j + 1
                };
                assert(after.entries[j] == fetches.entries[k]);
                assert(fetches.entries[i].running == Some(id));
            }
        }
    }
}

/// Accepting the response to a fetch uses up its timer, and nothing else that happens
/// to the fetch does, or brings it back: the duration is recorded at most once, and is
/// not lost before.
pub proof fn law_duration_is_recorded_once<K: Eq, P, T>(
    fetches: Fetches<K, P, T>,
    key: K,
    response: Response<P>,
    id: u64,
)
    requires
        fetches.wf(),
        fetches.has(key),
    ensures
        fetches.accepted(key).fetch(key).timer is None,
        fetches.delivered(key, response).fetch(key).timer == fetches.fetch(key).timer,
        fetches.redelivered(key).fetch(key).timer == fetches.fetch(key).timer,
        fetches.discarded(key).fetch(key).timer == fetches.fetch(key).timer,
        fetches.ended(id).fetch(key).timer == fetches.fetch(key).timer,
{
    let fetch = fetches.fetch(key);
    lemma_with(
        fetches,
        key,
        Fetch {
            timer: None,
            response: Some(Response { accepted: true, ..fetch.response->0 }),
            ..fetch
        },
        key,
    );
    lemma_with(fetches, key, Fetch { response: None, ..fetch }, key);
    lemma_delivered(fetches, key, response);
    lemma_ended(fetches, id, key);
}

proof fn lemma_delivered<K: PartialEq, P, T>(
    fetches: Fetches<K, P, T>,
    key: K,
    response: Response<P>,
)
    requires
        fetches.wf(),
        fetches.has(key),
    ensures
        fetches.delivered(key, response).has(key),
        fetches.delivered(key, response).fetch(key) == (Fetch {
            response: Some(response),
            running: Some(fetches.next as u64),
            ..fetches.fetch(key)
        }),
        fetches.redelivered(key).has(key),
        fetches.redelivered(key).fetch(key) == (Fetch {
            running: Some(fetches.next as u64),
            ..fetches.fetch(key)
        }),
{
    let i = fetches.index(key);
    assert(fetches.at(key, i));
    let delivered = fetches.delivered(key, response);
    let redelivered = fetches.redelivered(key);
    assert(delivered.at(key, i));
    assert(redelivered.at(key, i));
    lemma_index(delivered, fetches, key, i);
    lemma_index(redelivered, fetches, key, i);
}

proof fn lemma_ended<K: PartialEq, P, T>(fetches: Fetches<K, P, T>, id: u64, key: K)
    requires
        fetches.wf(),
        fetches.has(key),
    ensures
        fetches.ended(id).has(key),
        fetches.ended(id).fetch(key) == (if fetches.fetch(key).running == Some(id) {
            Fetch { running: None, ..fetches.fetch(key) }
        } else {
            fetches.fetch(key)
        }),
{
    let i = fetches.index(key);
    assert(fetches.at(key, i));
    let after = fetches.ended(id);
    assert(after.at(key, i));
    lemma_index(after, fetches, key, i);
}

/// A response is kept with its bytes and its identifier while it is delivered,
/// delivered again, and accepted, until it is discarded or replaced by another.
pub proof fn law_response_is_kept<K: Eq, P, T>(
    fetches: Fetches<K, P, T>,
    key: K,
    response: Response<P>,
    id: u64,
)
    requires
        fetches.wf(),
        fetches.has(key),
    ensures
        fetches.delivered(key, response).fetch(key).response == Some(response),
        fetches.redelivered(key).fetch(key).response == fetches.fetch(key).response,
        fetches.ended(id).fetch(key).response == fetches.fetch(key).response,
        fetches.fetch(key).response matches Some(kept) ==> {
            &&& fetches.accepted(key).fetch(key).response matches Some(accepted)
            &&& accepted.context == kept.context
            &&& accepted.value == kept.value
            &&& fetches.accepted(key).is_accepted(key)
        },
        fetches.discarded(key).fetch(key).response is None,
{
    let fetch = fetches.fetch(key);
    lemma_with(
        fetches,
        key,
        Fetch {
            timer: None,
            response: Some(Response { accepted: true, ..fetch.response->0 }),
            ..fetch
        },
        key,
    );
    lemma_with(fetches, key, Fetch { response: None, ..fetch }, key);
    lemma_delivered(fetches, key, response);
    lemma_ended(fetches, id, key);
}

/// A delivery that was begun runs until it ends, and its fetch is then free for
/// another one.
pub proof fn law_ended_delivery_frees_its_fetch<K: Eq, P, T>(
    fetches: Fetches<K, P, T>,
    key: K,
    response: Response<P>,
)
    requires
        fetches.wf(),
        fetches.delivers(key),
    ensures
        fetches.delivered(key, response).runs(fetches.next as u64),
        !fetches.delivered(key, response).delivers(key),
        fetches.delivered(key, response).wf(),
        fetches.delivered(key, response).ended(fetches.next as u64).fetch(key).running is None,
        fetches.delivered(key, response).ended(fetches.next as u64).has(key),
        !fetches.delivered(key, response).ended(fetches.next as u64).runs(fetches.next as u64),
{
    let i = fetches.index(key);
    assert(fetches.at(key, i));
    let delivered = fetches.delivered(key, response);
    lemma_delivered(fetches, key, response);
    assert(delivered.entries[i].running == Some(fetches.next as u64));
    assert(delivered.wf());
    lemma_ended(delivered, fetches.next as u64, key);
}

/// What happens to the fetch of one key leaves those of the others as they are.
pub proof fn law_other_fetches_are_untouched<K: Eq, P, T>(
    fetches: Fetches<K, P, T>,
    key: K,
    response: Response<P>,
    other: K,
)
    requires
        fetches.wf(),
        fetches.has(key),
        fetches.has(other),
        !same(other, key),
    ensures
        fetches.removed(key).has(other),
        fetches.removed(key).fetch(other) == fetches.fetch(other),
        fetches.delivered(key, response).has(other),
        fetches.delivered(key, response).fetch(other) == fetches.fetch(other),
        fetches.redelivered(key).has(other),
        fetches.redelivered(key).fetch(other) == fetches.fetch(other),
        fetches.accepted(key).has(other),
        fetches.accepted(key).fetch(other) == fetches.fetch(other),
        fetches.discarded(key).has(other),
        fetches.discarded(key).fetch(other) == fetches.fetch(other),
{
    let fetch = fetches.fetch(key);
    let i = fetches.index(key);
    let j = fetches.index(other);
    assert(fetches.at(key, i));
    assert(fetches.at(other, j));
    lemma_with(
        fetches,
        key,
        Fetch {
            timer: None,
            response: Some(Response { accepted: true, ..fetch.response->0 }),
            ..fetch
        },
        other,
    );
    lemma_with(fetches, key, Fetch { response: None, ..fetch }, other);
    assert(i != j) by {
        if i == j {
            let held = fetches.entries[i].key;
            assert(same(held, other));
            assert(same(other, held));
            assert(same(held, key));
            assert(same(other, key));
        }
    }
    let delivered = fetches.delivered(key, response);
    let redelivered = fetches.redelivered(key);
    assert(delivered.at(other, j));
    assert(redelivered.at(other, j));
    lemma_index(delivered, fetches, other, j);
    lemma_index(redelivered, fetches, other, j);
    let removed = fetches.removed(key);
    let place = if j < i {
        j
    } else {
        j - 1
    };
    assert(removed.entries[place] == fetches.entries[j]);
    assert(removed.at(other, place));
    let k = removed.index(other);
    assert(removed.at(other, k));
    let source = if k < i {
        k
    } else {
        k + 1
    };
    assert(removed.entries[k] == fetches.entries[source]);
    assert(fetches.at(other, source));
    lemma_at(fetches, other, source);
}

/// After fetches were retained by a predicate, none is left for which it answered no,
/// and each for which it answered yes is as it was. A delivery that was running for a
/// dropped fetch runs no more, and one of a retained fetch still does. As many are
/// dropped as there are answers of no.
pub proof fn law_retained_fetches_are_those_with_a_true_answer<K: PartialEq, P, T>(
    before: Fetches<K, P, T>,
    answers: Seq<bool>,
    after: Fetches<K, P, T>,
)
    requires
        before.wf(),
        answers.len() == before.entries.len(),
        after.entries == kept(before.entries, answers),
        after.next == before.next,
    ensures
        after.wf(),
        before.entries.len() - after.entries.len() == answers.filter(|answer: bool| !answer).len(),
        forall|i: int|
            0 <= i < answers.len() ==> after.has(before.entries[i].key) == #[trigger] answers[i],
        forall|i: int|
            0 <= i < answers.len() && #[trigger] answers[i] ==> after.fetch(before.entries[i].key)
                == before.entries[i],
        forall|i: int, id: u64|
            0 <= i < answers.len() && (#[trigger] before.entries[i]).running == Some(id)
                ==> #[trigger] after.runs(id) == answers[i],
        forall|key: K| !before.has(key) ==> !#[trigger] after.has(key),
{
    let places = lemma_kept_places(before.entries, answers);
    lemma_wf_places(before, after, places);
    lemma_kept_count(before.entries, answers);
    assert(answers.take(before.entries.len() as int) =~= answers);
    assert forall|i: int| 0 <= i < answers.len() implies after.has(before.entries[i].key)
        == #[trigger] answers[i] && (answers[i] ==> after.fetch(before.entries[i].key)
        == before.entries[i]) by {
        let key = before.entries[i].key;
        assert(same(key, key));
        assert(before.at(key, i));
        lemma_at(before, key, i);
        if answers[i] {
            assert(places.contains(i));
            let j = choose|j: int| 0 <= j < places.len() && places[j] == i;
            assert(after.at(key, j));
            lemma_at(after, key, j);
        } else if after.has(key) {
            let j = after.index(key);
            assert(after.at(key, j));
            assert(before.at(key, places[j]));
            lemma_at(before, key, places[j]);
            assert(places[j] == i);
        }
    }
    assert forall|i: int, id: u64|
        0 <= i < answers.len() && (#[trigger] before.entries[i]).running == Some(
            id,
        ) implies #[trigger] after.runs(id) == answers[i] by {
        if answers[i] {
            assert(places.contains(i));
            let j = choose|j: int| 0 <= j < places.len() && places[j] == i;
            assert(after.entries[j].running == Some(id));
        } else if after.runs(id) {
            let j = choose|j: int|
                0 <= j < after.entries.len() && (#[trigger] after.entries[j]).running == Some(id);
            let k = places[j];
            assert(before.entries[k].running == Some(id));
            assert(k == i);
        }
    }
    assert forall|key: K| !before.has(key) implies !#[trigger] after.has(key) by {
        if after.has(key) {
            let j = after.index(key);
            assert(after.at(key, j));
            assert(before.at(key, places[j]));
        }
    }
}

/// What is known of a fetch comes from its entry: there is a fetch of a key exactly if an
/// entry has an equal key, a delivery runs exactly if an entry holds its identifier, and
/// a response can be delivered exactly if the entry is free and identifiers last.
pub proof fn law_entries_decide<K: Eq, P, T>(fetches: Fetches<K, P, T>, key: K, id: u64)
    requires
        fetches.wf(),
    ensures
        fetches.has(key) <==> exists|i: int|
            0 <= i < fetches.entries.len() && same((#[trigger] fetches.entries[i]).key, key),
        forall|i: int|
            0 <= i < fetches.entries.len() && same((#[trigger] fetches.entries[i]).key, key)
                ==> fetches.fetch(key) == fetches.entries[i] && (fetches.delivers(key) <==>
                fetches.entries[i].running is None && fetches.next < u64::MAX) && (
            fetches.is_accepted(key) <==> fetches.entries[i].response is Some
                && fetches.entries[i].response->0.accepted),
        fetches.runs(id) <==> exists|i: int|
            0 <= i < fetches.entries.len() && (#[trigger] fetches.entries[i]).running == Some(id),
        !fetches.has(key) ==> !fetches.delivers(key) && !fetches.is_accepted(key),
        fetches.entries.len() == 0 ==> !fetches.has(key) && !fetches.runs(id),
{
    if fetches.has(key) {
        let i = fetches.index(key);
        assert(fetches.at(key, i));
    }
    if exists|i: int|
        0 <= i < fetches.entries.len() && same((#[trigger] fetches.entries[i]).key, key) {
        let i = choose|i: int|
            0 <= i < fetches.entries.len() && same((#[trigger] fetches.entries[i]).key, key);
        assert(fetches.at(key, i));
    }
    assert forall|i: int|
        0 <= i < fetches.entries.len() && same(
            (#[trigger] fetches.entries[i]).key,
            key,
        ) implies fetches.fetch(key) == fetches.entries[i] by {
        assert(fetches.at(key, i));
        lemma_at(fetches, key, i);
    }
}

proof fn lemma_kept_count<K, P, T>(fetches: Seq<Fetch<K, P, T>>, answers: Seq<bool>)
    requires
        answers.len() >= fetches.len(),
    ensures
        kept(fetches, answers).len() + answers.take(fetches.len() as int).filter(
            |answer: bool| !answer,
        ).len() == fetches.len(),
    decreases fetches.len(),
{
    reveal(Seq::filter);
    let no = |answer: bool| !answer;
    let n = fetches.len() as int;
    if n > 0 {
        lemma_kept_count(fetches.drop_last(), answers);
        assert(answers.take(n).drop_last() =~= answers.take(n - 1));
        assert(answers.take(n).last() == answers[n - 1]);
    }
}

/// What happens to the fetches in flight.
pub ghost enum Change<K, P, T> {
    /// A fetch of the key is inserted.
    Insert(K, T),
    /// The fetch of the key is canceled or completed.
    Remove(K),
    /// Those fetches whose flag is set are retained.
    Retain(Seq<bool>),
    /// A response to the key is delivered.
    Deliver(K, Response<P>),
    /// The response to the key is delivered again.
    Redeliver(K),
    /// The response to the key is accepted.
    Accept(K),
    /// The response to the key is discarded.
    Discard(K),
    /// The delivery with the identifier has run.
    End(u64),
}

impl<K: PartialEq, P, T> Fetches<K, P, T> {
    /// The change can be made.
    pub open spec fn admits(self, change: Change<K, P, T>) -> bool {
        match change {
            Change::Insert(key, _) => !self.has(key),
            Change::Retain(flags) => flags.len() == self.entries.len(),
            Change::Deliver(key, _) => self.delivers(key),
            Change::Redeliver(key) => self.delivers(key) && self.fetch(key).response is Some,
            Change::Accept(key) => self.has(key) && self.fetch(key).response is Some,
            _ => true,
        }
    }

    /// The fetches after a change.
    pub open spec fn after(self, change: Change<K, P, T>) -> Self {
        match change {
            Change::Insert(key, timer) => self.inserted(key, timer),
            Change::Remove(key) => self.removed(key),
            Change::Retain(flags) => Fetches { entries: kept(self.entries, flags), ..self },
            Change::Deliver(key, response) => self.delivered(key, response),
            Change::Redeliver(key) => self.redelivered(key),
            Change::Accept(key) => self.accepted(key),
            Change::Discard(key) => self.discarded(key),
            Change::End(id) => self.ended(id),
        }
    }

    /// The change leaves the fetch of the key in flight.
    pub open spec fn spares(self, key: K, change: Change<K, P, T>) -> bool {
        match change {
            Change::Remove(other) => !same(other, key),
            Change::Retain(flags) => flags[self.index(key)],
            _ => true,
        }
    }

    /// The fetches after the changes, in order.
    pub open spec fn after_all(self, changes: Seq<Change<K, P, T>>) -> Self
        decreases changes.len(),
    {
        if changes.len() == 0 {
            self
        } else {
            self.after_all(changes.drop_last()).after(changes.last())
        }
    }

    /// Each of the changes can be made when its turn comes, and leaves the fetch of the
    /// key in flight.
    pub open spec fn spares_all(self, key: K, changes: Seq<Change<K, P, T>>) -> bool
        decreases changes.len(),
    {
        changes.len() > 0 ==> {
            let before = self.after_all(changes.drop_last());
            &&& self.spares_all(key, changes.drop_last())
            &&& before.admits(changes.last())
            &&& before.spares(key, changes.last())
        }
    }

    /// The timers by which the duration of the fetch of the key is recorded in the
    /// course of the changes, in order: those that are handed out as its response is
    /// accepted.
    pub open spec fn recorded(self, key: K, changes: Seq<Change<K, P, T>>) -> Seq<T>
        decreases changes.len(),
    {
        if changes.len() == 0 {
            seq![]
        } else {
            let before = self.after_all(changes.drop_last());
            let earlier = self.recorded(key, changes.drop_last());
            match (changes.last(), before.fetch(key).timer) {
                (Change::Accept(other), Some(timer)) if same(other, key) => earlier.push(timer),
                _ => earlier,
            }
        }
    }
}

/// A change can be made whenever its call can: a key that is not fetched is inserted, any
/// key is removed or discarded, a response to a free fetch is delivered, one that is kept
/// is delivered again or accepted, and any delivery may have run. It spares a fetch unless
/// it removes that fetch.
pub proof fn law_changes_can_be_made<K: Eq, P, T>(
    fetches: Fetches<K, P, T>,
    key: K,
    other: K,
    timer: T,
    response: Response<P>,
    answers: Seq<bool>,
    id: u64,
    changes: Seq<Change<K, P, T>>,
    change: Change<K, P, T>,
)
    ensures
        !fetches.has(key) ==> fetches.admits(Change::Insert(key, timer)),
        fetches.admits(Change::Remove(key)),
        fetches.admits(Change::Discard(key)),
        fetches.admits(Change::End(id)),
        answers.len() == fetches.entries.len() ==> fetches.admits(Change::Retain(answers)),
        fetches.has(key) && fetches.fetch(key).running is None && fetches.next < u64::MAX ==> {
            &&& fetches.admits(Change::Deliver(key, response))
            &&& fetches.fetch(key).response is Some ==> fetches.admits(Change::Redeliver(key))
        },
        fetches.has(key) && fetches.fetch(key).response is Some ==> fetches.admits(
            Change::Accept(key),
        ),
        fetches.spares(key, Change::Insert(other, timer)),
        fetches.spares(key, Change::Deliver(other, response)),
        fetches.spares(key, Change::Redeliver(other)),
        fetches.spares(key, Change::Accept(other)),
        fetches.spares(key, Change::Discard(other)),
        fetches.spares(key, Change::End(id)),
        !same(other, key) ==> fetches.spares(key, Change::Remove(other)),
        answers[fetches.index(key)] ==> fetches.spares(key, Change::Retain(answers)),
        fetches.spares_all(key, Seq::<Change<K, P, T>>::empty()),
        fetches.after_all(Seq::<Change<K, P, T>>::empty()) == fetches,
        fetches.after_all(changes.push(change)) == fetches.after_all(changes).after(change),
        fetches.spares_all(key, changes) && fetches.after_all(changes).admits(change)
            && fetches.after_all(changes).spares(key, change) ==> fetches.spares_all(
            key,
            changes.push(change),
        ),
{
    assert(changes.push(change).drop_last() =~= changes);
}

/// The response to the key is accepted in the course of the changes.
pub open spec fn accepts<K: PartialEq, P, T>(key: K, changes: Seq<Change<K, P, T>>) -> bool {
    exists|i: int|
        0 <= i < changes.len() && (#[trigger] changes[i] matches Change::Accept(other) && same(
            other,
            key,
        ))
}

/// Where the kept fetches come from, in order.
proof fn lemma_kept_places<K, P, T>(fetches: Seq<Fetch<K, P, T>>, flags: Seq<bool>) -> (places: Seq<
    int,
>)
    requires
        flags.len() >= fetches.len(),
    ensures
        places.len() == kept(fetches, flags).len(),
        forall|j: int|
            0 <= j < places.len() ==> 0 <= #[trigger] places[j] < fetches.len() && flags[places[j]]
                && kept(fetches, flags)[j] == fetches[places[j]],
        forall|j: int, k: int| 0 <= j < k < places.len() ==> places[j] < places[k],
        forall|i: int| 0 <= i < fetches.len() && flags[i] ==> #[trigger] places.contains(i),
    decreases fetches.len(),
{
    if fetches.len() == 0 {
        seq![]
    } else {
        let last = fetches.len() - 1;
        let before = lemma_kept_places(fetches.drop_last(), flags);
        if flags[last] {
            let places = before.push(last);
            assert forall|i: int| 0 <= i < fetches.len() && flags[i] implies #[trigger] places.contains(
                i,
            ) by {
                if i == last {
                    assert(places[places.len() - 1] == i);
                } else {
                    assert(before.contains(i));
                    let j = choose|j: int| 0 <= j < before.len() && before[j] == i;
                    assert(places[j] == i);
                }
            }
            places
        } else {
            before
        }
    }
}

/// A change that spares the fetch of a key keeps its timer, unless it accepts the
/// response to it.
proof fn lemma_change<K: Eq, P, T>(fetches: Fetches<K, P, T>, key: K, change: Change<K, P, T>)
    requires
        fetches.wf(),
        fetches.has(key),
        fetches.admits(change),
        fetches.spares(key, change),
    ensures
        fetches.after(change).wf(),
        fetches.after(change).has(key),
        fetches.after(change).fetch(key).timer == (match change {
            Change::Accept(other) if same(other, key) => None,
            _ => fetches.fetch(key).timer,
        }),
        fetches.fetch(key).running matches Some(id) ==> change != Change::<K, P, T>::End(id)
            ==> fetches.after(change).fetch(key).running == Some(id),
{
    let after = fetches.after(change);
    let i = fetches.index(key);
    assert(fetches.at(key, i));
    match change {
        Change::Insert(other, _) => {
            assert forall|j: int| 0 <= j < fetches.entries.len() implies !same(
                #[trigger] fetches.entries[j].key,
                other,
            ) by {
                assert(!fetches.at(other, j));
            }
            assert(after.wf());
            assert(after.at(key, i));
            lemma_at(after, key, i);
        },
        Change::Remove(other) => {
            if fetches.has(other) {
                assert(!same(key, other)) by {
                    if same(key, other) {
                        assert(same(other, key));
                    }
                }
                assert(fetches.at(other, fetches.index(other)));
                law_other_fetches_are_untouched(fetches, other, arbitrary(), key);
                assert(after.wf());
            }
        },
        Change::Retain(flags) => {
            let places = lemma_kept_places(fetches.entries, flags);
            lemma_wf_places(fetches, after, places);
            assert(places.contains(i));
            let j = choose|j: int| 0 <= j < places.len() && places[j] == i;
            assert(after.at(key, j));
            lemma_at(after, key, j);
        },
        Change::End(id) => {
            lemma_ended(fetches, id, key);
            assert(after.wf());
        },
        Change::Deliver(other, _)
        | Change::Redeliver(other)
        | Change::Accept(other)
        | Change::Discard(other) => {
            if fetches.has(other) {
                let k = fetches.index(other);
                assert(fetches.at(other, k));
                let held = fetches.entries[k].key;
                if same(other, key) {
                    assert(same(held, other));
                    assert(same(held, key));
                    assert(fetches.at(key, k));
                    lemma_at(fetches, key, k);
                } else if k == i {
                    assert(same(held, key));
                    assert(same(held, other));
                    assert(same(other, held));
                    assert(same(other, key));
                }
                assert(after.at(key, i));
                lemma_index(after, fetches, key, i);
                assert(after.wf());
            }
        },
    }
}

/// A delivery that is running for a fetch keeps running, whatever happens in between to
/// this fetch or to others, deliveries of other keys included, as long as the fetch stays
/// in flight and the delivery has not run. So it is reported as completed once it has.
pub proof fn law_running_delivery_is_not_aborted<K: Eq, P, T>(
    fetches: Fetches<K, P, T>,
    key: K,
    id: u64,
    changes: Seq<Change<K, P, T>>,
)
    requires
        fetches.wf(),
        fetches.has(key),
        fetches.fetch(key).running == Some(id),
        fetches.spares_all(key, changes),
        forall|i: int|
            0 <= i < changes.len() ==> #[trigger] changes[i] != Change::<K, P, T>::End(id),
    ensures
        ({
            let last = fetches.after_all(changes);
            &&& last.wf()
            &&& last.has(key)
            &&& last.fetch(key).running == Some(id)
            &&& last.runs(id)
            &&& !last.delivers(key)
        }),
    decreases changes.len(),
{
    if changes.len() > 0 {
        let earlier = changes.drop_last();
        assert forall|i: int| 0 <= i < earlier.len() implies #[trigger] earlier[i] != Change::<
            K,
            P,
            T,
        >::End(id) by {
            assert(earlier[i] == changes[i]);
        }
        law_running_delivery_is_not_aborted(fetches, key, id, earlier);
        assert(changes[changes.len() - 1] == changes.last());
        lemma_change(fetches.after_all(earlier), key, changes.last());
    }
    let last = fetches.after_all(changes);
    let i = last.index(key);
    assert(last.at(key, i));
    assert(last.entries[i].running == Some(id));
}

/// A delivery that was begun completes, whatever happened since, if its fetch is still
/// in flight. Its identifier is one that no delivery had before.
pub proof fn law_begun_delivery_completes<K: Eq, P, T>(
    fetches: Fetches<K, P, T>,
    key: K,
    response: Response<P>,
    changes: Seq<Change<K, P, T>>,
)
    requires
        fetches.wf(),
        fetches.has(key),
        fetches.fetch(key).running is None,
        fetches.next < u64::MAX,
        forall|i: int|
            0 <= i < changes.len() ==> #[trigger] changes[i] != Change::<K, P, T>::End(
                fetches.next as u64,
            ),
    ensures
        !fetches.runs(fetches.next as u64),
        fetches.delivered(key, response).spares_all(key, changes) ==> fetches.delivered(
            key,
            response,
        ).after_all(changes).runs(fetches.next as u64),
        fetches.redelivered(key).spares_all(key, changes) ==> fetches.redelivered(key).after_all(
            changes,
        ).runs(fetches.next as u64),
{
    let id = fetches.next as u64;
    let delivered = fetches.delivered(key, response);
    let redelivered = fetches.redelivered(key);
    lemma_delivered(fetches, key, response);
    assert(fetches.at(key, fetches.index(key)));
    assert(delivered.wf());
    assert(redelivered.wf());
    if delivered.spares_all(key, changes) {
        law_running_delivery_is_not_aborted(delivered, key, id, changes);
    }
    if redelivered.spares_all(key, changes) {
        law_running_delivery_is_not_aborted(redelivered, key, id, changes);
    }
}

/// What happens to the fetch of a key changes its own entry alone, and of that only what
/// the change is about.
pub proof fn law_changes_touch_one_entry<K: Eq, P, T>(
    fetches: Fetches<K, P, T>,
    key: K,
    response: Response<P>,
    i: int,
)
    requires
        fetches.wf(),
        0 <= i < fetches.entries.len(),
        same(fetches.entries[i].key, key),
    ensures
        ({
            let entry = fetches.entries[i];
            let removed = fetches.removed(key);
            let delivered = fetches.delivered(key, response);
            let redelivered = fetches.redelivered(key);
            let accepted = fetches.accepted(key);
            let discarded = fetches.discarded(key);
            &&& removed.entries == fetches.entries.remove(i)
            &&& removed.next == fetches.next
            &&& delivered.entries == fetches.entries.update(
                i,
                Fetch {
                    key: entry.key,
                    timer: entry.timer,
                    response: Some(response),
                    running: Some(fetches.next as u64),
                },
            )
            &&& delivered.next == fetches.next + 1
            &&& redelivered.entries == fetches.entries.update(
                i,
                Fetch {
                    key: entry.key,
                    timer: entry.timer,
                    response: entry.response,
                    running: Some(fetches.next as u64),
                },
            )
            &&& redelivered.next == fetches.next + 1
            &&& entry.response matches Some(kept) ==> accepted.entries == fetches.entries.update(
                i,
                Fetch {
                    key: entry.key,
                    timer: None,
                    response: Some(
                        Response { context: kept.context, value: kept.value, accepted: true },
                    ),
                    running: entry.running,
                },
            )
            &&& accepted.next == fetches.next
            &&& discarded.entries == fetches.entries.update(
                i,
                Fetch {
                    key: entry.key,
                    timer: entry.timer,
                    response: None,
                    running: entry.running,
                },
            )
            &&& discarded.next == fetches.next
        }),
{
    assert(fetches.at(key, i));
    lemma_at(fetches, key, i);
}

/// A key that is not fetched is inserted as a fetch of its own, beside the others as they
/// are, and canceled or discarded to no effect.
pub proof fn law_absent_key_is_inserted_beside_the_others<K: Eq, P, T>(
    fetches: Fetches<K, P, T>,
    key: K,
    timer: T,
)
    requires
        fetches.wf(),
        !fetches.has(key),
    ensures
        fetches.inserted(key, timer).entries == fetches.entries.push(
            Fetch { key, timer: Some(timer), response: None, running: None },
        ),
        fetches.inserted(key, timer).next == fetches.next,
        fetches.removed(key) == fetches,
        fetches.discarded(key) == fetches,
{
}

/// The end of a delivery frees the entry that holds its identifier, and changes no other.
pub proof fn law_ended_delivery_frees_one_entry<K: Eq, P, T>(fetches: Fetches<K, P, T>, id: u64)
    requires
        fetches.wf(),
    ensures
        fetches.ended(id).entries.len() == fetches.entries.len(),
        fetches.ended(id).next == fetches.next,
        forall|i: int|
            0 <= i < fetches.entries.len() ==> {
                let entry = fetches.entries[i];
                let after = #[trigger] fetches.ended(id).entries[i];
                &&& after.key == entry.key
                &&& after.timer == entry.timer
                &&& after.response == entry.response
                &&& after.running == (if entry.running == Some(id) {
                    None
                } else {
                    entry.running
                })
            },
        !fetches.ended(id).runs(id),
{
    assert forall|i: int| 0 <= i < fetches.ended(id).entries.len() implies (
    #[trigger] fetches.ended(id).entries[i]).running != Some(id) by {}
}

/// A response is kept, and handed out by every delivery of it, with the peer that it is
/// from, how long it took, its bytes and how many there are, and what it can be traced
/// by. It is not accepted before it was.
pub proof fn law_response_is_handed_out_as_received<K, S, P: Clone>(
    peer: P,
    elapsed: Duration,
    value: Bytes,
    receive_id: Option<u64>,
    job: Job<K, S, P>,
)
    requires
        contents(value).len() <= usize::MAX,
    ensures
        ({
            let response = received(peer, elapsed, value, receive_id);
            &&& response.context.peer == peer
            &&& response.context.elapsed == elapsed
            &&& response.context.bytes == contents(value).len()
            &&& response.context.receive_id == receive_id
            &&& contents(response.value) == contents(value)
            &&& !response.accepted
            &&& job.carries(response) <==> {
                &&& cloned::<P>(peer, job.context.peer)
                &&& job.context.elapsed == elapsed
                &&& job.context.bytes == contents(value).len()
                &&& job.context.receive_id == receive_id
                &&& contents(job.value) == contents(value)
            }
        }),
{
}

/// Attaching a response keeps the key and every subscriber in its place. Without an
/// identifier, or with zero, nothing changes. With one, each request is replaced by a
/// context that was opened under it for that identifier, unless that is disabled, in
/// which case the request stays.
pub proof fn law_request_ancestry_is_preserved<K, S, O: Fn(&Span, u64) -> Span>(
    open: O,
    receive_id: Option<u64>,
    before: Delivery<K, S>,
    after: Delivery<K, S>,
    i: int,
)
    requires
        in_context(open, receive_id, before, after),
        0 <= i < before.subscribers@.len(),
    ensures
        after.key == before.key,
        after.subscribers@.len() == before.subscribers@.len(),
        after.subscribers@[i].0 == before.subscribers@[i].0,
        receive_id is None || receive_id == Some(0u64) ==> after.subscribers@[i].1
            == before.subscribers@[i].1,
        receive_id matches Some(id) ==> id != 0 ==> {
            let request = before.subscribers@[i].1;
            let span = after.subscribers@[i].1;
            &&& span == request || (!disabled(span) && call_ensures(open, (&request, id), span))
            &&& (forall|context: Span| #[trigger]
                call_ensures(open, (&request, id), context) ==> disabled(context)) ==> span
                == request
            &&& (forall|context: Span| #[trigger]
                call_ensures(open, (&request, id), context) ==> !disabled(context))
                ==> call_ensures(open, (&request, id), span)
        },
{
}

/// The duration of a fetch that is completed is recorded exactly once: by the first
/// acceptance of its response, if there was one while it was in flight, and otherwise
/// as it is completed. Whatever else happens in between, to this fetch or to others,
/// neither loses its timer nor records it. Afterwards the fetch is gone.
pub proof fn law_completed_fetch_is_recorded_exactly_once<K: Eq, P, T>(
    fetches: Fetches<K, P, T>,
    key: K,
    timer: T,
    changes: Seq<Change<K, P, T>>,
)
    requires
        fetches.wf(),
        !fetches.has(key),
        fetches.inserted(key, timer).spares_all(key, changes),
    ensures
        ({
            let inserted = fetches.inserted(key, timer);
            let last = inserted.after_all(changes);
            &&& last.wf()
            &&& last.has(key)
            &&& accepts(key, changes) ==> inserted.recorded(key, changes) == seq![timer]
                && last.fetch(key).timer is None
            &&& !accepts(key, changes) ==> inserted.recorded(key, changes) == Seq::<T>::empty()
                && last.fetch(key).timer == Some(timer)
            &&& !last.removed(key).has(key)
        }),
    decreases changes.len(),
{
    let inserted = fetches.inserted(key, timer);
    if changes.len() == 0 {
        law_inserted_fetch_is_contained(fetches, key, timer);
        assert forall|i: int| 0 <= i < fetches.entries.len() implies !same(
            #[trigger] fetches.entries[i].key,
            key,
        ) by {
            assert(!fetches.at(key, i));
        }
        assert(inserted.wf());
    } else {
        let earlier = changes.drop_last();
        let change = changes.last();
        let before = inserted.after_all(earlier);
        law_completed_fetch_is_recorded_exactly_once(fetches, key, timer, earlier);
        lemma_change(before, key, change);
        if accepts(key, earlier) {
            let i = choose|i: int|
                0 <= i < earlier.len() && (#[trigger] earlier[i] matches Change::Accept(other)
                    && same(other, key));
            assert(changes[i] == earlier[i]);
            assert(accepts(key, changes));
        } else if accepts(key, changes) {
            let i = choose|i: int|
                0 <= i < changes.len() && (#[trigger] changes[i] matches Change::Accept(other)
                    && same(other, key));
            if i < earlier.len() {
                assert(earlier[i] == changes[i]);
                assert(accepts(key, earlier));
            }
            assert(inserted.recorded(key, changes) =~= seq![timer]);
        } else {
            assert(changes[changes.len() - 1] == change);
        }
    }
    law_removed_fetch_is_gone(inserted.after_all(changes), key);
}

} // verus!
