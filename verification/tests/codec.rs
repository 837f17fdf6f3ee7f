use commonware_actor::mailbox::{new_unreliable, UnreliablePolicy, UnreliableSender};
use commonware_codec::{Decode, Encode, Error};
use commonware_cryptography::ed25519::{PrivateKey, PublicKey};
use commonware_cryptography::Signer;
use commonware_runtime::{deterministic, Runner as _, Supervisor as _};
use lifecycle::codec::{Decoded, Decoding, Event, Handled, Wait, WrappedBackgroundReceiver};
use lifecycle::lineage::{Marker, QueueIds, Trail};
use std::collections::VecDeque;
use std::num::NonZeroUsize;

/// What the mailbox of the consumer holds.
struct Queued(Decoded<PublicKey, u32>);

impl UnreliablePolicy for Queued {
    type Overflow = VecDeque<Self>;

    fn handle(_: &mut VecDeque<Self>, message: Self) -> bool {
        Decoded::handle(&mut VecDeque::new(), message.0)
    }
}

/// A consumer, and what happened on the way to it.
struct Consumer {
    mailbox: UnreliableSender<Queued>,
    ids: QueueIds,
    trail: Trail,
    blocked: Vec<PublicKey>,
}

type DecodeResult = (PublicKey, Result<u32, Error>, Option<u64>);

impl Consumer {
    fn new(mailbox: UnreliableSender<Queued>) -> Self {
        Consumer { mailbox, ids: QueueIds::new(), trail: Trail::new(), blocked: Vec::new() }
    }

    fn handle_decode_result(&mut self, result: DecodeResult) {
        let receive_id = result.2;
        match WrappedBackgroundReceiver::handle_decode_result(
            result,
            true,
            &mut self.ids,
            &mut self.trail,
        ) {
            Handled::Forward { queue_id, message } => {
                let accepted = self.mailbox.enqueue(Queued(message)).accepted();
                WrappedBackgroundReceiver::forwarded(
                    queue_id,
                    receive_id,
                    accepted,
                    &mut self.trail,
                );
            }
            Handled::Block { peer, .. } => self.blocked.push(peer),
        }
    }

    /// Decodes the messages in the background, and returns how many decodes were in
    /// flight at most.
    fn run(&mut self, parallelism: usize, messages: Vec<(PublicKey, Vec<u8>, Option<u64>)>) -> usize {
        let mut messages = VecDeque::from(messages);
        let mut decodes = VecDeque::new();
        let mut most: usize = 0;
        let mut receiver = WrappedBackgroundReceiver::new(parallelism);
        let mut wait = receiver.wait();
        loop {
            let event = match wait {
                Wait::Done => break,
                Wait::Either => match messages.pop_front() {
                    Some((peer, bytes, receive_id)) => {
                        let decoding = Decoding::start(peer, receive_id, &mut self.trail);
                        let result = u32::decode_cfg(bytes.as_slice(), &());
                        decodes.push_back(decoding.finish(result, &mut self.trail));
                        Event::Received
                    }
                    None => Event::Closed,
                },
                Wait::Completion => {
                    let result = decodes.pop_front().unwrap();
                    self.handle_decode_result(result);
                    Event::Completed
                }
            };
            wait = receiver.run(event);
            most = most.max(receiver.in_flight());
            assert_eq!(receiver.in_flight(), decodes.len());
        }
        assert!(messages.is_empty() && decodes.is_empty());
        most
    }
}

fn pk(seed: u64) -> PublicKey {
    PrivateKey::from_seed(seed).public_key()
}

fn nz(value: usize) -> NonZeroUsize {
    NonZeroUsize::new(value).unwrap()
}

#[test]
fn test_lineage_background_malformed_and_overflow_keep_payload_context() {
    deterministic::Runner::default().start(|context| async move {
        let peer = pk(0);
        let (tx, mut rx) = new_unreliable(context.child("bg"), nz(2));
        let mut consumer = Consumer::new(tx);
        consumer.run(
            1,
            vec![
                (peer.clone(), 1u32.encode().to_vec(), Some(11)),
                (peer.clone(), b"bad".to_vec(), Some(99)),
                (peer.clone(), 2u32.encode().to_vec(), Some(22)),
                (peer.clone(), 3u32.encode().to_vec(), Some(33)),
            ],
        );
        drop(consumer);
        for (expected, id) in [(1, 11), (2, 22)] {
            let Queued(Decoded(from, value, context)) = rx.recv().await.unwrap();
            assert_eq!((from, value, context), (peer.clone(), expected, Some(id)));
        }
        assert!(rx.recv().await.is_none());
    });
}

#[test]
fn test_lineage_reordered_results_and_rejection_do_not_swap_ids() {
    deterministic::Runner::default().start(|context| async move {
        let (tx, mut rx) = new_unreliable(context.child("results"), nz(2));
        let mut consumer = Consumer::new(tx);
        // Completion order differs from submission order, with a malformed neighbor.
        consumer.handle_decode_result((pk(0), Ok(20), Some(2)));
        consumer.handle_decode_result((pk(0), Err(Error::EndOfBuffer), Some(3)));
        consumer.handle_decode_result((pk(0), Ok(10), Some(1)));
        consumer.handle_decode_result((pk(0), Ok(40), Some(4)));
        for (value, id) in [(20, 2), (10, 1)] {
            let Queued(Decoded(_, actual, context)) = rx.recv().await.unwrap();
            assert_eq!((actual, context), (value, Some(id)));
        }
        assert!(rx.try_recv().is_err());
        assert_eq!(consumer.blocked, vec![pk(0)]);
    });
}

#[test]
fn invalid_among_valid_only_blocks_offender() {
    deterministic::Runner::default().start(|context| async move {
        let (tx, mut rx) = new_unreliable(context.child("bg"), nz(16));
        let mut consumer = Consumer::new(tx);
        consumer.run(
            1,
            vec![
                (pk(2), 10u32.encode().to_vec(), None),
                (pk(0), vec![0xFF], None),
                (pk(2), 20u32.encode().to_vec(), None),
            ],
        );
        for expected in [10, 20] {
            let Queued(Decoded(from, value, context)) = rx.recv().await.unwrap();
            assert_eq!((from, value, context), (pk(2), expected, None));
        }
        assert_eq!(consumer.blocked, vec![pk(0)]);
        // Nothing of this can be traced.
        assert!(consumer.trail.into_markers().is_empty());
    });
}

#[test]
fn decoded_messages_drop_when_receiver_full() {
    deterministic::Runner::default().start(|context| async move {
        let (tx, mut rx) = new_unreliable(context.child("bg"), nz(1));
        let mut consumer = Consumer::new(tx);
        let messages = (0..2u32).map(|i| (pk(0), i.encode().to_vec(), None)).collect();
        consumer.run(1, messages);
        drop(consumer);
        let Queued(Decoded(from, value, _)) = rx.recv().await.unwrap();
        assert_eq!((from, value), (pk(0), 0));
        assert!(rx.recv().await.is_none());
    });
}

#[test]
fn drain_decode_pool_after_receiver_closure() {
    deterministic::Runner::default().start(|context| async move {
        let (tx, mut rx) = new_unreliable(context.child("bg"), nz(64));
        let mut consumer = Consumer::new(tx);
        let messages = (0..64u32).map(|i| (pk(0), i.encode().to_vec(), None)).collect();
        assert_eq!(consumer.run(4, messages), 4);
        drop(consumer);
        let mut values = Vec::new();
        while let Some(Queued(Decoded(_, value, _))) = rx.recv().await {
            values.push(value);
        }
        assert_eq!(values, (0..64).collect::<Vec<u32>>());
    });
}

#[test]
fn decode_backpressure_limits_raw_receives() {
    let mut receiver = WrappedBackgroundReceiver::new(2);
    assert_eq!(receiver.wait(), Wait::Either);
    assert_eq!(receiver.run(Event::Received), Wait::Either);
    assert_eq!(receiver.run(Event::Received), Wait::Completion);
    assert_eq!(receiver.in_flight(), 2);
    assert_eq!(receiver.run(Event::Completed), Wait::Either);
    assert_eq!(receiver.run(Event::Closed), Wait::Completion);
    assert_eq!(receiver.run(Event::Completed), Wait::Done);
}

#[test]
fn loop_without_messages_is_done_once_closed() {
    let mut receiver = WrappedBackgroundReceiver::new(1);
    assert_eq!(receiver.run(Event::Closed), Wait::Done);
    assert_eq!(receiver.in_flight(), 0);
}

#[test]
fn markers_follow_a_message_to_the_consumer() {
    deterministic::Runner::default().start(|context| async move {
        let (tx, mut rx) = new_unreliable(context.child("bg"), nz(1));
        let mut consumer = Consumer::new(tx);
        consumer.run(
            1,
            vec![
                (pk(0), 7u32.encode().to_vec(), Some(5)),
                (pk(0), vec![1], Some(6)),
                (pk(0), 8u32.encode().to_vec(), Some(0)),
            ],
        );
        let Queued(message) = rx.recv().await.unwrap();
        let mut trail = consumer.trail;
        assert_eq!(message.deliver(&mut trail), (pk(0), 7));
        let result = |id: u64, accepted: u64| Marker {
            accepted: Some(accepted),
            ..Marker::received("message_decode_result", id)
        };
        let start = |queue_id: u64, id: u64| Marker {
            queue_id: Some(queue_id),
            message_id: Some(0),
            ..Marker::received("message_decoded_queue_start", id)
        };
        let queued = |queue_id: u64, id: u64, accepted: u64| Marker {
            queue_id: Some(queue_id),
            accepted: Some(accepted),
            ..Marker::received("message_decoded_queue", id)
        };
        assert_eq!(
            trail.into_markers(),
            vec![
                Marker::received("message_decode", 5),
                result(5, 1),
                start(1, 5),
                queued(1, 5, 1),
                Marker::received("message_decode", 6),
                result(6, 0),
                Marker::received("message_decode", 0),
                result(0, 1),
                start(2, 0),
                queued(2, 0, 0),
                Marker::received("message_delivered", 5),
            ]
        );
    });
}

#[test]
fn disabled_markers_leave_the_queue_id_out() {
    let mut ids = QueueIds::new();
    let mut trail = Trail::new();
    let result: DecodeResult = (pk(0), Ok(3), Some(9));
    let handled =
        WrappedBackgroundReceiver::handle_decode_result(result, false, &mut ids, &mut trail);
    assert!(matches!(handled, Handled::Forward { queue_id: None, message: Decoded(_, 3, Some(9)) }));
    assert_eq!(ids.next, 1);
    WrappedBackgroundReceiver::forwarded(None, Some(9), true, &mut trail);
    let markers = trail.into_markers();
    assert_eq!(markers.len(), 1);
    assert_eq!((markers[0].queue_id, markers[0].accepted), (Some(0), Some(1)));
}

#[test]
fn decodes_are_observed_under_their_identifier() {
    let mut trail = Trail::new();
    assert_eq!(Decoding::start(1u8, Some(12), &mut trail).observed_id(), 12);
    assert_eq!(Decoding::start(1u8, None, &mut trail).observed_id(), 0);
}
