# lifecycle

State and rules for tracking messages, blocks and tasks through a replicated
service, verified with Verus.

- `src/decoded.rs`: a bounded first-in, first-out cache of decoded blocks.
- `src/delivery.rs`: reuse of a cached block for delivered bytes, and deliveries that
  await the verification of their certificate.
- `src/lineage.rs`: markers by which messages are followed through queues.
- `src/codec.rs`: decoding of received messages, one at a time or in the background
  with a bound on the decodes in flight.
- `src/inflight.rs`: fetches in flight and the deliveries of their responses.
- `src/lifecycle_task.rs`: observation of the polls and wakes of selected tasks.
- `src/operation.rs`: a log of operation stages and closed spans.
- `src/types.rs`, `src/buffer.rs`, `src/sharing.rs`: heights, equality, byte buffers
  and shared values.

The library decides; `app/` performs. It holds the futures, locks, mailboxes, clocks
and spans, hands events to the library and does what the library answers. What is
assumed of other crates is marked `Trusted` where it is stated.
