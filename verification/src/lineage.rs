//! Submission markers of messages; ordinals never enter encoded messages.

use vstd::prelude::*;

verus! {

/// What became of a message, in the form that a collector admits.
#[derive(Clone, Copy, Debug, PartialEq, Eq)]
pub struct Marker {
    pub stage: &'static str,
    pub queue_id: Option<u64>,
    pub message_id: Option<u64>,
    pub receive_id: Option<u64>,
    pub accepted: Option<u64>,
}

impl Marker {
    /// The marker of a received message at a stage.
    pub open spec fn spec_received(stage: &'static str, receive_id: u64) -> Marker {
        Marker {
            stage,
            queue_id: None,
            message_id: None,
            receive_id: Some(receive_id),
            accepted: None,
        }
    }

    /// Returns the marker of a received message at a stage.
    pub fn received(stage: &'static str, receive_id: u64) -> (marker: Marker)
        ensures
            marker == Marker::spec_received(stage, receive_id),
    {
        Marker {
            stage,
            queue_id: None,
            message_id: None,
            receive_id: Some(receive_id),
            accepted: None,
        }
    }
}

/// Collects markers, in the order in which they are to be published.
pub struct Trail {
    markers: Vec<Marker>,
}

impl View for Trail {
    type V = Seq<Marker>;

    closed spec fn view(&self) -> Seq<Marker> {
        self.markers@
    }
}

impl Trail {
    /// Returns a trail without markers.
    pub fn new() -> (trail: Self)
        ensures
            trail@ == Seq::<Marker>::empty(),
    {
        Trail { markers: Vec::new() }
    }

    /// Adds a marker.
    pub fn mark(&mut self, marker: Marker)
        ensures
            final(self)@ == old(self)@.push(marker),
    {
        self.markers.push(marker);
    }

    /// Hands out the markers, in order.
    pub fn into_markers(self) -> (markers: Vec<Marker>)
        ensures
            markers@ == self@,
    {
        self.markers
    }
}

/// The queue identifiers that are still to be given out.
#[derive(Debug)]
pub struct QueueIds {
    pub next: u64,
}

impl QueueIds {
    /// A submission that can be traced to a message gets an identifier, while
    /// markers are collected and identifiers last.
    pub open spec fn assigns(
        self,
        enabled: bool,
        message_id: Option<u64>,
        receive_id: Option<u64>,
    ) -> bool {
        enabled && (message_id is Some || receive_id is Some) && self.next < u64::MAX
    }

    /// The identifiers that are left after a submission.
    pub open spec fn after(
        self,
        enabled: bool,
        message_id: Option<u64>,
        receive_id: Option<u64>,
    ) -> QueueIds {
        if self.assigns(enabled, message_id, receive_id) {
            QueueIds { next: (self.next + 1) as u64 }
        } else {
            self
        }
    }

    /// Returns all queue identifiers.
    pub fn new() -> (ids: Self)
        ensures
            ids.next == 1,
    {
        QueueIds { next: 1 }
    }
}

/// The number, or zero where there is none.
pub open spec fn or_zero(id: Option<u64>) -> u64 {
    match id {
        Some(id) => id,
        None => 0,
    }
}

/// Marks the submission of a message to a queue, and returns the identifier of the
/// submission. There is neither where the message cannot be traced, where markers
/// are not `enabled`, or where the identifiers are exhausted.
pub fn queue_start(
    stage: &'static str,
    message_id: Option<u64>,
    receive_id: Option<u64>,
    enabled: bool,
    ids: &mut QueueIds,
    trail: &mut Trail,
) -> (queue_id: Option<u64>)
    ensures
        *final(ids) == old(ids).after(enabled, message_id, receive_id),
        old(ids).assigns(enabled, message_id, receive_id) ==> {
            &&& queue_id == Some(old(ids).next)
            &&& final(trail)@ == old(trail)@.push(
                Marker {
                    stage,
                    queue_id: Some(old(ids).next),
                    message_id: Some(or_zero(message_id)),
                    receive_id: Some(or_zero(receive_id)),
                    accepted: None,
                },
            )
        },
        !old(ids).assigns(enabled, message_id, receive_id) ==> {
            &&& queue_id is None
            &&& final(trail)@ == old(trail)@
        },
{
    if (message_id.is_none() && receive_id.is_none()) || !enabled {
        return None;
    }
    let queue_id: u64 = ids.next;
    match queue_id.checked_add(1) {
        None => None,
        Some(next) => {
            ids.next = next;
            trail.mark(
                Marker {
                    stage,
                    queue_id: Some(queue_id),
                    message_id: Some(message_id.unwrap_or(0)),
                    receive_id: Some(receive_id.unwrap_or(0)),
                    accepted: None,
                },
            );
            Some(queue_id)
        },
    }
}

/// A submission: whether markers are collected, and what it can be traced to.
pub ghost struct Submission {
    pub enabled: bool,
    pub message_id: Option<u64>,
    pub receive_id: Option<u64>,
}

impl QueueIds {
    /// The identifiers that are left after the submissions, in order.
    pub open spec fn after_all(self, submissions: Seq<Submission>) -> QueueIds
        decreases submissions.len(),
    {
        if submissions.len() == 0 {
            self
        } else {
            let last = submissions.last();
            self.after_all(submissions.drop_last()).after(
                last.enabled,
                last.message_id,
                last.receive_id,
            )
        }
    }

    /// The identifiers of the submissions that get one, in order.
    pub open spec fn assigned(self, submissions: Seq<Submission>) -> Seq<u64>
        decreases submissions.len(),
    {
        if submissions.len() == 0 {
            seq![]
        } else {
            let before = self.after_all(submissions.drop_last());
            let last = submissions.last();
            if before.assigns(last.enabled, last.message_id, last.receive_id) {
                self.assigned(submissions.drop_last()).push(before.next)
            } else {
                self.assigned(submissions.drop_last())
            }
        }
    }
}

/// How many of the submissions are made while markers are collected and can be traced to
/// a message, sent or received.
pub open spec fn traced(submissions: Seq<Submission>) -> nat {
    submissions.filter(
        |submission: Submission|
            submission.enabled && (submission.message_id is Some || submission.receive_id is Some),
    ).len()
}

/// As long as identifiers last, every submission that can be traced gets one, in turn and
/// without gaps, and none else does.
pub proof fn law_traced_submissions_are_numbered(ids: QueueIds, submissions: Seq<Submission>)
    requires
        ids.next + submissions.len() <= u64::MAX,
    ensures
        traced(submissions) <= submissions.len(),
        ids.after_all(submissions).next == ids.next + traced(submissions),
        ids.assigned(submissions).len() == traced(submissions),
        forall|i: int|
            0 <= i < ids.assigned(submissions).len() ==> #[trigger] ids.assigned(submissions)[i]
                == ids.next + i,
    decreases submissions.len(),
{
    reveal(Seq::filter);
    if submissions.len() > 0 {
        law_traced_submissions_are_numbered(ids, submissions.drop_last());
    }
}

/// Once the last identifier but one is given out, none is any more, and the count stays.
pub proof fn law_exhausted_identifiers_stay_so(ids: QueueIds, submissions: Seq<Submission>)
    requires
        ids.next == u64::MAX,
    ensures
        ids.after_all(submissions) == ids,
        ids.assigned(submissions) == Seq::<u64>::empty(),
    decreases submissions.len(),
{
    if submissions.len() > 0 {
        law_exhausted_identifiers_stay_so(ids, submissions.drop_last());
    }
}

/// A single submission gets an identifier exactly if markers are collected, it can be
/// traced to a sent or a received message, and identifiers last.
pub proof fn law_submission_is_numbered_if_traced(
    ids: QueueIds,
    enabled: bool,
    message_id: Option<u64>,
    receive_id: Option<u64>,
)
    ensures
        enabled && message_id is Some && ids.next < u64::MAX ==> ids.assigns(
            enabled,
            message_id,
            receive_id,
        ),
        enabled && receive_id is Some && ids.next < u64::MAX ==> ids.assigns(
            enabled,
            message_id,
            receive_id,
        ),
        ids.assigns(enabled, message_id, receive_id) ==> {
            &&& enabled
            &&& message_id is Some || receive_id is Some
            &&& ids.after(enabled, message_id, receive_id).next == ids.next + 1
        },
        !ids.assigns(enabled, message_id, receive_id) ==> ids.after(enabled, message_id, receive_id)
            == ids,
{
}

/// A marker of a received message carries its stage and its identifier alone, and an
/// identifier that is absent is marked as zero.
pub proof fn law_received_marker_carries_its_identifier(
    stage: &'static str,
    receive_id: u64,
    id: Option<u64>,
)
    ensures
        Marker::spec_received(stage, receive_id).stage == stage,
        Marker::spec_received(stage, receive_id).receive_id == Some(receive_id),
        Marker::spec_received(stage, receive_id).queue_id is None,
        Marker::spec_received(stage, receive_id).message_id is None,
        Marker::spec_received(stage, receive_id).accepted is None,
        id is None ==> or_zero(id) == 0,
        id is Some ==> Some(or_zero(id)) == id,
{
}

/// Queue identifiers are positive and increase with every submission that gets one,
/// so that submissions of the same message stay distinct.
pub proof fn law_queue_ids_are_distinct(ids: QueueIds, submissions: Seq<Submission>)
    requires
        1 <= ids.next,
    ensures
        ids.next <= ids.after_all(submissions).next,
        forall|i: int|
            0 <= i < ids.assigned(submissions).len() ==> 1 <= ids.next
                <= #[trigger] ids.assigned(submissions)[i] < ids.after_all(submissions).next,
        forall|i: int, j: int|
            0 <= i < j < ids.assigned(submissions).len() ==> ids.assigned(submissions)[i]
                < ids.assigned(submissions)[j],
    decreases submissions.len(),
{
    if submissions.len() > 0 {
        let earlier = submissions.drop_last();
        law_queue_ids_are_distinct(ids, earlier);
        let before = ids.after_all(earlier);
        let last = submissions.last();
        let assigned = ids.assigned(earlier);
        assert(ids.assigned(submissions) == (if before.assigns(
            last.enabled,
            last.message_id,
            last.receive_id,
        ) {
            assigned.push(before.next)
        } else {
            assigned
        }));
        assert(before.next <= ids.after_all(submissions).next);
    }
}

} // verus!
