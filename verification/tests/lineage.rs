use lifecycle::lineage::{queue_start, Marker, QueueIds, Trail};

#[test]
fn queue_lineage_distinguishes_fanout_and_disabled_capture() {
    let mut ids = QueueIds::new();
    let mut trail = Trail::new();
    let stage = "message_peer_queue_start";
    let first = queue_start(stage, Some(7), None, true, &mut ids, &mut trail).unwrap();
    let second = queue_start(stage, Some(7), None, true, &mut ids, &mut trail).unwrap();
    let received = queue_start(
        "message_inbound_queue_start",
        None,
        Some(7),
        true,
        &mut ids,
        &mut trail,
    )
    .unwrap();
    assert_ne!(first, 0);
    assert_ne!(first, second);
    assert_ne!(second, received);
    assert_eq!(queue_start(stage, None, None, true, &mut ids, &mut trail), None);
    assert_eq!(queue_start(stage, Some(7), None, false, &mut ids, &mut trail), None);
    let markers = trail.into_markers();
    assert_eq!(markers.len(), 3);
    assert_eq!(
        markers[0],
        Marker {
            stage,
            queue_id: Some(1),
            message_id: Some(7),
            receive_id: Some(0),
            accepted: None,
        }
    );
    assert_eq!(
        markers[2],
        Marker {
            stage: "message_inbound_queue_start",
            queue_id: Some(3),
            message_id: Some(0),
            receive_id: Some(7),
            accepted: None,
        }
    );
}

#[test]
fn exhausted_queue_ids_are_not_reused() {
    let mut ids = QueueIds { next: u64::MAX - 1 };
    let mut trail = Trail::new();
    let last = queue_start("stage", Some(1), Some(2), true, &mut ids, &mut trail);
    assert_eq!(last, Some(u64::MAX - 1));
    assert_eq!(queue_start("stage", Some(1), Some(2), true, &mut ids, &mut trail), None);
    assert_eq!(ids.next, u64::MAX);
    assert_eq!(trail.into_markers().len(), 1);
}
