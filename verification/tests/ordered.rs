use raknet_reorder::CodecError;
use raknet_reorder::Frame;
use raknet_reorder::FrameSet;
use raknet_reorder::OrderAnnotation;
use raknet_reorder::Packet;
use raknet_reorder::Reorder;

fn ordered_frame(channel: u8, frame_index: u32) -> Frame {
    Frame {
        flags: 0b011_11100,
        reliable_frame_index: None,
        seq_frame_index: None,
        ordered: Some(OrderAnnotation {
            frame_index,
            channel,
        }),
        body: Vec::new(),
    }
}

fn plain_frame(body: Vec<u8>) -> Frame {
    Frame {
        flags: 0b011_11100,
        reliable_frame_index: None,
        seq_frame_index: None,
        ordered: None,
        body,
    }
}

fn frame_set(idx: impl IntoIterator<Item = (u8, u32)>) -> Packet {
    Packet::FrameSet(FrameSet {
        seq_num: 0,
        frames: idx
            .into_iter()
            .map(|(channel, frame_index)| ordered_frame(channel, frame_index))
            .collect(),
    })
}

#[test]
fn test_ordered_works() {
    let mut ordered = Reorder::new(10);

    let first = ordered
        .process(frame_set([(0, 1), (0, 0), (0, 2), (0, 4), (0, 3)]))
        .unwrap();
    assert_eq!(
        first.unwrap(),
        frame_set([(0, 0), (0, 1), (0, 2), (0, 3), (0, 4)])
    );

    // channel 1's first-ever arrival has index 1 while 0 is expected: it is
    // buffered and nothing is emitted; the upstream then ends with the
    // frame never released.
    assert!(ordered.process(frame_set([(1, 1)])).unwrap().is_none());
}

#[test]
fn test_ordered_channel_exceed() {
    let mut ordered = Reorder::new(10);

    assert!(matches!(
        ordered.process(frame_set([(10, 1)])).unwrap_err(),
        CodecError::OrderedFrame { .. }
    ));
}

#[test]
fn channel_exceed_identifies_channel_and_limit() {
    let mut ordered = Reorder::new(10);
    let err = ordered.process(frame_set([(10, 1)])).unwrap_err();
    assert_eq!(
        err,
        CodecError::OrderedFrame {
            channel: 10,
            max_channels: 10
        }
    );
}

#[test]
fn permutation_across_batches_released_in_order() {
    let mut ordered = Reorder::new(4);

    // indices arrive as 3, 1, 0, 2 on channel 2, one per upstream batch
    assert!(ordered.process(frame_set([(2, 3)])).unwrap().is_none());
    assert!(ordered.process(frame_set([(2, 1)])).unwrap().is_none());
    assert_eq!(
        ordered.process(frame_set([(2, 0)])).unwrap().unwrap(),
        frame_set([(2, 0), (2, 1)])
    );
    assert_eq!(
        ordered.process(frame_set([(2, 2)])).unwrap().unwrap(),
        frame_set([(2, 2), (2, 3)])
    );
    assert_eq!(ordered.next_expected(2), 4);
    assert_eq!(ordered.pending_len(2), 0);
}

#[test]
fn stale_frame_is_discarded_silently() {
    let mut ordered = Reorder::new(2);

    ordered
        .process(frame_set([(0, 0), (0, 1)]))
        .unwrap()
        .unwrap();
    assert_eq!(ordered.next_expected(0), 2);

    // index 0 retransmitted: below next_expected, dropped without output
    // and without touching the channel state
    assert!(ordered.process(frame_set([(0, 0)])).unwrap().is_none());
    assert_eq!(ordered.next_expected(0), 2);
    assert_eq!(ordered.pending_len(0), 0);
}

#[test]
fn non_frame_set_packets_pass_through_unchanged() {
    let mut ordered = Reorder::new(2);
    let packet = Packet::Other(vec![0xc0, 0x01, 0x02]);
    assert_eq!(
        ordered.process(packet.clone()).unwrap().unwrap(),
        packet
    );
}

#[test]
fn unannotated_frames_pass_through_unchanged() {
    let mut ordered = Reorder::new(2);
    let batch = Packet::FrameSet(FrameSet {
        seq_num: 9,
        frames: vec![plain_frame(vec![1, 2, 3]), plain_frame(vec![4])],
    });
    assert_eq!(ordered.process(batch.clone()).unwrap().unwrap(), batch);
    assert_eq!(ordered.next_expected(0), 0);
    assert_eq!(ordered.pending_len(0), 0);
}

#[test]
fn rerunning_unannotated_traffic_reproduces_it_batch_for_batch() {
    let batches = vec![
        Packet::FrameSet(FrameSet {
            seq_num: 0,
            frames: vec![plain_frame(vec![1]), plain_frame(vec![2, 2])],
        }),
        Packet::Other(vec![7, 7, 7]),
        Packet::FrameSet(FrameSet {
            seq_num: 1,
            frames: vec![plain_frame(Vec::new())],
        }),
    ];
    for _run in 0..2 {
        let mut ordered = Reorder::new(3);
        for batch in &batches {
            assert_eq!(
                ordered.process(batch.clone()).unwrap().unwrap(),
                batch.clone()
            );
        }
    }
}

#[test]
fn batch_of_only_early_frames_emits_nothing() {
    let mut ordered = Reorder::new(2);
    assert!(ordered
        .process(frame_set([(0, 5), (0, 7), (1, 3)]))
        .unwrap()
        .is_none());
    assert_eq!(ordered.pending_len(0), 2);
    assert_eq!(ordered.pending_len(1), 1);
    assert_eq!(ordered.next_expected(0), 0);
}

#[test]
fn mixed_batch_keeps_scan_order_and_drains() {
    let mut ordered = Reorder::new(2);
    // ordered index 1 is early (buffered), a plain frame passes, then
    // index 0 releases itself and drains index 1 behind it
    let batch = Packet::FrameSet(FrameSet {
        seq_num: 5,
        frames: vec![
            ordered_frame(0, 1),
            plain_frame(vec![9]),
            ordered_frame(0, 0),
        ],
    });
    let expected = Packet::FrameSet(FrameSet {
        seq_num: 5,
        frames: vec![
            plain_frame(vec![9]),
            ordered_frame(0, 0),
            ordered_frame(0, 1),
        ],
    });
    assert_eq!(ordered.process(batch).unwrap().unwrap(), expected);
}

#[test]
fn frame_bodies_ride_along_untouched() {
    let mut ordered = Reorder::new(1);
    let mut early = ordered_frame(0, 1);
    early.body = vec![0xde, 0xad];
    let mut now = ordered_frame(0, 0);
    now.body = vec![0xbe, 0xef];
    let batch = Packet::FrameSet(FrameSet {
        seq_num: 3,
        frames: vec![early.clone(), now.clone()],
    });
    let expected = Packet::FrameSet(FrameSet {
        seq_num: 3,
        frames: vec![now, early],
    });
    assert_eq!(ordered.process(batch).unwrap().unwrap(), expected);
}

#[test]
fn construction_starts_every_channel_at_zero() {
    let ordered = Reorder::new(5);
    assert_eq!(ordered.max_channels(), 5);
    for channel in 0..5u8 {
        assert_eq!(ordered.next_expected(channel), 0);
        assert_eq!(ordered.pending_len(channel), 0);
    }
}
