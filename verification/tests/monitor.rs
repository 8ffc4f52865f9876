use auris_engine::monitor::{
    admits_block, monitor_pair, pack_source, plan_read, plan_write, planned_capacity_frames, reader_step, ReaderState,
    ring_frames_for, seat, slot_frame, unpack_source, unread_frames, Seat, WriteDecision,
    MAX_RING_FRAMES, NOT_STARTED, TARGET_BLOCKS,
};

#[test]
fn the_drift_policy_answers_each_case_on_its_own() {
    const CAPACITY: u64 = 1_024;
    const NEED: u64 = 65;
    const TARGET: u64 = NEED * TARGET_BLOCKS;

    assert_eq!(seat(NOT_STARTED, 0, NEED, TARGET, CAPACITY), Seat::Wait);
    assert_eq!(
        seat(NOT_STARTED, TARGET - 1, NEED, TARGET, CAPACITY),
        Seat::Wait
    );
    assert_eq!(
        seat(NOT_STARTED, TARGET, NEED, TARGET, CAPACITY),
        Seat::Reseat(0)
    );
    assert_eq!(
        seat(NOT_STARTED, 500, NEED, TARGET, CAPACITY),
        Seat::Reseat(500 - TARGET)
    );
    assert_eq!(seat(300, 500, NEED, TARGET, CAPACITY), Seat::Play);
    assert_eq!(seat(500 - NEED, 500, NEED, TARGET, CAPACITY), Seat::Play);
    assert_eq!(
        seat(500 - NEED + 1, 500, NEED, TARGET, CAPACITY),
        Seat::Wait
    );
    assert_eq!(
        seat(10, 10 + TARGET * 2 + 1, NEED, TARGET, CAPACITY),
        Seat::Reseat(10 + TARGET * 2 + 1 - TARGET)
    );
    assert_eq!(
        seat(10, 10 + TARGET * 2, NEED, TARGET, CAPACITY),
        Seat::Play
    );
    match seat(490, 500, NEED, TARGET, CAPACITY) {
        Seat::Reseat(at) => assert!(at >= 490, "it re-seated back to {at}"),
        other => assert_eq!(other, Seat::Wait),
    }
}

#[test]
fn the_pair_the_monitor_takes_starts_where_it_was_pointed() {
    assert_eq!(monitor_pair(0, 2, 2), Some((0, 1)));
    assert_eq!(monitor_pair(2, 2, 8), Some((2, 3)));
    assert_eq!(monitor_pair(0, 2, 1), Some((0, 0)));
    assert_eq!(monitor_pair(2, 2, 3), Some((2, 2)));
    assert_eq!(monitor_pair(2, 1, 8), Some((2, 2)));
    assert_eq!(monitor_pair(2, 2, 2), None);
    assert_eq!(monitor_pair(0, 2, 0), None);
}

#[test]
fn a_re_seated_reader_never_lands_behind_where_it_was() {
    // The recovery after a stall: the live edge is ahead, so it jumps there.
    assert_eq!(seat(100, 2_000, 64, 192, 4_096), Seat::Reseat(2_000 - 192));
    // Behind the target but ahead of the reader: it stays at its own position.
    assert_eq!(seat(1_900, 2_000, 64, 192, 4_096), Seat::Play);
}

#[test]
fn the_unread_part_is_counted_from_the_generation_before_the_first_read() {
    assert_eq!(unread_frames(NOT_STARTED, 1_000, 400), 600);
    assert_eq!(unread_frames(900, 1_000, 400), 100);
    assert_eq!(unread_frames(1_200, 1_000, 0), 0);
}

#[test]
fn a_block_is_admitted_only_while_it_neither_spans_nor_laps_the_ring() {
    assert!(admits_block(100, 800, 1_024));
    assert!(!admits_block(100, 924, 1_024));
    assert!(!admits_block(1_024, 0, 1_024));
    assert!(!admits_block(10, u64::MAX, 1_024));
}

#[test]
fn a_slot_wraps_round_the_ring() {
    assert_eq!(slot_frame(1_000, 30, 1_024), 6);
    assert_eq!(slot_frame(u64::MAX, 1, 1_024), (u64::MAX % 1_024 + 1) % 1_024);
}

#[test]
fn the_writer_publishes_drops_or_waits_for_a_claim() {
    // Nothing to write.
    assert_eq!(plan_write(0, 500, false, NOT_STARTED, 400, 0, 1_024), WriteDecision::Skip);
    // A reader mid-claim that has not published where it is.
    assert_eq!(
        plan_write(64, 500, true, NOT_STARTED, 400, 0, 1_024),
        WriteDecision::Skip
    );
    // Room behind the reader.
    assert_eq!(
        plan_write(64, 500, false, 0, 400, 0, 1_024),
        WriteDecision::Publish { written: 564 }
    );
    // Lapping an idle reader asks for a fresh seat; lapping an active one does not.
    assert_eq!(
        plan_write(64, 1_400, false, 0, 400, 0, 1_024),
        WriteDecision::Overflow { reseat: true }
    );
    assert_eq!(
        plan_write(64, 1_400, true, 400, 0, 0, 1_024),
        WriteDecision::Overflow { reseat: false }
    );
}

#[test]
fn the_reader_refuses_a_block_the_ring_cannot_hold() {
    assert_eq!(plan_read(2_000, 192, 1_024, 100, 1_000, 0), Seat::Wait);
    assert_eq!(plan_read(64, 192, 1_024, NOT_STARTED, 250, 100), Seat::Wait);
    assert_eq!(plan_read(64, 192, 1_024, NOT_STARTED, 400, 100), Seat::Reseat(208));
    assert_eq!(plan_read(64, 192, 1_024, 300, 500, 0), Seat::Play);
}

#[test]
fn a_ring_is_the_smallest_power_of_two_that_holds_the_frames() {
    assert_eq!(ring_frames_for(1), Some(1));
    assert_eq!(ring_frames_for(1_000), Some(1_024));
    assert_eq!(ring_frames_for(1_024), Some(1_024));
    assert_eq!(ring_frames_for(MAX_RING_FRAMES), Some(MAX_RING_FRAMES));
    assert_eq!(ring_frames_for(MAX_RING_FRAMES + 1), None);
}

#[test]
fn a_source_survives_being_packed_into_one_word() {
    assert_eq!(unpack_source(pack_source(2, 1)), (2, 1));
    assert_eq!(unpack_source(pack_source(0, 2)), (0, 2));
}

#[test]
fn a_planned_ring_covers_the_baseline_the_rate_and_the_policy() {
    assert_eq!(planned_capacity_frames(65, 195, 0), Some(16_384));
    assert_eq!(planned_capacity_frames(65, 195, 40_000), Some(65_536));
    assert_eq!(planned_capacity_frames(10_000, 20_000, 0), Some(65_536));
    assert_eq!(planned_capacity_frames(0, u64::MAX, 0), None);
    assert_eq!(planned_capacity_frames(0, 0, 2_000_000), None);
}

#[test]
fn a_new_generation_starts_the_reader_over_and_only_a_heard_gap_counts() {
    let playing = ReaderState {
        read: 100,
        reader_start: 0,
        generation: 1,
        rebuffers: 0,
    };
    // Far behind the writer: re-seated, and that is a gap somebody heard.
    let (after, answer) = reader_step(playing, 1, 0, 64, 192, 4_096, 2_000);
    assert_eq!(answer, Seat::Reseat(2_000 - 192));
    assert_eq!(after.rebuffers, 1);
    assert_eq!(after.read, 100);
    // Monitoring switched on again: the reader starts over from the new generation's start and
    // its first seat is no gap.
    let (after, answer) = reader_step(playing, 2, 1_500, 64, 192, 4_096, 2_000);
    assert_eq!(after.read, NOT_STARTED);
    assert_eq!(after.reader_start, 1_500);
    assert_eq!(after.generation, 2);
    assert_eq!(answer, Seat::Reseat(2_000 - 192));
    assert_eq!(after.rebuffers, 0);
    // Not yet a whole target since the generation began: wait.
    let (_, answer) = reader_step(playing, 2, 1_900, 64, 192, 4_096, 2_000);
    assert_eq!(answer, Seat::Wait);
}
