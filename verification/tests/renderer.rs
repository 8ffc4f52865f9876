use auris_engine::renderer::{
    block_events, chase_notes, clip_span, continuation, partition_before, segment_frames,
    BlockEvent, ClipSpan, Retrigger, PITCH_COUNT,
};
use auris_engine::schedule::{NoteKind, ScheduledEvent};

fn on(frame: u64, pitch: u8) -> ScheduledEvent {
    ScheduledEvent {
        frame,
        kind: NoteKind::NoteOn { pitch },
    }
}

fn off(frame: u64, pitch: u8) -> ScheduledEvent {
    ScheduledEvent {
        frame,
        kind: NoteKind::NoteOff { pitch },
    }
}

#[test]
fn a_segment_is_bounded_by_the_block_and_the_loop_end() {
    assert_eq!(segment_frames(5_000, 128, true, None), 128);
    assert_eq!(segment_frames(100, 128, true, None), 100);
    assert_eq!(segment_frames(1_024, 1_024, true, Some(924)), 924);
    // A stopped transport is never split at the loop end.
    assert_eq!(segment_frames(512, 512, false, Some(1)), 512);
    // Standing on the loop end still renders one frame rather than none.
    assert_eq!(segment_frames(512, 512, true, Some(0)), 1);
}

#[test]
fn the_search_finds_the_first_event_at_or_after_a_position() {
    let events = vec![on(0, 60), on(100, 62), off(100, 60), off(200, 62)];
    assert_eq!(partition_before(&events, 0), 0);
    assert_eq!(partition_before(&events, 100), 1);
    assert_eq!(partition_before(&events, 101), 3);
    assert_eq!(partition_before(&events, 1_000), 4);
}

#[test]
fn an_event_on_a_block_boundary_is_delivered_by_exactly_one_block() {
    let events = vec![on(24_000, 60), off(48_000, 60)];
    let first = block_events(&events, 23_488, 512, 16);
    let second = block_events(&events, 24_000, 512, 16);
    assert!(first.is_empty());
    assert_eq!(
        second,
        vec![BlockEvent {
            index: 0,
            offset: 0
        }]
    );
}

#[test]
fn a_segment_delivers_no_more_events_than_it_has_room_for() {
    let events: Vec<ScheduledEvent> = (0..10).map(|k| on(k * 10, 60)).collect();
    let picked = block_events(&events, 15, 50, 3);
    assert_eq!(
        picked,
        vec![
            BlockEvent {
                index: 2,
                offset: 5
            },
            BlockEvent {
                index: 3,
                offset: 15
            },
            BlockEvent {
                index: 4,
                offset: 25
            },
        ]
    );
}

#[test]
fn seeking_into_a_held_note_strikes_it_again_after_releasing_everything() {
    let events = vec![on(0, 60), on(100, 64), off(200, 60), off(300, 64)];
    assert_eq!(
        chase_notes(&events, 150, 16),
        vec![
            Retrigger::ReleaseAll,
            Retrigger::Strike {
                pitch: 60,
                source: 0
            },
            Retrigger::Strike {
                pitch: 64,
                source: 1
            },
        ]
    );
    // Past the end of both notes, only the release goes out.
    assert_eq!(chase_notes(&events, 400, 16), vec![Retrigger::ReleaseAll]);
}

#[test]
fn overlapping_notes_of_one_pitch_are_all_brought_back() {
    let events = vec![on(0, 60), on(50, 60), off(200, 60), off(300, 60)];
    assert_eq!(
        chase_notes(&events, 100, 16),
        vec![
            Retrigger::ReleaseAll,
            Retrigger::Strike {
                pitch: 60,
                source: 1
            },
            Retrigger::Strike {
                pitch: 60,
                source: 1
            },
        ]
    );
}

#[test]
fn an_all_notes_off_ends_everything_that_was_held() {
    let events = vec![
        on(0, 60),
        ScheduledEvent {
            frame: 10,
            kind: NoteKind::AllNotesOff,
        },
        on(20, 62),
    ];
    assert_eq!(
        chase_notes(&events, 30, 16),
        vec![
            Retrigger::ReleaseAll,
            Retrigger::Strike {
                pitch: 62,
                source: 2
            },
        ]
    );
}

#[test]
fn a_chase_stops_when_the_event_buffer_is_full() {
    let events = vec![on(0, 60), on(0, 61), on(0, 62)];
    assert_eq!(chase_notes(&events, 10, 2).len(), 2);
    assert_eq!(chase_notes(&events, 10, 1), vec![Retrigger::ReleaseAll]);
    assert_eq!(PITCH_COUNT, 128);
}

#[test]
fn a_jump_is_chased_and_a_continuation_is_not() {
    assert_eq!(continuation(true, None, 0, 512), (true, Some(512)));
    assert_eq!(continuation(true, Some(512), 512, 512), (false, Some(1_024)));
    assert_eq!(continuation(true, Some(512), 48_000, 512), (true, Some(48_512)));
    assert_eq!(continuation(false, Some(512), 512, 512), (false, None));
}

#[test]
fn a_clip_lands_on_its_timeline_position() {
    // A 1000-frame clip at 24000, heard through a 512-frame block at 23999.
    assert_eq!(
        clip_span(24_000, 1_000, 0, 1_000, 23_999, 512),
        Some(ClipSpan {
            destination_start: 1,
            source_start: 0,
            count: 511,
            into_clip: 0
        })
    );
    // The block that covers its end takes only what is left.
    assert_eq!(
        clip_span(24_000, 1_000, 0, 1_000, 24_900, 512),
        Some(ClipSpan {
            destination_start: 0,
            source_start: 900,
            count: 100,
            into_clip: 900
        })
    );
    // Before and after it, nothing.
    assert_eq!(clip_span(24_000, 1_000, 0, 1_000, 20_000, 512), None);
    assert_eq!(clip_span(24_000, 1_000, 0, 1_000, 25_000, 512), None);
}

#[test]
fn a_trimmed_clip_reads_from_its_offset_and_stops_where_the_source_does() {
    assert_eq!(
        clip_span(0, 1_000, 900, 950, 0, 512),
        Some(ClipSpan {
            destination_start: 0,
            source_start: 900,
            count: 50,
            into_clip: 0
        })
    );
    assert_eq!(clip_span(0, 1_000, 960, 950, 0, 512), None);
}
