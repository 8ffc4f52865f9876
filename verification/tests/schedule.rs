use auris_engine::schedule::{
    event_rank, max_events_in_window, max_sounding_notes, schedule_note, sort_events,
    trim_clip, NoteKind, ScheduledEvent,
};

fn event(frame: u64, kind: NoteKind) -> ScheduledEvent {
    ScheduledEvent { frame, kind }
}

#[test]
fn schedule_the_sounding_bound_ignores_notes_that_never_overlap() {
    let events: Vec<ScheduledEvent> = [
        (0u64, 60u8, true),
        (10, 60, false),
        (20, 62, true),
        (30, 62, false),
    ]
    .into_iter()
    .map(|(frame, pitch, on)| ScheduledEvent {
        frame,
        kind: if on {
            NoteKind::NoteOn { pitch }
        } else {
            NoteKind::NoteOff { pitch }
        },
    })
    .collect();
    assert_eq!(max_sounding_notes(&events), 1);
    assert_eq!(max_sounding_notes(&Vec::new()), 0);
}

#[test]
fn schedule_window_bound_counts_the_densest_run() {
    let events: Vec<ScheduledEvent> = [0u64, 10, 20, 30, 500, 505]
        .into_iter()
        .map(|frame| ScheduledEvent {
            frame,
            kind: NoteKind::AllNotesOff,
        })
        .collect();
    assert_eq!(max_events_in_window(&events, 100), 4);
    assert_eq!(max_events_in_window(&events, 11), 2);
    assert_eq!(max_events_in_window(&Vec::new(), 512), 0);
}

#[test]
fn schedule_audio_clips_are_clamped_to_the_source_length() {
    assert_eq!(trim_clip(false, 900, 500, 1_000), Some((900, 100)));
}

#[test]
fn a_muted_or_empty_clip_plays_nothing() {
    assert_eq!(trim_clip(true, 0, 500, 1_000), None);
    assert_eq!(trim_clip(false, 1_200, 500, 1_000), None);
    assert_eq!(trim_clip(false, 0, 0, 1_000), None);
}

#[test]
fn a_release_goes_before_a_strike_on_the_same_frame() {
    let mut events = vec![
        event(100, NoteKind::NoteOn { pitch: 60 }),
        event(100, NoteKind::PitchBend),
        event(100, NoteKind::NoteOff { pitch: 60 }),
        event(50, NoteKind::Modulation),
    ];
    sort_events(&mut events);
    assert_eq!(
        events,
        vec![
            event(50, NoteKind::Modulation),
            event(100, NoteKind::NoteOff { pitch: 60 }),
            event(100, NoteKind::PitchBend),
            event(100, NoteKind::NoteOn { pitch: 60 }),
        ]
    );
    assert_eq!(event_rank(&NoteKind::AllSoundOff), 0);
    assert_eq!(event_rank(&NoteKind::Modulation), 1);
    assert_eq!(event_rank(&NoteKind::NoteOn { pitch: 1 }), 2);
}

#[test]
fn sorting_keeps_equal_events_in_the_order_they_came() {
    let mut events = vec![
        event(10, NoteKind::NoteOn { pitch: 64 }),
        event(10, NoteKind::NoteOn { pitch: 60 }),
        event(0, NoteKind::NoteOn { pitch: 62 }),
    ];
    sort_events(&mut events);
    assert_eq!(
        events,
        vec![
            event(0, NoteKind::NoteOn { pitch: 62 }),
            event(10, NoteKind::NoteOn { pitch: 64 }),
            event(10, NoteKind::NoteOn { pitch: 60 }),
        ]
    );
}

#[test]
fn overlapping_notes_of_one_pitch_both_count_as_sounding() {
    let events = vec![
        event(0, NoteKind::NoteOn { pitch: 60 }),
        event(10, NoteKind::NoteOn { pitch: 60 }),
        event(20, NoteKind::NoteOff { pitch: 60 }),
        event(30, NoteKind::NoteOff { pitch: 60 }),
    ];
    assert_eq!(max_sounding_notes(&events), 2);
}

#[test]
fn a_note_always_lasts_at_least_one_frame() {
    let (on, off) = schedule_note(60, 1_000, 1_000);
    assert_eq!(on, event(1_000, NoteKind::NoteOn { pitch: 60 }));
    assert_eq!(off, event(1_001, NoteKind::NoteOff { pitch: 60 }));
    let (_, off) = schedule_note(60, 1_000, 25_000);
    assert_eq!(off.frame, 25_000);
}
