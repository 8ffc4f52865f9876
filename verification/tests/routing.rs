use auris_engine::latency::RouteNode;
use auris_engine::routing::{
    bus_tracks, end_frame, event_capacity, find_bus_slot, is_audible, route_tracks,
    SourceExtent, TrackLayout, AUDITION_HEADROOM, CHASE_HEADROOM,
};
use auris_engine::schedule::{NoteKind, ScheduledEvent};

fn layout(id: u64, is_bus: bool, output: Option<u64>, sends: Vec<u64>) -> TrackLayout {
    TrackLayout {
        id,
        is_bus,
        output,
        sends,
    }
}

fn project() -> Vec<TrackLayout> {
    vec![
        layout(10, false, Some(30), vec![40, 20]),
        layout(20, false, None, vec![]),
        layout(30, true, None, vec![40]),
        layout(40, true, Some(99), vec![]),
    ]
}

#[test]
fn buses_get_slots_in_the_order_they_appear() {
    let tracks = project();
    assert_eq!(bus_tracks(&tracks), vec![2, 3]);
    assert_eq!(find_bus_slot(&tracks, 30), Some(0));
    assert_eq!(find_bus_slot(&tracks, 40), Some(1));
    assert_eq!(find_bus_slot(&tracks, 20), None);
    assert_eq!(find_bus_slot(&tracks, 99), None);
}

#[test]
fn outputs_and_sends_are_addressed_by_bus_slot() {
    let nodes = route_tracks(&project());
    assert_eq!(
        nodes,
        vec![
            RouteNode {
                output: Some(0),
                sends: vec![1],
                is_bus: false
            },
            RouteNode {
                output: None,
                sends: vec![],
                is_bus: false
            },
            RouteNode {
                output: None,
                sends: vec![1],
                is_bus: true
            },
            // An output naming a track that is not there goes to the master.
            RouteNode {
                output: None,
                sends: vec![],
                is_bus: true
            },
        ]
    );
}

#[test]
fn tracks_the_solo_resolution_does_not_cover_are_heard() {
    let solo = vec![true, false];
    assert!(is_audible(&solo, 0));
    assert!(!is_audible(&solo, 1));
    assert!(is_audible(&solo, 5));
}

#[test]
fn the_event_buffer_is_sized_for_the_densest_block_and_the_chase() {
    let events = vec![
        ScheduledEvent {
            frame: 0,
            kind: NoteKind::NoteOn { pitch: 60 },
        },
        ScheduledEvent {
            frame: 10,
            kind: NoteKind::NoteOn { pitch: 60 },
        },
        ScheduledEvent {
            frame: 2_000,
            kind: NoteKind::NoteOff { pitch: 60 },
        },
        ScheduledEvent {
            frame: 2_010,
            kind: NoteKind::NoteOff { pitch: 60 },
        },
    ];
    assert_eq!(
        event_capacity(&events, 512),
        2 + AUDITION_HEADROOM + 2 + CHASE_HEADROOM
    );
}

#[test]
fn the_arrangement_ends_where_its_latest_material_does() {
    let sources = vec![
        SourceExtent::Instrument {
            events: vec![ScheduledEvent {
                frame: 48_000,
                kind: NoteKind::NoteOff { pitch: 60 },
            }],
        },
        SourceExtent::Audio {
            clips: vec![(24_000, 1_000), (90_000, 6_000)],
        },
        SourceExtent::Bus,
        SourceExtent::Silence,
    ];
    assert_eq!(end_frame(&sources), 96_000);
    assert_eq!(end_frame(&vec![SourceExtent::Bus]), 0);
}
