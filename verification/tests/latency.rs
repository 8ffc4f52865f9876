use auris_engine::latency::{
    graph_tail_frames, latency_is_stale, plan_latency, LatencyDelay, RouteNode,
};

fn process(delay: &mut LatencyDelay<f32>, channels: Vec<Vec<f32>>) -> Vec<Vec<f32>> {
    let mut buffer = channels;
    delay.process(&mut buffer);
    buffer
}

#[test]
fn latency_a_delay_line_hands_samples_back_a_fixed_number_of_frames_later() {
    let mut delay = LatencyDelay::new(3, 2, 0.0f32);
    let buffer = process(&mut delay, vec![vec![1.0, 2.0, 3.0, 4.0]; 2]);
    assert_eq!(buffer[0], vec![0.0, 0.0, 0.0, 1.0]);
    assert_eq!(buffer[1], vec![0.0, 0.0, 0.0, 1.0]);

    let next = process(&mut delay, vec![vec![5.0, 6.0, 7.0, 8.0]; 2]);
    assert_eq!(next[0], vec![2.0, 3.0, 4.0, 5.0]);
}

#[test]
fn latency_a_delay_line_reads_the_same_however_the_blocks_are_cut() {
    let feed: Vec<f32> = (0..64).map(|index| index as f32).collect();
    let run = |block: usize| {
        let mut delay = LatencyDelay::new(7, 2, 0.0f32);
        let mut out = Vec::new();
        for chunk in feed.chunks(block) {
            let buffer = process(&mut delay, vec![chunk.to_vec(); 2]);
            out.extend_from_slice(&buffer[0]);
        }
        out
    };
    assert_eq!(run(64), run(5));
    assert_eq!(run(64), run(1));
}

#[test]
fn a_delay_of_nothing_passes_audio_straight_through() {
    let mut delay = LatencyDelay::new(0, 2, 0.0f32);
    assert_eq!(delay.frames(), 0);
    let buffer = process(&mut delay, vec![vec![1.0, 2.0]; 2]);
    assert_eq!(buffer, vec![vec![1.0, 2.0]; 2]);
}

#[test]
fn a_reset_delay_line_forgets_what_it_held() {
    let mut delay = LatencyDelay::new(2, 1, 0.0f32);
    process(&mut delay, vec![vec![1.0, 2.0, 3.0]]);
    delay.reset(0.0);
    let buffer = process(&mut delay, vec![vec![9.0, 9.0, 9.0]]);
    assert_eq!(buffer, vec![vec![0.0, 0.0, 9.0]]);
}

fn to_master() -> RouteNode {
    RouteNode {
        output: None,
        sends: Vec::new(),
        is_bus: false,
    }
}

#[test]
fn every_source_is_held_back_to_the_longest_chain() {
    let nodes = vec![to_master(), to_master()];
    let plan = plan_latency(&nodes, &Vec::new(), &vec![0, 1], &vec![100, 0], 10);
    assert_eq!(plan.total, 110);
    assert_eq!(plan.node, vec![0, 100]);
    assert_eq!(plan.edges, vec![vec![0], vec![0]]);
}

#[test]
fn a_bus_adds_its_own_latency_to_what_goes_through_it() {
    let nodes = vec![
        RouteNode {
            output: Some(0),
            sends: Vec::new(),
            is_bus: false,
        },
        to_master(),
        RouteNode {
            output: None,
            sends: Vec::new(),
            is_bus: true,
        },
    ];
    let plan = plan_latency(&nodes, &vec![2], &vec![0, 1, 2], &vec![50, 0, 20], 0);
    assert_eq!(plan.total, 70);
    assert_eq!(plan.node, vec![0, 70, 0]);
}

#[test]
fn a_send_is_held_back_to_the_longer_of_a_tracks_two_paths() {
    let nodes = vec![
        RouteNode {
            output: None,
            sends: vec![0],
            is_bus: false,
        },
        RouteNode {
            output: None,
            sends: Vec::new(),
            is_bus: true,
        },
    ];
    let plan = plan_latency(&nodes, &vec![1], &vec![0, 1], &vec![0, 30], 0);
    assert_eq!(plan.total, 30);
    // The dry output is held back to meet the send through the slower bus.
    assert_eq!(plan.edges[0], vec![30, 0]);
}

#[test]
fn the_longest_tail_along_the_routing_is_the_graphs_tail() {
    let nodes = vec![to_master(), to_master()];
    assert_eq!(graph_tail_frames(&nodes, &Vec::new(), &vec![0, 1], &vec![48_000, 100], 500), 48_500);
    assert_eq!(graph_tail_frames(&Vec::new(), &Vec::new(), &Vec::new(), &Vec::new(), 500), 500);
}

#[test]
fn a_nonsense_tail_saturates_instead_of_overflowing() {
    let nodes = vec![to_master()];
    assert_eq!(graph_tail_frames(&nodes, &Vec::new(), &vec![0], &vec![usize::MAX], 10), usize::MAX);
}

#[test]
fn compensation_is_stale_only_when_a_strip_moved() {
    assert!(!latency_is_stale(&vec![10, 0, 5], &vec![10, 0, 5]));
    assert!(latency_is_stale(&vec![10, 0, 5], &vec![0, 10, 5]));
    assert!(latency_is_stale(&vec![10], &vec![10, 0]));
}
