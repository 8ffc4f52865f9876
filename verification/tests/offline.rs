use auris_engine::error::EngineError;
use auris_engine::offline::{
    buffered_render_bytes, clamp_block_frames, geometry_is_playable, next_block, plan_render, render_done,
    start_cursor, OfflineOptions, RenderCursor, RenderGeometry, MAX_BLOCK_FRAMES,
    MAX_BUFFERED_RENDER_BYTES, MAX_RENDER_FRAMES, RENDER_CHANNELS,
};

#[test]
fn the_buffered_render_budget_counts_checked_stereo_f32_bytes() {
    let frames = MAX_BUFFERED_RENDER_BYTES / RENDER_CHANNELS / std::mem::size_of::<f32>();

    assert_eq!(
        buffered_render_bytes(frames).expect("the exact boundary must fit"),
        MAX_BUFFERED_RENDER_BYTES
    );
}

#[test]
fn buffered_render_size_arithmetic_overflow_is_rejected() {
    let error = buffered_render_bytes(usize::MAX).expect_err("the byte count must not wrap");

    assert!(matches!(
        error,
        EngineError::RenderBufferTooLarge {
            frames: usize::MAX,
            ..
        }
    ));
}

#[test]
fn oversized_blocks_are_clamped_before_event_offsets_are_narrowed() {
    assert_eq!(
        OfflineOptions::default()
            .with_block_frames(usize::MAX)
            .block_frames,
        MAX_BLOCK_FRAMES
    );
}

#[test]
fn one_frame_over_the_budget_is_refused() {
    let frames = MAX_BUFFERED_RENDER_BYTES / RENDER_CHANNELS / std::mem::size_of::<f32>() + 1;
    assert_eq!(
        buffered_render_bytes(frames),
        Err(EngineError::RenderBufferTooLarge {
            frames,
            channels: RENDER_CHANNELS,
            limit_bytes: MAX_BUFFERED_RENDER_BYTES,
        })
    );
}

#[test]
fn a_block_size_of_nothing_becomes_one_frame() {
    assert_eq!(clamp_block_frames(0), 1);
    assert_eq!(clamp_block_frames(512), 512);
}

#[test]
fn a_backwards_range_is_rejected_with_both_ends() {
    let options = OfflineOptions::default().with_range(9_000, 1_000);
    assert_eq!(
        plan_render(&options, 0, 0, 0),
        Err(EngineError::InvalidRange {
            start: 9_000,
            end: 1_000
        })
    );
}

#[test]
fn an_absurd_span_is_an_error_rather_than_an_allocation() {
    let options = OfflineOptions::default().with_range(0, u64::MAX);
    assert_eq!(
        plan_render(&options, 0, 0, 0),
        Err(EngineError::RenderTooLong {
            frames: u64::MAX,
            limit: MAX_RENDER_FRAMES
        })
    );
}

#[test]
fn the_twenty_four_hour_limit_itself_is_accepted() {
    let options = OfflineOptions::default()
        .with_range(0, MAX_RENDER_FRAMES)
        .with_block_frames(1);
    let geometry = plan_render(&options, 0, 0, 0).expect("streamable render geometry");
    assert_eq!(geometry.total as u64, MAX_RENDER_FRAMES);
    assert_eq!(geometry.block_frames, 1);
}

#[test]
fn a_whole_project_render_runs_to_the_arrangement_end_plus_the_tail() {
    let geometry = plan_render(&OfflineOptions::whole_project(), 96_000, 4_800, 0).unwrap();
    assert_eq!(geometry.total, 100_800);
    assert_eq!(geometry.performed, 96_000);
    assert_eq!(geometry.end, 100_800);
    assert!(!geometry.ranged);
}

#[test]
fn compensation_lengthens_the_render_but_not_the_output() {
    let options = OfflineOptions::default().with_range(24_000, 36_000);
    let geometry = plan_render(&options, 0, 0, 128).unwrap();
    assert_eq!(geometry.total, 12_000);
    assert_eq!(geometry.latency, 128);
    assert_eq!(geometry.end, 12_128);
    assert!(geometry.ranged);
}

#[test]
fn a_cycle_warms_up_for_whole_cycles_covering_the_tail() {
    let options = OfflineOptions {
        start_frames: 24_000,
        end_frames: Some(24_100),
        looping: true,
        ..OfflineOptions::default()
    };
    // A tail of 250 frames needs three cycles of 100 to be covered.
    let geometry = plan_render(&options, 0, 250, 7).unwrap();
    assert_eq!(geometry.total, 100);
    assert_eq!(geometry.latency, 7 + 300);
    assert!(!geometry.ranged);
    assert!(geometry.looping);
}

#[test]
fn an_empty_cycle_has_no_tail_and_no_warm_up() {
    let options = OfflineOptions {
        end_frames: Some(0),
        looping: true,
        ..OfflineOptions::default()
    };
    let geometry = plan_render(&options, 0, 4_800, 0).unwrap();
    assert_eq!(geometry.total, 0);
    assert_eq!(geometry.end, 0);
}

fn run(geometry: &RenderGeometry) -> (Vec<(bool, usize, usize, usize)>, RenderCursor) {
    let mut cursor = start_cursor();
    let mut blocks = Vec::new();
    while !render_done(geometry, &cursor) {
        let (block, next) = next_block(geometry, &cursor);
        blocks.push((block.stop_first, block.frames, block.skip, block.count));
        cursor = next;
    }
    (blocks, cursor)
}

#[test]
fn a_pass_hands_out_exactly_the_output_at_any_block_size() {
    for block_frames in [1, 7, 64, 3_000] {
        let options = OfflineOptions::default()
            .with_range(1_000, 1_500)
            .with_block_frames(block_frames);
        let geometry = plan_render(&options, 0, 300, 37).unwrap();
        let (blocks, cursor) = run(&geometry);
        let emitted: usize = blocks.iter().map(|block| block.3).sum();
        assert_eq!(emitted, geometry.total);
        assert_eq!(cursor.emitted, geometry.total);
        assert_eq!(cursor.rendered, geometry.end);
    }
}

#[test]
fn a_ranged_pass_stops_exactly_at_the_range_end_and_never_renders_across_it() {
    let options = OfflineOptions::default()
        .with_range(0, 100)
        .with_block_frames(64);
    let geometry = plan_render(&options, 0, 50, 0).unwrap();
    let (blocks, _) = run(&geometry);
    assert_eq!(
        blocks,
        vec![(false, 64, 0, 64), (false, 36, 0, 36), (true, 50, 0, 50)]
    );
}

#[test]
fn the_lead_in_is_thrown_away_before_anything_goes_out() {
    let options = OfflineOptions::default()
        .with_range(0, 10)
        .with_block_frames(4);
    let geometry = plan_render(&options, 0, 0, 6).unwrap();
    let (blocks, _) = run(&geometry);
    assert_eq!(
        blocks,
        vec![
            (false, 4, 4, 0),
            (false, 4, 2, 2),
            (false, 2, 0, 2),
            (true, 4, 0, 4),
            (false, 2, 0, 2)
        ]
    );
}

#[test]
fn a_planned_geometry_is_playable_and_a_forged_one_is_not() {
    let geometry = plan_render(&OfflineOptions::default().with_range(0, 100), 0, 0, 0).unwrap();
    assert!(geometry_is_playable(&geometry));
    let forged = RenderGeometry {
        end: geometry.end + 1,
        ..geometry
    };
    assert!(!geometry_is_playable(&forged));
}
