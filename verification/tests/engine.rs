use auris_engine::engine::{
    admit_command, command_may_retire, count_in_report, interleaved_frames, next_device_block,
    plan_command, resume_deferred, send_outcome, CommandKind, QueueRefusal, Retire, TransportAction,
    RETIRED_GRAPH_SLOTS,
};
use auris_engine::error::EngineError;
use auris_engine::metronome::CountIn;

#[test]
fn stop_and_seek_release_the_voices_and_abandon_a_count() {
    let stop = plan_command(CommandKind::Stop, true);
    assert_eq!(stop.playing, Some(false));
    assert!(stop.cancel_count_in);
    assert!(stop.reset_voices);

    let seek = plan_command(CommandKind::Seek { frames: 48_000 }, true);
    assert_eq!(seek.playing, None);
    assert!(seek.cancel_count_in);
    assert!(seek.reset_voices);

    // Without a graph there are no voices to release.
    assert!(!plan_command(CommandKind::Stop, false).reset_voices);
}

#[test]
fn replacing_a_graph_hands_the_old_one_back_and_clears_the_meters_past_it() {
    let plan = plan_command(CommandKind::SetGraph { track_count: 3 }, true);
    assert_eq!(plan.retire, Retire::Previous);
    assert_eq!(plan.clear_meters_from, Some(3));
    assert!(plan.publish_latency);
    // The first graph replaces nothing.
    assert_eq!(
        plan_command(CommandKind::SetGraph { track_count: 3 }, false).retire,
        Retire::Nothing
    );
}

#[test]
fn a_one_shot_with_nowhere_to_play_travels_straight_back() {
    assert_eq!(
        plan_command(CommandKind::PlayOneShot { displaces: false }, false).retire,
        Retire::Payload
    );
    assert_eq!(plan_command(CommandKind::SetSoloResolution, true).retire, Retire::Payload);
}

#[test]
fn a_parameter_write_republishes_the_compensation_state() {
    let plan = plan_command(CommandKind::SetEffectParam, true);
    assert!(plan.publish_latency);
    assert!(plan.reaches_graph);
    assert!(!plan_command(CommandKind::SetMasterGain, true).publish_latency);
    assert!(!plan_command(CommandKind::SetMasterGain, false).reaches_graph);
}

#[test]
fn panic_clears_the_meters() {
    assert!(plan_command(CommandKind::Panic, false).reset_meters);
    assert!(!plan_command(CommandKind::Play, true).reset_meters);
    assert_eq!(plan_command(CommandKind::Play, true).playing, Some(true));
}

#[test]
fn a_full_retirement_stash_does_not_block_transport_commands() {
    assert!(!admit_command(RETIRED_GRAPH_SLOTS, CommandKind::SetGraph { track_count: 1 }));
    assert!(admit_command(RETIRED_GRAPH_SLOTS, CommandKind::Play));
    assert!(admit_command(RETIRED_GRAPH_SLOTS, CommandKind::Seek { frames: 0 }));
    assert!(admit_command(RETIRED_GRAPH_SLOTS - 1, CommandKind::PlayOneShot { displaces: true }));
    assert!(command_may_retire(CommandKind::SetSoloResolution));
    assert!(!command_may_retire(CommandKind::Stop));
    assert!(resume_deferred(RETIRED_GRAPH_SLOTS - 1));
    assert!(!resume_deferred(RETIRED_GRAPH_SLOTS));
}

#[test]
fn a_full_command_queue_is_reported_rather_than_blocking() {
    assert_eq!(send_outcome(None), Ok(()));
    assert_eq!(
        send_outcome(Some(QueueRefusal::Full)),
        Err(EngineError::CommandQueueFull)
    );
    assert_eq!(
        send_outcome(Some(QueueRefusal::Disconnected)),
        Err(EngineError::NotRunning)
    );
}

#[test]
fn a_device_buffer_is_cut_into_whole_frames_and_blocks() {
    assert_eq!(interleaved_frames(1_025, 2), (512, 1_024));
    assert_eq!(interleaved_frames(7, 7), (1, 7));
    assert_eq!(next_device_block(5_000, 0, 2_048), 2_048);
    assert_eq!(next_device_block(5_000, 4_096, 2_048), 904);
}

#[test]
fn a_count_in_is_published_while_it_runs_and_once_when_it_ends() {
    assert_eq!(count_in_report(Some(24_000), false), (Some(24_000), true));
    assert_eq!(count_in_report(None, true), (Some(0), false));
    // Nothing is published between counts, so a count the UI is about to ask for survives.
    assert_eq!(count_in_report(None, false), (None, false));
}

#[test]
fn a_replaced_one_shot_travels_back_as_retired_data() {
    // The first play on a track replaces nothing.
    let first = plan_command(CommandKind::PlayOneShot { displaces: false }, true);
    assert_eq!(first.retire, Retire::Nothing, "the first play replaces nothing");
    // The second replaces the first, whose buffer goes back to the UI thread.
    let second = plan_command(CommandKind::PlayOneShot { displaces: true }, true);
    assert_eq!(second.retire, Retire::Previous);
    assert!(second.reaches_graph);
}

#[test]
fn the_transport_is_handed_the_count_the_position_and_the_loop() {
    let count = CountIn::new(4, 24_000, 4);
    assert_eq!(
        plan_command(CommandKind::CountIn { count }, true).transport,
        TransportAction::CountIn(count)
    );
    assert_eq!(
        plan_command(CommandKind::Seek { frames: 48_000 }, false).transport,
        TransportAction::Seek { frames: 48_000 }
    );
    assert_eq!(
        plan_command(
            CommandKind::SetLoop {
                enabled: true,
                start: 1_000,
                end: 5_000
            },
            true
        )
        .transport,
        TransportAction::SetLoop {
            enabled: true,
            start: 1_000,
            end: 5_000
        }
    );
    assert_eq!(plan_command(CommandKind::Play, true).transport, TransportAction::Keep);
}
