use auris_engine::capture::{
    chunk_plan, chunk_samples, describe_input_device, dropped_frames, push_counts, started_at,
    PoolAnswer,
    CaptureSettings, NOT_STARTED,
};
use auris_engine::device::{ConfigRange, SampleFormat};

const POOL_SAMPLES: usize = 4_096;

#[test]
fn a_block_larger_than_a_pooled_buffer_is_split_rather_than_grown() {
    let len = POOL_SAMPLES + POOL_SAMPLES / 2;
    let chunks = chunk_plan(POOL_SAMPLES, 1, len);
    assert_eq!(chunks, vec![POOL_SAMPLES, POOL_SAMPLES / 2]);
    assert_eq!(chunks.iter().sum::<usize>(), len);
}

#[test]
fn a_split_block_is_cut_between_frames_and_never_through_one() {
    let channels = 3;
    let frames = POOL_SAMPLES * 2 / channels;
    let chunks = chunk_plan(POOL_SAMPLES, channels, frames * channels);
    for length in &chunks {
        assert_eq!(length % channels, 0, "a block of {length} split a frame");
    }
    assert_eq!(chunks.iter().sum::<usize>(), frames * channels);
}

#[test]
fn a_chunk_takes_whole_frames_only() {
    assert_eq!(chunk_samples(4_096, 3, 10_000), (4_095, 1_365));
    assert_eq!(chunk_samples(4_096, 3, 300), (300, 100));
    // A frame wider than the buffer still moves one sample at a time.
    assert_eq!(chunk_samples(2, 3, 9), (1, 0));
}

#[test]
fn dropped_samples_are_counted_as_whole_frames() {
    assert_eq!(dropped_frames(10, 2), 5);
    assert_eq!(dropped_frames(10, 0), 10);
}

#[test]
fn a_take_has_no_start_until_the_first_block_arrives() {
    assert_eq!(started_at(NOT_STARTED), None);
    assert_eq!(started_at(96_000), Some(96_000));
}

#[test]
fn default_capture_settings_ask_for_nothing_in_particular() {
    let settings = CaptureSettings::default();
    assert_eq!(settings.device, None);
    assert_eq!(settings.sample_rate, None);
    assert_eq!(settings.block_frames, None);
}

#[test]
fn an_input_device_offers_the_ends_of_its_ranges() {
    let configs = vec![
        ConfigRange {
            channels: 2,
            format: SampleFormat::I16,
            min_rate: 44_100,
            max_rate: 96_000,
        },
        ConfigRange {
            channels: 4,
            format: SampleFormat::F32,
            min_rate: 48_000,
            max_rate: 48_000,
        },
    ];
    let info = describe_input_device("Mic".to_string(), false, &configs);
    assert_eq!(info.sample_rates, vec![44_100, 48_000, 96_000]);
    assert_eq!(info.max_channels, 4);
}

#[test]
fn every_pushed_sample_is_either_a_frame_of_the_take_or_counted_dropped() {
    let len = 8_190;
    assert_eq!(
        push_counts(POOL_SAMPLES, 3, len, &vec![PoolAnswer::Sent, PoolAnswer::Refused]),
        (1_365, 4_095)
    );
    // The pool runs out after the first buffer: the rest of the block is dropped.
    assert_eq!(push_counts(POOL_SAMPLES, 3, len, &vec![PoolAnswer::Sent]), (1_365, 4_095));
    assert_eq!(push_counts(POOL_SAMPLES, 3, len, &vec![PoolAnswer::NoBuffer]), (0, 8_190));
    assert_eq!(
        push_counts(POOL_SAMPLES, 3, len, &vec![PoolAnswer::Sent, PoolAnswer::Sent]),
        (2_730, 0)
    );
    assert_eq!(push_counts(POOL_SAMPLES, 3, 0, &Vec::new()), (0, 0));
}
