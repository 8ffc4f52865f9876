use std::sync::atomic::{AtomicBool, Ordering};
use std::sync::Arc;

use auris_engine::device::{
    add_sample_rate_range, after_stream_stopped, command_queue_capacity, describe_device,
    is_default_device,
    output_max_block, preferred_block_size, supports_rate, AudioSettings, ConfigRange,
    SampleFormat, DEFAULT_MAX_BLOCK,
};

#[test]
fn continuous_device_ranges_include_standard_sample_rates() {
    let mut rates = Vec::new();
    add_sample_rate_range(&mut rates, 8_000, 192_000);
    rates.sort_unstable();
    for expected in [44_100, 48_000, 88_200, 96_000] {
        assert!(rates.contains(&expected), "missing {expected} Hz");
    }
}

#[test]
fn failed_stream_is_dropped_before_its_command_queue_is_drained() {
    struct DropSignal(Arc<AtomicBool>);

    impl Drop for DropSignal {
        fn drop(&mut self) {
            self.0.store(true, Ordering::Relaxed);
        }
    }

    let stopped = Arc::new(AtomicBool::new(false));
    let mut stream = Some(DropSignal(Arc::clone(&stopped)));
    let drained = after_stream_stopped(&mut stream, || {
        assert!(stopped.load(Ordering::Relaxed));
        2
    });

    assert!(stream.is_none());
    assert_eq!(drained, 2);
}

#[test]
fn an_unknown_device_buffer_range_bounds_the_preferred_block() {
    assert_eq!(preferred_block_size(0, 0, 0), 1);
    assert_eq!(
        preferred_block_size(u32::MAX, 0, 0),
        DEFAULT_MAX_BLOCK as u32
    );
    assert_eq!(preferred_block_size(512, 0, 0), 512);
}

#[test]
fn a_range_adds_its_ends_and_only_the_conventional_rates_inside_it() {
    let mut rates = Vec::new();
    add_sample_rate_range(&mut rates, 40_000, 50_000);
    assert_eq!(rates, vec![40_000, 50_000, 44_100, 48_000]);
}

#[test]
fn a_rate_already_listed_is_not_listed_twice() {
    let mut rates = vec![48_000];
    add_sample_rate_range(&mut rates, 48_000, 48_000);
    assert_eq!(rates, vec![48_000]);
    add_sample_rate_range(&mut rates, 44_100, 48_000);
    assert_eq!(rates, vec![48_000, 44_100]);
}

fn range(channels: u16, min_rate: u32, max_rate: u32) -> ConfigRange {
    ConfigRange {
        channels,
        format: SampleFormat::F32,
        min_rate,
        max_rate,
    }
}

#[test]
fn a_device_is_described_by_its_ranges_sorted_and_deduplicated() {
    let configs = vec![range(2, 48_000, 48_000), range(8, 44_100, 44_100), range(2, 44_100, 48_000)];
    let info = describe_device("Interface".to_string(), true, &configs);
    assert_eq!(info.name, "Interface");
    assert!(info.is_default);
    assert_eq!(info.sample_rates, vec![44_100, 48_000]);
    assert_eq!(info.max_channels, 8);
}

#[test]
fn a_device_with_no_ranges_offers_nothing() {
    let info = describe_device("Empty".to_string(), false, &Vec::new());
    assert!(info.sample_rates.is_empty());
    assert_eq!(info.max_channels, 0);
}

#[test]
fn a_rate_is_supported_only_with_the_channels_and_format_asked_for() {
    let configs = vec![range(2, 44_100, 96_000)];
    assert!(supports_rate(&configs, 2, SampleFormat::F32, 48_000));
    assert!(!supports_rate(&configs, 1, SampleFormat::F32, 48_000));
    assert!(!supports_rate(&configs, 2, SampleFormat::I16, 48_000));
    assert!(!supports_rate(&configs, 2, SampleFormat::F32, 192_000));
}

#[test]
fn a_known_buffer_range_clamps_the_preferred_block() {
    assert_eq!(preferred_block_size(64, 128, 4_096), 128);
    assert_eq!(preferred_block_size(8_192, 128, 4_096), 4_096);
    assert_eq!(preferred_block_size(256, 128, 4_096), 256);
}

#[test]
fn no_requested_block_falls_back_to_the_default() {
    assert_eq!(output_max_block(None, 0, 0), DEFAULT_MAX_BLOCK);
    assert_eq!(output_max_block(None, 0, 512), 512);
    assert_eq!(output_max_block(Some(300), 0, 0), 300);
}

#[test]
fn the_command_queue_never_shrinks_below_its_floor() {
    assert_eq!(command_queue_capacity(0), 16);
    assert_eq!(command_queue_capacity(64), 64);
}

#[test]
fn default_settings_ask_for_nothing_in_particular() {
    let settings = AudioSettings::default();
    assert_eq!(settings.host, None);
    assert_eq!(settings.device, None);
    assert_eq!(settings.sample_rate, None);
    assert_eq!(settings.block_frames, None);
    assert_eq!(settings.command_capacity, 64);
    assert_eq!(settings.meter_tracks, 128);
}

#[test]
fn the_default_device_is_recognised_by_name() {
    let name = "Speakers".to_string();
    assert!(is_default_device(&name, &Some("Speakers".to_string())));
    assert!(!is_default_device(&name, &Some("Headphones".to_string())));
    assert!(!is_default_device(&name, &None));
}
