use auris_engine::meter::MeterBank;

#[test]
fn a_new_bank_reads_silence_and_nothing_is_lit() {
    let bank = MeterBank::new(3);
    assert_eq!(bank.track_capacity(), 3);
    assert_eq!(bank.track_reading(0), 0);
    assert_eq!(bank.master_channel_reading(1), 0);
    assert!(!bank.anything_clipped());
}

#[test]
fn a_reading_past_the_capacity_is_dropped_and_reads_as_silence() {
    let mut bank = MeterBank::new(1);
    bank.record_track(9, 1.0f32.to_bits(), true);
    assert_eq!(bank.track_reading(9), 0);
    assert_eq!(bank.track_capacity(), 1);
    assert!(!bank.anything_clipped());
}

#[test]
fn a_clip_latch_outlives_the_reading_that_lit_it_until_cleared() {
    let mut bank = MeterBank::new(2);
    bank.record_track(0, 1.0f32.to_bits(), true);
    assert!(bank.track_clipped(0));
    assert!(bank.anything_clipped());
    assert!(!bank.track_clipped(1), "only the track that clipped");

    bank.record_track(0, 0.0f32.to_bits(), false);
    assert_eq!(bank.track_reading(0), 0.0f32.to_bits());
    assert!(bank.track_clipped(0));

    bank.clear_clipped();
    assert!(!bank.track_clipped(0));
    assert!(!bank.anything_clipped());
}

#[test]
fn either_master_channel_lights_the_master_latch() {
    let mut bank = MeterBank::new(0);
    bank.record_master(0, 0.5f32.to_bits(), false);
    assert!(!bank.master_clipped());
    bank.record_master(1, 1.5f32.to_bits(), true);
    assert!(bank.master_clipped());
    assert_eq!(bank.master_channel_reading(1), 1.5f32.to_bits());
    bank.record_master(2, 1.5f32.to_bits(), true);
    assert_eq!(bank.master_channel_reading(2), 0);
}

#[test]
fn a_reset_clears_readings_and_latches_alike() {
    let mut bank = MeterBank::new(1);
    bank.record_track(0, 0.7f32.to_bits(), true);
    bank.record_master(0, 0.2f32.to_bits(), true);
    bank.reset();
    assert_eq!(bank.track_reading(0), 0);
    assert_eq!(bank.master_channel_reading(0), 0);
    assert!(!bank.anything_clipped());
    assert_eq!(bank.track_capacity(), 1);
}

#[test]
fn only_the_tracks_that_went_away_are_cleared() {
    let mut bank = MeterBank::new(3);
    for index in 0..3 {
        bank.record_track(index, 0.9f32.to_bits(), true);
    }
    bank.clear_tracks_from(1);
    assert_eq!(bank.track_reading(0), 0.9f32.to_bits());
    assert!(bank.track_clipped(0));
    assert_eq!(bank.track_reading(1), 0);
    assert!(!bank.track_clipped(2));
}

#[test]
fn a_master_reading_never_lights_a_track() {
    let mut bank = MeterBank::new(2);
    bank.record_master(0, 2.0f32.to_bits(), true);
    assert!(!bank.track_clipped(0));
    assert!(bank.anything_clipped());
    assert_eq!(bank.anything_clipped(), bank.master_clipped() || bank.track_clipped(0) || bank.track_clipped(1));
}
