use auris_engine::metronome::{
    beat_of, click_offset, click_step, count_in_clicks, first_beat_from, Click, CountIn, MAX_CLICKS,
};

const BEAT_FRAMES: u64 = 24_000;

fn count_clicks(count: CountIn, frames: usize) -> Vec<Click> {
    let mut out = Vec::with_capacity(MAX_CLICKS);
    count_in_clicks(count, frames, &mut out);
    out
}

#[test]
fn a_count_in_is_one_click_a_beat_ending_before_the_downbeat() {
    let count = CountIn::new(8, BEAT_FRAMES, 4);
    let all = count_clicks(count, count.total_frames() as usize);
    assert_eq!(all.len(), 8);
    assert_eq!(all[0].frame, 0);
    assert_eq!(all[7].frame, BEAT_FRAMES as usize * 7);
    let accents: Vec<usize> = all
        .iter()
        .enumerate()
        .filter(|(_, click)| click.accent)
        .map(|(index, _)| index)
        .collect();
    assert_eq!(accents, vec![0, 4]);
}

#[test]
fn a_count_in_beat_is_claimed_by_exactly_one_block() {
    let mut count = CountIn::new(4, BEAT_FRAMES, 4);
    count.remaining_frames = count.total_frames() - (BEAT_FRAMES - 512);
    assert!(count_clicks(count, 512).is_empty());
    count.remaining_frames = count.total_frames() - BEAT_FRAMES;
    let struck = count_clicks(count, 512);
    assert_eq!(struck.len(), 1);
    assert_eq!(struck[0].frame, 0);
    assert!(!struck[0].accent);
}

#[test]
fn nothing_is_counted_once_the_count_has_run_out() {
    let mut count = CountIn::new(4, BEAT_FRAMES, 4);
    count.remaining_frames = 0;
    assert!(count_clicks(count, 4_096).is_empty());
}

#[test]
fn a_new_count_has_all_of_itself_to_come() {
    let count = CountIn::new(4, BEAT_FRAMES, 4);
    assert_eq!(count.total_frames(), 96_000);
    assert_eq!(count.remaining_frames, 96_000);
    assert_eq!(count.elapsed_frames(), 0);
}

#[test]
fn a_block_of_no_length_counts_nothing() {
    let count = CountIn::new(4, BEAT_FRAMES, 4);
    assert!(count_clicks(count, 0).is_empty());
}

#[test]
fn a_long_block_holds_no_more_clicks_than_the_buffer() {
    let count = CountIn::new(32, 10, 4);
    let clicks = count_clicks(count, 320);
    assert_eq!(clicks.len(), MAX_CLICKS);
    assert_eq!(clicks[MAX_CLICKS - 1].frame, 70);
}

#[test]
fn a_beat_is_never_zero_ticks_long() {
    assert_eq!(beat_of(960), 960);
    assert_eq!(beat_of(0), 1);
}

#[test]
fn a_click_is_placed_inside_its_block() {
    assert_eq!(click_offset(24_010, 24_000, 512), 10);
    assert_eq!(click_offset(23_990, 24_000, 512), 0);
    assert_eq!(click_offset(30_000, 24_000, 512), 511);
}

#[test]
fn counting_starts_from_the_first_beat_not_before_the_block() {
    assert_eq!(first_beat_from(0, 0, 960), 0);
    assert_eq!(first_beat_from(10, 0, 960), 960);
    assert_eq!(first_beat_from(960, 0, 960), 960);
}

#[test]
fn a_beat_in_the_block_is_clicked_and_the_next_one_follows() {
    // The downbeat of a bar, 10 frames into a block at 24000.
    let (click, next) = click_step(3_840, 4_800, 0, 24_010, 3_840, 960, 24_000, 512).unwrap();
    assert_eq!(click, Click { frame: 10, accent: true });
    assert_eq!(next, 4_800);
    // The next beat lies past the block's end.
    assert_eq!(click_step(4_800, 4_800, 1, 24_600, 3_840, 960, 24_000, 512), None);
    // A full block takes no more.
    assert_eq!(click_step(3_840, 4_800, MAX_CLICKS, 24_010, 3_840, 960, 24_000, 512), None);
}

#[test]
fn two_touching_blocks_click_what_the_block_covering_both_clicks() {
    let count = CountIn::new(4, 1_000, 4);
    let whole = count_clicks(count, 2_500);
    let first = count_clicks(count, 1_200);
    let mut later = count;
    later.remaining_frames -= 1_200;
    let second = count_clicks(later, 1_300);
    let mut joined = first.clone();
    joined.extend(second.iter().map(|click| Click {
        frame: click.frame + 1_200,
        ..*click
    }));
    assert_eq!(joined, whole);
    assert_eq!(whole.len(), 3);
}

#[test]
fn a_count_too_long_to_total_still_clicks_the_beats_a_block_reaches() {
    let count = CountIn::new(u32::MAX, u64::MAX / 2, 4);
    assert_eq!(count.total_frames(), u64::MAX);
    let clicks = count_clicks(count, 10);
    assert_eq!(clicks, vec![Click { frame: 0, accent: true }]);
}

#[test]
fn a_block_running_past_the_end_of_the_count_leaves_nothing_for_the_next() {
    let mut count = CountIn::new(4, 1_000, 4);
    count.remaining_frames = 1_500;
    let whole = count_clicks(count, 3_000);
    let first = count_clicks(count, 2_000);
    let mut later = count;
    later.remaining_frames = later.remaining_frames.saturating_sub(2_000);
    assert_eq!(later.remaining_frames, 0);
    assert!(count_clicks(later, 1_000).is_empty());
    assert_eq!(first, whole);
    assert_eq!(whole, vec![Click { frame: 500, accent: false }]);
}
