use auris_engine::strip::{chain_frames, chain_switches, MuteFade};

#[test]
fn a_new_fade_sits_settled_at_its_end() {
    let open = MuteFade::new(true, 240);
    assert!(open.is_open());
    assert_eq!(open.position(), 240);
    let closed = MuteFade::new(false, 0);
    assert!(closed.is_closed());
    assert_eq!(closed.length(), 1);
}

#[test]
fn a_mute_slides_down_over_its_length_and_then_stays() {
    let mut fade = MuteFade::new(true, 240);
    fade.set_open(false);
    assert!(!fade.is_closed());
    let step = fade.advance(100);
    assert_eq!((step.first, step.opening, step.moving), (240, false, 100));
    assert_eq!(fade.position(), 140);
    let step = fade.advance(512);
    assert_eq!((step.first, step.moving), (140, 140));
    assert!(fade.is_closed());
    assert_eq!(fade.advance(512).moving, 0);
}

#[test]
fn a_fade_lands_on_the_same_position_however_the_blocks_are_cut() {
    let mut whole = MuteFade::new(false, 240);
    whole.set_open(true);
    whole.advance(150);
    let mut cut = MuteFade::new(false, 240);
    cut.set_open(true);
    cut.advance(64);
    cut.advance(86);
    assert_eq!(whole.position(), cut.position());
    assert_eq!(whole.position_at(10, true, 5), 15);
    assert_eq!(whole.position_at(10, false, 5), 5);
}

#[test]
fn a_chain_adds_up_only_the_slots_that_run() {
    assert_eq!(chain_frames(&vec![100, 50, 25], &vec![true, false, true]), 125);
    assert_eq!(chain_frames(&vec![100, 50], &vec![true]), 100);
    assert_eq!(chain_frames(&vec![usize::MAX, 1], &vec![true, true]), usize::MAX);
}

#[test]
fn a_missing_effect_keeps_its_slot_but_stays_bypassed() {
    assert_eq!(
        chain_switches(&vec![true, false, true], &vec![true, true, false]),
        vec![true, false, false]
    );
}

#[test]
fn moving_frames_add_up_however_the_block_is_cut() {
    let mut cut = MuteFade::new(true, 240);
    cut.set_open(false);
    let a = cut.advance(100);
    let b = cut.advance(200);
    let mut whole = MuteFade::new(true, 240);
    whole.set_open(false);
    let c = whole.advance(300);
    assert_eq!(a.moving + b.moving, c.moving);
    assert_eq!(c.moving, 240);
    assert_eq!(cut, whole);
}
