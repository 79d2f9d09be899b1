use dominant_speaker::speaker::Speaker;

#[test]
fn fresh_speaker_has_no_scores() {
    let s = Speaker::new(7);
    assert!(!s.is_paused());
    assert_eq!(s.last_level_change(), 7);
    assert_eq!(s.immediate_activity(), None);
    assert_eq!(s.medium_activity(), None);
    assert_eq!(s.long_activity(), None);
    assert_eq!(s.raw_level_sum(), 0);
}

#[test]
fn levels_fill_one_slot_per_20ms() {
    let mut s = Speaker::new(0);
    s.level_changed(30, 100); // 100 ms → 5 slots
    assert_eq!(s.raw_level_sum(), 150);
    s.level_changed(30, 110); // less than one slot → still one slot
    assert_eq!(s.raw_level_sum(), 180);
    assert_eq!(s.last_level_change(), 110);
}

#[test]
fn long_gap_fills_whole_ring() {
    let mut s = Speaker::new(0);
    s.level_changed(10, 1_000_000);
    assert_eq!(s.raw_level_sum(), 500);
    s.level_changed(20, 2_000_000);
    assert_eq!(s.raw_level_sum(), 1000);
}

#[test]
fn levels_above_max_are_capped() {
    let mut s = Speaker::new(0);
    s.level_changed(200, 20);
    assert_eq!(s.raw_level_sum(), 127);
}

#[test]
fn earlier_observation_is_ignored() {
    let mut s = Speaker::new(100);
    s.level_changed(40, 120);
    assert_eq!(s.raw_level_sum(), 40);
    s.level_changed(90, 60);
    assert_eq!(s.raw_level_sum(), 40);
    assert_eq!(s.last_level_change(), 120);
}

#[test]
fn evaluation_records_activity() {
    let mut s = Speaker::new(0);
    s.level_changed(50, 20); // noise floor 50
    s.level_changed(100, 40);
    s.eval_scores(10);
    // Threshold 50 + 10: the newest level 100 is in subband 10, the one
    // before (50) counts as silence.
    assert_eq!(s.immediate_activity(), Some(10));
    // First medium bucket: [10, 0, 0, 0, 0] → one entry above 7.
    assert_eq!(s.medium_activity(), Some(1));
    // The long bucket (mediums above 4) stays 0: unchanged, not evaluated.
    assert_eq!(s.long_activity(), None);
    // Evaluating again changes nothing.
    s.eval_scores(10);
    assert_eq!(s.immediate_activity(), Some(10));
    assert_eq!(s.medium_activity(), Some(1));
}

#[test]
fn constant_loud_signal_stays_below_floor() {
    // The first level latches the noise floor; a constant signal never
    // rises above floor + subband width, so no activity is recorded.
    let mut s = Speaker::new(0);
    let mut t = 0u64;
    while t < 2000 {
        s.level_changed(127, t);
        t += 20;
    }
    s.eval_scores(10);
    assert_eq!(s.immediate_activity(), None);
    assert_eq!(s.medium_activity(), None);
    assert_eq!(s.long_activity(), None);
    assert_eq!(s.raw_level_sum(), 50 * 127);
}

#[test]
fn sustained_speech_reaches_the_long_window() {
    let mut s = Speaker::new(0);
    s.level_changed(20, 20); // floor 20
    let mut t = 40u64;
    while t < 1040 {
        s.level_changed(120, t);
        t += 20;
    }
    s.eval_scores(10);
    // Every one of the 50 levels is 120 → subband 12.
    assert_eq!(s.immediate_activity(), Some(12));
    // Each medium bucket counts 5 entries above 7.
    assert_eq!(s.medium_activity(), Some(5));
    // All 10 mediums are above 4.
    assert_eq!(s.long_activity(), Some(10));
}

#[test]
fn pause_sets_flag() {
    let mut s = Speaker::new(0);
    s.pause();
    assert!(s.is_paused());
}
