use dominant_speaker::subunit_len_for;

#[test]
fn default_n1_gives_10() {
    assert_eq!(subunit_len_for(13), 10);
}

#[test]
fn n1_10_gives_13() {
    // ceil(128/10) = 13
    assert_eq!(subunit_len_for(10), 13);
}

#[test]
fn n1_8_gives_16() {
    // ceil(128/8) = 16
    assert_eq!(subunit_len_for(8), 16);
}

#[test]
fn subunit_extremes() {
    // n1 = 0 is treated as 1.
    assert_eq!(subunit_len_for(0), 128);
    assert_eq!(subunit_len_for(1), 128);
    assert_eq!(subunit_len_for(255), 1);
    assert_eq!(subunit_len_for(128), 1);
    assert_eq!(subunit_len_for(127), 2);
}

#[test]
fn subbands_stay_below_count() {
    for n1 in 0..=255u8 {
        let w = subunit_len_for(n1) as u32;
        let n = if n1 == 0 { 1 } else { n1 as u32 };
        for level in 0..=127u32 {
            assert!(level / w < n, "n1={n1} level={level}");
        }
    }
}
