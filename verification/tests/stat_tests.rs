use chattiness::stat::Stat;

#[test]
fn test_stat_new() -> Result<(), String> {
    let stat = Stat::new(1, 1);

    assert!(stat.questions == 1 && stat.words == 1);
    Ok(())
}

#[test]
fn test_stat_sum() -> Result<(), String> {
    let mut stat = Stat::new(1, 1);
    let stat2 = Stat::new(1, 1);
    stat.sum(&stat2);

    assert!(stat.questions == 2 && stat.words == 2);
    Ok(())
}

#[test]
fn merge_is_commutative() {
    let mut ab = Stat::new(3, 7);
    ab.sum(&Stat::new(11, 5));
    let mut ba = Stat::new(11, 5);
    ba.sum(&Stat::new(3, 7));
    assert_eq!(ab, ba);
}

#[test]
fn merge_is_associative() {
    let mut left = Stat::new(1, 2);
    left.sum(&Stat::new(3, 4));
    left.sum(&Stat::new(5, 6));
    let mut right_inner = Stat::new(3, 4);
    right_inner.sum(&Stat::new(5, 6));
    let mut right = Stat::new(1, 2);
    right.sum(&right_inner);
    assert_eq!(left, right);
}

#[test]
fn merge_zero_is_identity() {
    let mut a = Stat::new(9, 4);
    a.sum(&Stat::new(0, 0));
    assert_eq!(a, Stat::new(9, 4));
}

#[test]
fn ratio_is_exact() {
    let stat = Stat::new(2, 5);
    assert_eq!(stat.words as f64 / stat.questions as f64, 2.5);
}

#[test]
fn fits_detects_overflow() {
    let a = Stat::new(u64::MAX, 1);
    let b = Stat::new(1, 1);
    assert!(!a.fits(&b));
    assert!(Stat::new(1, 1).fits(&Stat::new(2, 2)));
}
