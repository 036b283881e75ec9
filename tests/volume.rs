use sacand::{pct_to_vol, vol_to_pct, DomainError};

#[test]
fn zero_raw_is_zero_percent() {
    for max in [1, 87, 100, 65536, i64::MAX] {
        assert_eq!(vol_to_pct(0, max), Ok(0));
    }
}

#[test]
fn max_raw_is_hundred_percent() {
    for max in [1, 87, 100, 65536, i64::MAX] {
        assert_eq!(vol_to_pct(max, max), Ok(10000));
    }
}

#[test]
fn cube_root_rounded_to_hundredths() {
    assert_eq!(vol_to_pct(50, 100), Ok(7937));
    assert_eq!(vol_to_pct(1, 100), Ok(2154));
    assert_eq!(vol_to_pct(8, 1000), Ok(2000));
    assert_eq!(vol_to_pct(-50, 100), Ok(-7937));
    assert_eq!(vol_to_pct(200, 100), Ok(12599));
}

#[test]
fn empty_range_is_an_error() {
    assert_eq!(vol_to_pct(5, 0), Err(DomainError::EmptyRange));
    assert_eq!(vol_to_pct(5, -10), Err(DomainError::EmptyRange));
}

#[test]
fn percent_cubed_times_max() {
    assert_eq!(pct_to_vol(8437, 100), 60);
    assert_eq!(pct_to_vol(7937, 100), 49);
    assert_eq!(pct_to_vol(10000, 65536), 65536);
    assert_eq!(pct_to_vol(5000, 1000), 125);
    assert_eq!(pct_to_vol(0, 100), 0);
}

#[test]
fn negative_percent_stays_negative() {
    assert_eq!(pct_to_vol(-5000, 1000), -125);
    assert_eq!(pct_to_vol(-1, 100), 0);
}

#[test]
fn out_of_range_saturates() {
    assert_eq!(pct_to_vol(i64::MAX, 100), i64::MAX);
    assert_eq!(pct_to_vol(i64::MIN, 100), i64::MIN);
    assert_eq!(pct_to_vol(1_000_000_000_000, i64::MAX), i64::MAX);
}

#[test]
fn round_trip_within_one() {
    for max in [1i64, 2, 87, 100, 1000, 6666] {
        for raw in 0..=max {
            let back = pct_to_vol(vol_to_pct(raw, max).unwrap(), max);
            assert!(raw - 1 <= back && back <= raw, "{raw} of {max} came back as {back}");
        }
    }
}

#[test]
fn round_trip_drifts_on_wide_range() {
    let back = pct_to_vol(vol_to_pct(6511, 7000).unwrap(), 7000);
    assert_eq!(back, 6509);
}
