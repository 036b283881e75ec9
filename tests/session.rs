use sacand::{average_volume, pct_label, plan_adjustment, Adjustment, DomainError};

#[test]
fn increment_from_half_volume() {
    let r = plan_adjustment("+5", &vec![50, 50], 100).unwrap();
    assert_eq!(r, Adjustment { current: 7937, target: 8437, write: Some(60) });
    assert_eq!(pct_label(r.target), "84.37%");
}

#[test]
fn decrement_and_nop() {
    let r = plan_adjustment("-10", &vec![50, 50], 100).unwrap();
    assert_eq!(r, Adjustment { current: 7937, target: 6937, write: Some(33) });
    let r = plan_adjustment("hello", &vec![50, 50], 100).unwrap();
    assert_eq!(r, Adjustment { current: 7937, target: 7937, write: None });
    let r = plan_adjustment("+abc", &vec![100], 100).unwrap();
    assert_eq!(r, Adjustment { current: 10000, target: 10000, write: Some(100) });
}

#[test]
fn no_channels_is_an_error() {
    assert_eq!(average_volume(&vec![]), Err(DomainError::NoChannels));
    assert_eq!(plan_adjustment("+5", &vec![], 100), Err(DomainError::NoChannels));
    assert_eq!(plan_adjustment("+5", &vec![], 0), Err(DomainError::NoChannels));
}

#[test]
fn empty_range_in_plan() {
    assert_eq!(plan_adjustment("+5", &vec![3], 0), Err(DomainError::EmptyRange));
}

#[test]
fn average_truncates_toward_zero() {
    assert_eq!(average_volume(&vec![50, 50]), Ok(50));
    assert_eq!(average_volume(&vec![1, 2]), Ok(1));
    assert_eq!(average_volume(&vec![-1, -2]), Ok(-1));
    assert_eq!(average_volume(&vec![i64::MAX, i64::MAX]), Ok(i64::MAX));
    assert_eq!(average_volume(&vec![i64::MIN, i64::MIN, i64::MIN]), Ok(i64::MIN));
}

#[test]
fn labels() {
    assert_eq!(pct_label(8437), "84.37%");
    assert_eq!(pct_label(7930), "79.3%");
    assert_eq!(pct_label(7900), "79%");
    assert_eq!(pct_label(0), "0%");
    assert_eq!(pct_label(5), "0.05%");
    assert_eq!(pct_label(-1250), "-12.5%");
    assert_eq!(pct_label(i64::MIN), "-92233720368547758.08%");
}
