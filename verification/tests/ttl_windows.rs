use subscription::ttl::{
    checked_add_ts, compute_approval_expiration, sub_ttl_window_secs, ttl_extend_for_window,
    PERSISTENT_TTL_EXTEND_MIN,
};
use subscription::types::ContractError;

const DAY: u64 = 86_400;
const MONTH: u64 = 30 * DAY;
const WEEK: u64 = 7 * DAY;

#[test]
fn test_sub_ttl_window_secs_covers_trial_window() {
    // Non-trial: identical to the pre-fix behavior of `period_secs * 2`.
    assert_eq!(sub_ttl_window_secs(DAY, 0), 2 * DAY);
    assert_eq!(sub_ttl_window_secs(MONTH, 0), 2 * MONTH);

    // Trial shorter than period: still bounded by `2 * period_secs`.
    assert_eq!(sub_ttl_window_secs(MONTH, WEEK), 2 * MONTH);

    // Trial == period: degenerates to `2 * period_secs`.
    assert_eq!(sub_ttl_window_secs(WEEK, WEEK), 2 * WEEK);

    // Trial much longer than period: window covers trial + one billing slack.
    let long_trial = 90 * DAY;
    assert_eq!(sub_ttl_window_secs(DAY, long_trial), long_trial + DAY);
    assert!(sub_ttl_window_secs(DAY, long_trial) > 2 * DAY);

    // Saturating add: extreme values must not panic.
    assert_eq!(sub_ttl_window_secs(u64::MAX, u64::MAX), u64::MAX);
}

#[test]
fn ttl_extension_is_floored_and_capped() {
    assert_eq!(ttl_extend_for_window(0), PERSISTENT_TTL_EXTEND_MIN);
    assert_eq!(ttl_extend_for_window(WEEK), PERSISTENT_TTL_EXTEND_MIN);
    assert_eq!(ttl_extend_for_window(2 * MONTH), 1_036_800);
    // 365 days = 6_307_200 ledgers of five seconds
    assert_eq!(ttl_extend_for_window(365 * DAY), 6_307_200);
    assert_eq!(ttl_extend_for_window(u64::MAX), u32::MAX);
}

#[test]
fn checked_timestamp_addition() {
    assert_eq!(checked_add_ts(10, 20), Ok(30));
    assert_eq!(checked_add_ts(u64::MAX - 1, 1), Ok(u64::MAX));
    assert_eq!(checked_add_ts(u64::MAX - 100, MONTH), Err(ContractError::TimestampOverflow));
}

#[test]
fn approval_expiration_rounds_to_bucket() {
    // seq 0, max_ttl 6_312_000: target 6_311_280 rounds up to 6_311_520
    assert_eq!(compute_approval_expiration(6_312_000, 0), 6_311_520);
    // seq 1000: target 6_312_280 rounds up to 6_312_960
    assert_eq!(compute_approval_expiration(6_312_000, 1000), 6_312_960);
    assert_eq!(compute_approval_expiration(6_312_000, 1000) % 720, 0);
    // small max_ttl: no bucketing, seq + max_ttl - 1
    assert_eq!(compute_approval_expiration(100, 50), 149);
    assert_eq!(compute_approval_expiration(0, 50), 50);
    // saturation
    assert_eq!(compute_approval_expiration(100, u32::MAX), u32::MAX);
}
