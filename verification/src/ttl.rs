use vstd::prelude::*;
use crate::types::ContractError;

verus! {

/// Instance storage is re-extended when its TTL falls below this many ledgers.
pub const INSTANCE_TTL_THRESHOLD: u32 = 17_280;
/// Instance storage TTL after an extension, in ledgers.
pub const INSTANCE_TTL_EXTEND: u32 = 518_400;
/// Persistent entries are re-extended when their TTL falls below this many ledgers.
pub const PERSISTENT_TTL_THRESHOLD: u32 = 17_280;
/// Floor of every persistent TTL extension, in ledgers.
pub const PERSISTENT_TTL_EXTEND_MIN: u32 = 518_400;
/// Approximate ledger close time, in seconds.
pub const SECS_PER_LEDGER: u64 = 5;
/// Allowance expirations are rounded up to a multiple of this many ledgers.
pub const LEDGER_BUCKET: u32 = 720;
/// Minimum delay between proposing and applying a code upgrade (seven days).
pub const UPGRADE_TIMELOCK_SECS: u64 = 604_800;

pub open spec fn min_int(a: int, b: int) -> int {
    if a <= b { a } else { b }
}

pub open spec fn max_int(a: int, b: int) -> int {
    if a >= b { a } else { b }
}

/// Ledger count covering `window_secs`, capped to `u32` and floored at the
/// persistent minimum.
pub open spec fn ttl_extend_for_window_spec(window_secs: u64) -> int {
    max_int(min_int((window_secs / SECS_PER_LEDGER) as int, u32::MAX as int), PERSISTENT_TTL_EXTEND_MIN as int)
}

/// Convert a desired live window in seconds to a ledger count, clamped to the
/// network minimum-TTL floor.
pub fn ttl_extend_for_window(window_secs: u64) -> (r: u32)
    ensures
        r == ttl_extend_for_window_spec(window_secs),
{
    let ledgers: u64 = window_secs / SECS_PER_LEDGER;
    let capped: u32 = if ledgers > 0xffff_ffffu64 {
        u32::MAX
    } else {
        ledgers as u32
    };
    if capped >= PERSISTENT_TTL_EXTEND_MIN {
        capped
    } else {
        PERSISTENT_TTL_EXTEND_MIN
    }
}

/// Trial window plus one billing period of slack, saturating at `u64::MAX`.
pub open spec fn sub_ttl_window_spec(period_secs: u64, trial_period_secs: u64) -> int {
    min_int(period_secs + max_int(period_secs as int, trial_period_secs as int), u64::MAX as int)
}

/// Live window for keys whose next refresh is the first post-trial or
/// post-period charge: the longer of trial and period, plus one period.
pub fn sub_ttl_window_secs(period_secs: u64, trial_period_secs: u64) -> (r: u64)
    ensures
        r == sub_ttl_window_spec(period_secs, trial_period_secs),
{
    let longer: u64 = if period_secs >= trial_period_secs {
        period_secs
    } else {
        trial_period_secs
    };
    period_secs.saturating_add(longer)
}

/// Timestamp addition that reports overflow as `TimestampOverflow`.
pub fn checked_add_ts(a: u64, b: u64) -> (r: Result<u64, ContractError>)
    ensures
        a + b <= u64::MAX ==> r == Ok::<u64, ContractError>((a + b) as u64),
        a + b > u64::MAX ==> r == Err::<u64, ContractError>(ContractError::TimestampOverflow),
{
    match a.checked_add(b) {
        Some(s) => Ok(s),
        None => Err(ContractError::TimestampOverflow),
    }
}

pub open spec fn sat_add_u32(a: int, b: int) -> int {
    min_int(a + b, u32::MAX as int)
}

/// Allowance expiration ledger: one bucket below `seq + max_ttl`, rounded up
/// to a bucket boundary; without bucketing when `max_ttl` is at most one bucket.
pub open spec fn approval_expiration_spec(max_ttl: u32, seq: u32) -> int {
    if max_ttl <= LEDGER_BUCKET {
        sat_add_u32(seq as int, max_int(max_ttl - 1, 0))
    } else {
        let target = sat_add_u32(seq as int, max_ttl - LEDGER_BUCKET);
        sat_add_u32(target, LEDGER_BUCKET - 1) / (LEDGER_BUCKET as int) * (LEDGER_BUCKET as int)
    }
}

/// Pick the expiration ledger of a token approval from the network's
/// maximum TTL and the current ledger sequence.
pub fn compute_approval_expiration(max_ttl: u32, seq: u32) -> (r: u32)
    ensures
        r == approval_expiration_spec(max_ttl, seq),
{
    if max_ttl <= LEDGER_BUCKET {
        seq.saturating_add(max_ttl.saturating_sub(1))
    } else {
        let target: u32 = seq.saturating_add(max_ttl - LEDGER_BUCKET);
        let rounded: u32 = target.saturating_add(LEDGER_BUCKET - 1) / LEDGER_BUCKET;
        assert(rounded * LEDGER_BUCKET <= u32::MAX) by (nonlinear_arith)
            requires
                rounded == sat_add_u32(target as int, LEDGER_BUCKET - 1) / (LEDGER_BUCKET as int),
        ;
        rounded * LEDGER_BUCKET
    }
}

/// An approval expiration never passes `seq + max_ttl - 1`, the furthest
/// ledger a token approval may name.
pub proof fn lemma_approval_expiration_within_max_ttl(max_ttl: u32, seq: u32)
    requires
        max_ttl >= 1,
    ensures
        approval_expiration_spec(max_ttl, seq) <= seq + max_ttl - 1,
{
    if max_ttl > LEDGER_BUCKET {
        let target = sat_add_u32(seq as int, max_ttl - LEDGER_BUCKET);
        let s = sat_add_u32(target, LEDGER_BUCKET - 1);
        assert(s / 720 * 720 <= s) by (nonlinear_arith)
            requires
                s >= 0,
        ;
    }
}

/// With no saturation, a bucketed expiration lies strictly after the current
/// ledger and on a bucket boundary.
pub proof fn lemma_approval_expiration_bucketed(max_ttl: u32, seq: u32)
    requires
        max_ttl > LEDGER_BUCKET,
        seq + max_ttl - 1 <= u32::MAX,
    ensures
        seq < approval_expiration_spec(max_ttl, seq),
        approval_expiration_spec(max_ttl, seq) % (LEDGER_BUCKET as int) == 0,
{
    let target = seq + max_ttl - LEDGER_BUCKET;
    let s = target + LEDGER_BUCKET - 1;
    assert(s / 720 * 720 >= target && (s / 720 * 720) % 720 == 0) by (nonlinear_arith)
        requires
            s == target + 719,
            target >= 0,
    ;
}

/// The storage window of a subscription covers its whole trial plus one
/// period (unless it saturates), and without a trial it is two periods.
pub proof fn lemma_sub_ttl_window_covers_trial(period_secs: u64, trial_period_secs: u64)
    ensures
        sub_ttl_window_spec(period_secs, trial_period_secs) >= min_int(
            trial_period_secs + period_secs,
            u64::MAX as int,
        ),
        sub_ttl_window_spec(period_secs, trial_period_secs) >= min_int(
            2 * period_secs,
            u64::MAX as int,
        ),
        trial_period_secs <= period_secs ==> sub_ttl_window_spec(period_secs, trial_period_secs)
            == min_int(2 * period_secs, u64::MAX as int),
{
}

/// Every persistent TTL extension is at least the network floor and fits in `u32`.
pub proof fn lemma_ttl_extend_bounds(window_secs: u64)
    ensures
        PERSISTENT_TTL_EXTEND_MIN <= ttl_extend_for_window_spec(window_secs) <= u32::MAX,
        window_secs / SECS_PER_LEDGER >= PERSISTENT_TTL_EXTEND_MIN
            && window_secs / SECS_PER_LEDGER <= u32::MAX ==> ttl_extend_for_window_spec(
            window_secs,
        ) == window_secs / SECS_PER_LEDGER,
{
}


/// A later ledger never gets an earlier approval expiration, so a
/// re-approval cannot shorten the life of the allowance it replaces.
pub proof fn lemma_approval_expiration_monotonic(max_ttl: u32, seq1: u32, seq2: u32)
    requires
        seq1 <= seq2,
    ensures
        approval_expiration_spec(max_ttl, seq1) <= approval_expiration_spec(max_ttl, seq2),
{
    if max_ttl > LEDGER_BUCKET {
        let t1 = sat_add_u32(seq1 as int, max_ttl - LEDGER_BUCKET);
        let t2 = sat_add_u32(seq2 as int, max_ttl - LEDGER_BUCKET);
        let a = sat_add_u32(t1, LEDGER_BUCKET - 1);
        let b = sat_add_u32(t2, LEDGER_BUCKET - 1);
        assert(a <= b);
        vstd::arithmetic::div_mod::lemma_div_is_ordered(a, b, 720);
        assert(a / 720 * 720 <= b / 720 * 720) by (nonlinear_arith)
            requires
                a / 720 <= b / 720,
        ;
    }
}

} // verus!
