use std::collections::HashMap;

use subscription::contract::SubscriptionContract;
use subscription::types::{ContractError, LedgerInfo, ProcessResult, Service, Subscription, TokenCall};

const DAY: u64 = 86_400;
const MONTH: u64 = 30 * DAY;
const WEEK: u64 = 7 * DAY;
const PRICE: i128 = 1_000;
const INITIAL_BALANCE: i128 = 100_000;
const MAX_TTL: u32 = 6_312_000;

/// A token ledger standing in for the billing token in these tests.
struct Token {
    balances: HashMap<String, i128>,
    allowances: HashMap<String, (i128, u32)>,
}

impl Token {
    fn new() -> Token {
        Token { balances: HashMap::new(), allowances: HashMap::new() }
    }

    fn mint(&mut self, who: &str, amount: i128) {
        *self.balances.entry(who.to_string()).or_insert(0) += amount;
    }

    fn balance(&self, who: &str) -> i128 {
        *self.balances.get(who).unwrap_or(&0)
    }

    fn allowance(&self, owner: &str, seq: u32) -> i128 {
        match self.allowances.get(owner) {
            Some((a, exp)) if *exp >= seq => *a,
            _ => 0,
        }
    }

    fn approve(&mut self, owner: &str, amount: i128, expiration_ledger: u32) {
        self.allowances.insert(owner.to_string(), (amount, expiration_ledger));
    }

    fn transfer(&mut self, from: &str, to: &str, amount: i128) {
        assert!(self.balance(from) >= amount, "insufficient balance");
        *self.balances.entry(from.to_string()).or_insert(0) -= amount;
        *self.balances.entry(to.to_string()).or_insert(0) += amount;
    }

    fn transfer_from(&mut self, from: &str, to: &str, amount: i128, seq: u32) -> bool {
        let a = self.allowance(from, seq);
        if a < amount || self.balance(from) < amount {
            return false;
        }
        let exp = self.allowances.get(from).unwrap().1;
        self.allowances.insert(from.to_string(), (a - amount, exp));
        self.transfer(from, to, amount);
        true
    }

    fn apply(&mut self, calls: &[TokenCall]) {
        for c in calls {
            match c {
                TokenCall::Approve { owner, amount, expiration_ledger } => {
                    self.approve(owner, *amount, *expiration_ledger)
                }
                TokenCall::Transfer { from, to, amount } => self.transfer(from, to, *amount),
            }
        }
    }
}

struct Setup {
    c: SubscriptionContract,
    token: Token,
    now: u64,
    seq: u32,
    admin: String,
    subscriber: String,
    subscriber2: String,
    merchant: String,
    merchant2: String,
    next_addr: u32,
}

fn setup() -> Setup {
    let admin = "GADMIN".to_string();
    let c = SubscriptionContract::new(admin.clone(), "CTOKEN".to_string());
    let mut token = Token::new();
    let subscriber = "GSUBSCRIBER1".to_string();
    let subscriber2 = "GSUBSCRIBER2".to_string();
    token.mint(&subscriber, INITIAL_BALANCE);
    token.mint(&subscriber2, INITIAL_BALANCE);
    Setup {
        c,
        token,
        now: 0,
        seq: 0,
        admin,
        subscriber,
        subscriber2,
        merchant: "GMERCHANT1".to_string(),
        merchant2: "GMERCHANT2".to_string(),
        next_addr: 0,
    }
}

fn generate(s: &mut Setup) -> String {
    s.next_addr += 1;
    format!("GGENERATED{}", s.next_addr)
}

fn advance_time(s: &mut Setup, timestamp: u64) {
    s.now = timestamp;
}

fn ledger(s: &Setup) -> LedgerInfo {
    LedgerInfo { timestamp: s.now, sequence: s.seq, max_ttl: MAX_TTL }
}

fn allowance(s: &Setup, who: &str) -> i128 {
    s.token.allowance(who, s.seq)
}

fn register(
    s: &mut Setup,
    merchant: &str,
    name: &str,
    price: i128,
    period: u64,
    trial: u64,
    periods: u64,
) -> Result<Service, ContractError> {
    let now = s.now;
    s.c.register_service(&merchant.to_string(), name.to_string(), price, period, trial, periods, now)
}

fn register_default_service(s: &mut Setup) -> Service {
    let m = s.merchant.clone();
    register(s, &m, "Premium Plan", PRICE, MONTH, 0, 12).unwrap()
}

fn register_trial_service(s: &mut Setup) -> Service {
    let m = s.merchant.clone();
    register(s, &m, "Trial Plan", PRICE, MONTH, WEEK, 12).unwrap()
}

fn try_subscribe(s: &mut Setup, who: &str, service_id: u64, auto_renew: bool) -> Result<Subscription, ContractError> {
    let l = ledger(s);
    let a = allowance(s, who);
    let mut calls = Vec::new();
    let r = s.c.subscribe(&who.to_string(), service_id, auto_renew, &l, a, &mut calls);
    if r.is_ok() {
        s.token.apply(&calls);
    }
    r
}

fn subscribe(s: &mut Setup, who: &str, service_id: u64, auto_renew: bool) -> Subscription {
    try_subscribe(s, who, service_id, auto_renew).unwrap()
}

fn try_cancel(s: &mut Setup, who: &str, sub_id: u64) -> Result<(), ContractError> {
    let l = ledger(s);
    let a = allowance(s, who);
    let mut calls = Vec::new();
    let r = s.c.cancel(&who.to_string(), sub_id, &l, a, &mut calls);
    if r.is_ok() {
        s.token.apply(&calls);
    }
    r
}

fn try_toggle(s: &mut Setup, who: &str, sub_id: u64) -> Result<bool, ContractError> {
    let l = ledger(s);
    let a = allowance(s, who);
    let mut calls = Vec::new();
    let r = s.c.toggle_auto_renew(&who.to_string(), sub_id, &l, a, &mut calls);
    if r.is_ok() {
        s.token.apply(&calls);
    }
    r
}

fn try_extend(s: &mut Setup, who: &str, sub_id: u64) -> Result<Subscription, ContractError> {
    let l = ledger(s);
    let a = allowance(s, who);
    let mut calls = Vec::new();
    let r = s.c.extend_subscription(&who.to_string(), sub_id, &l, a, &mut calls);
    if r.is_ok() {
        s.token.apply(&calls);
    }
    r
}

fn try_process(s: &mut Setup, merchant: &str, service_id: u64, offset: u32, limit: u32) -> Result<ProcessResult, ContractError> {
    let m = merchant.to_string();
    let charges = s.c.due_charges(&m, service_id, offset, limit, s.now)?;
    let mut outcomes = Vec::new();
    for (_, from, amount, _) in charges.iter() {
        outcomes.push(s.token.transfer_from(from, merchant, *amount, s.seq));
    }
    let now = s.now;
    s.c.process(&m, service_id, offset, limit, now, &outcomes)
}

fn process(s: &mut Setup, merchant: &str, service_id: u64, offset: u32, limit: u32) -> ProcessResult {
    try_process(s, merchant, service_id, offset, limit).unwrap()
}

fn is_active(s: &Setup, who: &str, service_id: u64) -> bool {
    s.c.is_subscription_active(&who.to_string(), service_id, s.now)
}

fn get_subscription(s: &Setup, caller: &str, sub_id: u64) -> Subscription {
    s.c.get_subscription(&caller.to_string(), sub_id).unwrap()
}

// ===========================================================================
// Service Registration
// ===========================================================================

#[test]
fn test_register_service() {
    let mut s = setup();
    let svc = register_default_service(&mut s);

    assert_eq!(svc.service_id, 0);
    assert_eq!(svc.merchant, s.merchant);
    assert_eq!(svc.name, "Premium Plan".to_string());
    assert_eq!(svc.price, PRICE);
    assert_eq!(svc.period_secs, MONTH);
    assert_eq!(svc.trial_period_secs, 0);
    assert_eq!(svc.is_active, true);
}

#[test]
fn test_register_service_invalid_price() {
    let mut s = setup();
    let m = s.merchant.clone();
    let result = register(&mut s, &m, "Bad", 0, MONTH, 0, 12);
    assert_eq!(result, Err(ContractError::InvalidPrice));
}

#[test]
fn test_register_service_invalid_period() {
    let mut s = setup();
    let m = s.merchant.clone();
    let result = register(&mut s, &m, "Bad", PRICE, 0, 0, 12);
    assert_eq!(result, Err(ContractError::InvalidPeriod));
}

#[test]
fn test_register_service_invalid_name() {
    let mut s = setup();
    let m = s.merchant.clone();
    let result = register(&mut s, &m, "", PRICE, MONTH, 0, 12);
    assert_eq!(result, Err(ContractError::InvalidServiceName));
}

#[test]
fn test_register_multiple_services() {
    let mut s = setup();
    let svc1 = register_default_service(&mut s);
    let m = s.merchant.clone();
    let svc2 = register(&mut s, &m, "Basic Plan", 500, WEEK, 0, 12).unwrap();

    assert_eq!(svc1.service_id, 0);
    assert_eq!(svc2.service_id, 1);

    let services = s.c.get_merchant_services(&s.merchant);
    assert_eq!(services.len(), 2);
}

#[test]
fn test_get_service() {
    let mut s = setup();
    let svc = register_default_service(&mut s);
    let fetched = s.c.get_service(svc.service_id).unwrap();
    assert_eq!(fetched, svc);
}

#[test]
fn test_get_service_not_found() {
    let s = setup();
    let result = s.c.get_service(99);
    assert_eq!(result, Err(ContractError::ServiceNotFound));
}

// ===========================================================================
// Service activation
// ===========================================================================

#[test]
fn test_set_service_active_blocks_new_subscriptions() {
    let mut s = setup();
    let svc = register_default_service(&mut s);

    s.c.set_service_active(&s.merchant, svc.service_id, false).unwrap();

    let who = s.subscriber.clone();
    let result = try_subscribe(&mut s, &who, svc.service_id, true);
    assert_eq!(result, Err(ContractError::ServiceNotActive));
}

#[test]
fn test_set_service_active_reactivation_allows_subscriptions() {
    let mut s = setup();
    let svc = register_default_service(&mut s);

    s.c.set_service_active(&s.merchant, svc.service_id, false).unwrap();
    s.c.set_service_active(&s.merchant, svc.service_id, true).unwrap();

    let who = s.subscriber.clone();
    let sub = subscribe(&mut s, &who, svc.service_id, true);
    assert_eq!(sub.auto_renew, true);
}

#[test]
fn test_set_service_active_only_service_owner() {
    let mut s = setup();
    let svc = register_default_service(&mut s);

    let result = s.c.set_service_active(&s.merchant2, svc.service_id, false);
    assert_eq!(result, Err(ContractError::NotServiceOwner));
}

#[test]
fn test_set_service_active_nonexistent_service() {
    let mut s = setup();
    let result = s.c.set_service_active(&s.merchant, 99, false);
    assert_eq!(result, Err(ContractError::ServiceNotFound));
}

#[test]
fn test_set_service_active_does_not_affect_existing_subs() {
    let mut s = setup();
    let svc = register_default_service(&mut s);
    let who = s.subscriber.clone();
    let _sub = subscribe(&mut s, &who, svc.service_id, true);

    s.c.set_service_active(&s.merchant, svc.service_id, false).unwrap();

    assert_eq!(is_active(&s, &who, svc.service_id), true);

    advance_time(&mut s, MONTH + 1);
    let m = s.merchant.clone();
    let r = process(&mut s, &m, svc.service_id, 0, 10);
    assert_eq!(r.charged, 1);
    assert_eq!(r.failed, 0);
}

// ===========================================================================
// Subscribe
// ===========================================================================

#[test]
fn test_subscribe_no_trial_auto_renew() {
    let mut s = setup();
    let svc = register_default_service(&mut s);
    let who = s.subscriber.clone();

    let sub = subscribe(&mut s, &who, svc.service_id, true);

    assert_eq!(sub.auto_renew, true);
    assert_eq!(sub.price, PRICE);
    assert_eq!(sub.period_secs, MONTH);
    assert_eq!(sub.trial_period_secs, 0);
    assert_eq!(sub.trial_end_ts, 0);
    assert_eq!(sub.service_end_ts, MONTH);
    assert_eq!(sub.next_charge_ts, MONTH);

    // Immediate charge happened
    assert_eq!(s.token.balance(&who), INITIAL_BALANCE - PRICE);
    assert_eq!(s.token.balance(&s.merchant), PRICE);

    assert_eq!(is_active(&s, &who, svc.service_id), true);
}

#[test]
fn test_subscribe_no_trial_no_auto_renew() {
    let mut s = setup();
    let svc = register_default_service(&mut s);
    let who = s.subscriber.clone();

    let sub = subscribe(&mut s, &who, svc.service_id, false);

    assert_eq!(sub.auto_renew, false);
    assert_eq!(sub.price, PRICE);

    // Immediate charge still happens for first period
    assert_eq!(s.token.balance(&who), INITIAL_BALANCE - PRICE);

    // Service is active during period
    assert_eq!(is_active(&s, &who, svc.service_id), true);

    // Won't renew after period ends
    advance_time(&mut s, MONTH + 1);
    assert_eq!(is_active(&s, &who, svc.service_id), false);
}

#[test]
fn test_subscribe_with_trial_auto_renew() {
    let mut s = setup();
    let svc = register_trial_service(&mut s);
    let who = s.subscriber.clone();

    let sub = subscribe(&mut s, &who, svc.service_id, true);

    assert_eq!(sub.auto_renew, true);
    assert_eq!(sub.trial_period_secs, WEEK);
    assert_eq!(sub.trial_end_ts, WEEK);
    assert_eq!(sub.service_end_ts, WEEK);
    assert_eq!(sub.next_charge_ts, WEEK);

    // No charge during trial
    assert_eq!(s.token.balance(&who), INITIAL_BALANCE);
    assert_eq!(s.token.balance(&s.merchant), 0);

    assert_eq!(is_active(&s, &who, svc.service_id), true);
}

#[test]
fn test_subscribe_with_trial_no_auto_renew() {
    let mut s = setup();
    let svc = register_trial_service(&mut s);
    let who = s.subscriber.clone();

    let sub = subscribe(&mut s, &who, svc.service_id, false);

    assert_eq!(sub.auto_renew, false);
    assert_eq!(sub.trial_period_secs, WEEK);
    assert_eq!(sub.trial_end_ts, WEEK);
    assert_eq!(sub.service_end_ts, WEEK);

    // No charge, no approval – trial only
    assert_eq!(s.token.balance(&who), INITIAL_BALANCE);

    // Active during trial
    assert_eq!(is_active(&s, &who, svc.service_id), true);

    // Expires after trial
    advance_time(&mut s, WEEK + 1);
    assert_eq!(is_active(&s, &who, svc.service_id), false);

    // Process won't charge since auto_renew=false
    let m = s.merchant.clone();
    let result = process(&mut s, &m, svc.service_id, 0, 100);
    assert_eq!(result.charged, 0);
    assert_eq!(result.skipped, 1);
}

#[test]
fn test_subscribe_trial_abuse_blocked() {
    let mut s = setup();
    let svc = register_trial_service(&mut s);
    let who = s.subscriber.clone();

    // First trial subscription (no auto_renew) — free trial, no charge
    subscribe(&mut s, &who, svc.service_id, false);
    assert_eq!(s.token.balance(&who), INITIAL_BALANCE);

    // Wait for trial to expire
    advance_time(&mut s, WEEK + 1);
    assert_eq!(is_active(&s, &who, svc.service_id), false);

    // Re-subscribing without auto_renew is allowed but no second trial:
    // contract takes the paid path and charges immediately.
    let sub2 = subscribe(&mut s, &who, svc.service_id, false);
    assert_eq!(sub2.trial_period_secs, 0);
    assert_eq!(sub2.trial_end_ts, 0);
    assert_eq!(s.token.balance(&who), INITIAL_BALANCE - PRICE);
}

#[test]
fn test_subscribe_trial_abuse_blocked_via_auto_renew_cycle() {
    let mut s = setup();
    let svc = register_trial_service(&mut s);
    let who = s.subscriber.clone();

    let sub1 = subscribe(&mut s, &who, svc.service_id, true);
    assert_eq!(sub1.trial_period_secs, WEEK);

    // Cancel during the trial — keeps trial active but disables auto-renew
    try_cancel(&mut s, &who, sub1.sub_id).unwrap();

    // Trial expires
    advance_time(&mut s, WEEK + 1);

    // Second subscribe with auto_renew=true must NOT grant another trial
    let sub2 = subscribe(&mut s, &who, svc.service_id, true);
    assert_eq!(sub2.auto_renew, true);
    assert_eq!(sub2.trial_period_secs, 0);
    assert_eq!(sub2.trial_end_ts, 0);

    // Paid path: first period charged immediately
    assert_eq!(s.token.balance(&who), INITIAL_BALANCE - PRICE);
}

#[test]
fn test_subscribe_multiple_services() {
    let mut s = setup();
    let svc1 = register_default_service(&mut s);
    let m2 = s.merchant2.clone();
    let svc2 = register(&mut s, &m2, "Other Plan", 500, WEEK, 0, 12).unwrap();
    let who = s.subscriber.clone();

    let sub1 = subscribe(&mut s, &who, svc1.service_id, true);
    let sub2 = subscribe(&mut s, &who, svc2.service_id, true);

    assert_eq!(sub1.service_id, svc1.service_id);
    assert_eq!(sub2.service_id, svc2.service_id);
    assert_eq!(sub1.price, PRICE);
    assert_eq!(sub2.price, 500);

    let subs = s.c.get_subscriber_subs(&who);
    assert_eq!(subs.len(), 2);
}

#[test]
fn test_subscribe_duplicate_rejected() {
    let mut s = setup();
    let svc = register_default_service(&mut s);
    let who = s.subscriber.clone();

    subscribe(&mut s, &who, svc.service_id, true);

    let result = try_subscribe(&mut s, &who, svc.service_id, true);
    assert_eq!(result, Err(ContractError::AlreadySubscribed));
}

#[test]
fn test_subscribe_nonexistent_service() {
    let mut s = setup();
    let who = s.subscriber.clone();
    let result = try_subscribe(&mut s, &who, 99, true);
    assert_eq!(result, Err(ContractError::ServiceNotFound));
}

#[test]
fn test_subscribe_resubscribe_after_expiry() {
    let mut s = setup();
    let svc = register_default_service(&mut s);
    let who = s.subscriber.clone();

    let sub = subscribe(&mut s, &who, svc.service_id, true);
    try_cancel(&mut s, &who, sub.sub_id).unwrap();

    // Advance past service_end_ts
    advance_time(&mut s, MONTH + 1);

    // Re-subscribe should work
    let sub2 = subscribe(&mut s, &who, svc.service_id, true);
    assert_eq!(sub2.auto_renew, true);
    assert!(sub2.sub_id != sub.sub_id);
}

// ===========================================================================
// Cancel
// ===========================================================================

#[test]
fn test_cancel_subscription() {
    let mut s = setup();
    let svc = register_default_service(&mut s);
    let who = s.subscriber.clone();
    let sub = subscribe(&mut s, &who, svc.service_id, true);

    advance_time(&mut s, 15 * DAY);
    try_cancel(&mut s, &who, sub.sub_id).unwrap();

    let updated = get_subscription(&s, &who, sub.sub_id);
    assert_eq!(updated.auto_renew, false);
    assert_eq!(updated.service_end_ts, MONTH);

    // Service still active mid-period
    assert_eq!(is_active(&s, &who, svc.service_id), true);

    // Service inactive after period ends
    advance_time(&mut s, MONTH + 1);
    assert_eq!(is_active(&s, &who, svc.service_id), false);
}

#[test]
fn test_cancel_nonexistent() {
    let mut s = setup();
    let who = s.subscriber.clone();
    let result = try_cancel(&mut s, &who, 999);
    assert_eq!(result, Err(ContractError::SubscriptionNotFound));
}

#[test]
fn test_cancel_already_cancelled() {
    let mut s = setup();
    let svc = register_default_service(&mut s);
    let who = s.subscriber.clone();
    let sub = subscribe(&mut s, &who, svc.service_id, true);

    try_cancel(&mut s, &who, sub.sub_id).unwrap();

    let result = try_cancel(&mut s, &who, sub.sub_id);
    assert_eq!(result, Err(ContractError::AlreadyCancelled));
}

#[test]
fn test_cancel_wrong_subscriber() {
    let mut s = setup();
    let svc = register_default_service(&mut s);
    let who = s.subscriber.clone();
    let sub = subscribe(&mut s, &who, svc.service_id, true);

    let other = s.subscriber2.clone();
    let result = try_cancel(&mut s, &other, sub.sub_id);
    assert_eq!(result, Err(ContractError::Unauthorized));
}

#[test]
fn test_cancel_during_trial() {
    let mut s = setup();
    let svc = register_trial_service(&mut s);
    let who = s.subscriber.clone();
    let sub = subscribe(&mut s, &who, svc.service_id, true);

    advance_time(&mut s, 3 * DAY);
    try_cancel(&mut s, &who, sub.sub_id).unwrap();

    // Service still active during trial
    assert_eq!(is_active(&s, &who, svc.service_id), true);

    // Service inactive after trial ends
    advance_time(&mut s, WEEK + 1);
    assert_eq!(is_active(&s, &who, svc.service_id), false);

    // No charge ever happened
    assert_eq!(s.token.balance(&who), INITIAL_BALANCE);
}

// ===========================================================================
// Toggle auto-renew
// ===========================================================================

#[test]
fn test_toggle_auto_renew_off() {
    let mut s = setup();
    let svc = register_default_service(&mut s);
    let who = s.subscriber.clone();
    let sub = subscribe(&mut s, &who, svc.service_id, true);

    advance_time(&mut s, 10 * DAY);

    let result = try_toggle(&mut s, &who, sub.sub_id).unwrap();
    assert_eq!(result, false);

    let updated = get_subscription(&s, &who, sub.sub_id);
    assert_eq!(updated.auto_renew, false);
}

#[test]
fn test_toggle_auto_renew_back_on() {
    let mut s = setup();
    let svc = register_default_service(&mut s);
    let who = s.subscriber.clone();
    let sub = subscribe(&mut s, &who, svc.service_id, true);

    advance_time(&mut s, 10 * DAY);

    // Toggle off
    let r1 = try_toggle(&mut s, &who, sub.sub_id).unwrap();
    assert_eq!(r1, false);

    // Toggle back on (still within service_end_ts)
    let r2 = try_toggle(&mut s, &who, sub.sub_id).unwrap();
    assert_eq!(r2, true);

    let updated = get_subscription(&s, &who, sub.sub_id);
    assert_eq!(updated.auto_renew, true);
}

#[test]
fn test_toggle_auto_renew_expired_fails() {
    let mut s = setup();
    let svc = register_default_service(&mut s);
    let who = s.subscriber.clone();
    let sub = subscribe(&mut s, &who, svc.service_id, true);

    // Cancel then let it expire
    try_cancel(&mut s, &who, sub.sub_id).unwrap();
    advance_time(&mut s, MONTH + 1);

    // Cannot re-enable on expired sub
    let result = try_toggle(&mut s, &who, sub.sub_id);
    assert_eq!(result, Err(ContractError::SubscriptionExpired));
}

#[test]
fn test_toggle_auto_renew_wrong_subscriber() {
    let mut s = setup();
    let svc = register_default_service(&mut s);
    let who = s.subscriber.clone();
    let sub = subscribe(&mut s, &who, svc.service_id, true);

    let other = s.subscriber2.clone();
    let result = try_toggle(&mut s, &other, sub.sub_id);
    assert_eq!(result, Err(ContractError::Unauthorized));
}

// ===========================================================================
// Extend Subscription
// ===========================================================================

#[test]
fn test_extend_subscription() {
    let mut s = setup();
    let svc = register_default_service(&mut s);
    let who = s.subscriber.clone();
    let sub = subscribe(&mut s, &who, svc.service_id, true);

    advance_time(&mut s, 10 * DAY);

    let extended = try_extend(&mut s, &who, sub.sub_id).unwrap();
    assert_eq!(extended.auto_renew, true);
    assert_eq!(extended.sub_id, sub.sub_id);
}

#[test]
fn test_extend_subscription_reactivates_auto_renew() {
    let mut s = setup();
    let svc = register_default_service(&mut s);
    let who = s.subscriber.clone();
    let sub = subscribe(&mut s, &who, svc.service_id, true);

    // Cancel (sets auto_renew to false)
    try_cancel(&mut s, &who, sub.sub_id).unwrap();
    let cancelled = get_subscription(&s, &who, sub.sub_id);
    assert_eq!(cancelled.auto_renew, false);

    // Extend while still within service period
    advance_time(&mut s, 10 * DAY);
    let extended = try_extend(&mut s, &who, sub.sub_id).unwrap();
    assert_eq!(extended.auto_renew, true);
}

#[test]
fn test_extend_subscription_from_no_auto_renew() {
    let mut s = setup();
    let svc = register_default_service(&mut s);
    let who = s.subscriber.clone();

    // Subscribe without auto_renew (one-time)
    let sub = subscribe(&mut s, &who, svc.service_id, false);
    assert_eq!(sub.auto_renew, false);

    // Decide to continue: extend mid-period
    advance_time(&mut s, 10 * DAY);
    let extended = try_extend(&mut s, &who, sub.sub_id).unwrap();
    assert_eq!(extended.auto_renew, true);

    // Now process() can charge after current period ends
    s.token.approve(&who, INITIAL_BALANCE, 10000);
    advance_time(&mut s, MONTH + 1);
    let m = s.merchant.clone();
    let result = process(&mut s, &m, svc.service_id, 0, 100);
    assert_eq!(result.charged, 1);
}

#[test]
fn test_extend_subscription_expired_fails() {
    let mut s = setup();
    let svc = register_default_service(&mut s);
    let who = s.subscriber.clone();
    let sub = subscribe(&mut s, &who, svc.service_id, true);

    try_cancel(&mut s, &who, sub.sub_id).unwrap();
    advance_time(&mut s, MONTH + 1);

    let result = try_extend(&mut s, &who, sub.sub_id);
    assert_eq!(result, Err(ContractError::SubscriptionExpired));
}

#[test]
fn test_extend_subscription_wrong_subscriber() {
    let mut s = setup();
    let svc = register_default_service(&mut s);
    let who = s.subscriber.clone();
    let sub = subscribe(&mut s, &who, svc.service_id, true);

    let other = s.subscriber2.clone();
    let result = try_extend(&mut s, &other, sub.sub_id);
    assert_eq!(result, Err(ContractError::Unauthorized));
}

// ===========================================================================
// Process
// ===========================================================================

#[test]
fn test_process_single_charge() {
    let mut s = setup();
    let svc = register_default_service(&mut s);
    let who = s.subscriber.clone();

    subscribe(&mut s, &who, svc.service_id, true);

    // Set explicit approval for process transfer_from
    s.token.approve(&who, INITIAL_BALANCE, 10000);

    advance_time(&mut s, MONTH + 1);

    let m = s.merchant.clone();
    let result = process(&mut s, &m, svc.service_id, 0, 100);
    assert_eq!(result.charged, 1);
    assert_eq!(result.failed, 0);
    assert_eq!(result.skipped, 0);

    // Two charges: subscribe + renewal
    assert_eq!(s.token.balance(&who), INITIAL_BALANCE - 2 * PRICE);
    assert_eq!(s.token.balance(&s.merchant), 2 * PRICE);
}

#[test]
fn test_process_batch_multiple_subscribers() {
    let mut s = setup();
    let svc = register_default_service(&mut s);
    let who = s.subscriber.clone();
    let who2 = s.subscriber2.clone();

    subscribe(&mut s, &who, svc.service_id, true);
    subscribe(&mut s, &who2, svc.service_id, true);

    s.token.approve(&who, INITIAL_BALANCE, 10000);
    s.token.approve(&who2, INITIAL_BALANCE, 10000);

    advance_time(&mut s, MONTH + 1);

    let m = s.merchant.clone();
    let result = process(&mut s, &m, svc.service_id, 0, 100);
    assert_eq!(result.charged, 2);
    assert_eq!(result.failed, 0);
    assert_eq!(result.skipped, 0);
}

#[test]
fn test_process_insufficient_funds() {
    let mut s = setup();
    let svc = register_default_service(&mut s);
    let who = s.subscriber.clone();

    subscribe(&mut s, &who, svc.service_id, true);

    // Drain subscriber balance so renewal fails
    let remaining = s.token.balance(&who);
    let admin = s.admin.clone();
    s.token.transfer(&who, &admin, remaining);
    assert_eq!(s.token.balance(&who), 0);

    advance_time(&mut s, MONTH + 1);

    let m = s.merchant.clone();
    let result = process(&mut s, &m, svc.service_id, 0, 100);
    assert_eq!(result.charged, 0);
    assert_eq!(result.failed, 1);
    assert_eq!(result.skipped, 0);

    let sub = get_subscription(&s, &who, 0);
    assert_eq!(sub.auto_renew, false);
}

#[test]
fn test_process_before_due() {
    let mut s = setup();
    let svc = register_default_service(&mut s);
    let who = s.subscriber.clone();

    subscribe(&mut s, &who, svc.service_id, true);

    // Don't advance time
    let m = s.merchant.clone();
    let result = process(&mut s, &m, svc.service_id, 0, 100);
    assert_eq!(result.charged, 0);
    assert_eq!(result.failed, 0);
    assert_eq!(result.skipped, 1);

    // Only the initial subscribe charge
    assert_eq!(s.token.balance(&who), INITIAL_BALANCE - PRICE);
}

#[test]
fn test_process_no_drift() {
    let mut s = setup();
    let svc = register_default_service(&mut s);
    let who = s.subscriber.clone();

    subscribe(&mut s, &who, svc.service_id, true);

    s.token.approve(&who, INITIAL_BALANCE, 10000);

    // Advance 5 days past due
    advance_time(&mut s, MONTH + 5 * DAY);

    let m = s.merchant.clone();
    let result = process(&mut s, &m, svc.service_id, 0, 100);
    assert_eq!(result.charged, 1);

    // next_charge_ts = old_next_charge_ts + period, not now + period
    let sub = get_subscription(&s, &who, 0);
    assert_eq!(sub.next_charge_ts, MONTH + MONTH);
    assert_eq!(sub.service_end_ts, MONTH + MONTH);
}

#[test]
fn test_process_wrong_merchant() {
    let mut s = setup();
    let svc = register_default_service(&mut s);
    let who = s.subscriber.clone();
    subscribe(&mut s, &who, svc.service_id, true);

    let m2 = s.merchant2.clone();
    let result = try_process(&mut s, &m2, svc.service_id, 0, 100);
    assert_eq!(result, Err(ContractError::NotServiceOwner));
}

#[test]
fn test_process_trial_expiry_and_first_charge() {
    let mut s = setup();
    let svc = register_trial_service(&mut s);
    let who = s.subscriber.clone();

    subscribe(&mut s, &who, svc.service_id, true);

    // No charge during trial
    assert_eq!(s.token.balance(&who), INITIAL_BALANCE);

    s.token.approve(&who, INITIAL_BALANCE, 10000);

    // Advance past trial
    advance_time(&mut s, WEEK + 1);

    let m = s.merchant.clone();
    let result = process(&mut s, &m, svc.service_id, 0, 100);
    assert_eq!(result.charged, 1);

    let sub = get_subscription(&s, &who, 0);
    assert_eq!(sub.next_charge_ts, WEEK + MONTH);
    assert_eq!(sub.service_end_ts, WEEK + MONTH);
    assert_eq!(sub.auto_renew, true);

    assert_eq!(s.token.balance(&who), INITIAL_BALANCE - PRICE);
    assert_eq!(s.token.balance(&s.merchant), PRICE);
}

#[test]
fn test_long_trial_state_survives_until_first_charge() {
    let mut s = setup();

    let period = DAY;
    let trial = 90 * DAY;
    let m = s.merchant.clone();
    let svc = register(&mut s, &m, "Long Trial", PRICE, period, trial, 12).unwrap();
    let who = s.subscriber.clone();

    let sub = subscribe(&mut s, &who, svc.service_id, true);

    const TEST_SECS_PER_LEDGER: u64 = 5;
    let old_ttl_ledgers = (2 * period / TEST_SECS_PER_LEDGER) as u32;
    let advance_ledgers = old_ttl_ledgers.saturating_add(50_000);
    s.seq = s.seq.saturating_add(advance_ledgers);
    s.now += trial;

    let fetched = get_subscription(&s, &who, sub.sub_id);
    assert_eq!(fetched.sub_id, sub.sub_id);
    let fetched_svc = s.c.get_service(svc.service_id).unwrap();
    assert_eq!(fetched_svc.service_id, svc.service_id);

    let result = process(&mut s, &m, svc.service_id, 0, 10);
    assert_eq!(result.charged, 1);
    assert_eq!(result.failed, 0);
    assert_eq!(s.token.balance(&who), INITIAL_BALANCE - PRICE);
}

#[test]
fn test_process_skips_no_auto_renew() {
    let mut s = setup();
    let svc = register_default_service(&mut s);
    let who = s.subscriber.clone();

    // Subscribe without auto_renew
    subscribe(&mut s, &who, svc.service_id, false);

    advance_time(&mut s, MONTH + 1);

    let m = s.merchant.clone();
    let result = process(&mut s, &m, svc.service_id, 0, 100);
    assert_eq!(result.charged, 0);
    assert_eq!(result.failed, 0);
    assert_eq!(result.skipped, 1);

    // Only the initial charge, no renewal
    assert_eq!(s.token.balance(&who), INITIAL_BALANCE - PRICE);
}

// ===========================================================================
// Access Control
// ===========================================================================

#[test]
fn test_get_subscription_by_subscriber() {
    let mut s = setup();
    let svc = register_default_service(&mut s);
    let who = s.subscriber.clone();
    let sub = subscribe(&mut s, &who, svc.service_id, true);

    let fetched = get_subscription(&s, &who, sub.sub_id);
    assert_eq!(fetched, sub);
}

#[test]
fn test_get_subscription_by_merchant() {
    let mut s = setup();
    let svc = register_default_service(&mut s);
    let who = s.subscriber.clone();
    let sub = subscribe(&mut s, &who, svc.service_id, true);

    let m = s.merchant.clone();
    let fetched = get_subscription(&s, &m, sub.sub_id);
    assert_eq!(fetched, sub);
}

#[test]
fn test_get_subscription_unauthorized() {
    let mut s = setup();
    let svc = register_default_service(&mut s);
    let who = s.subscriber.clone();
    let sub = subscribe(&mut s, &who, svc.service_id, true);

    let result = s.c.get_subscription(&s.subscriber2, sub.sub_id);
    assert_eq!(result, Err(ContractError::Unauthorized));
}

#[test]
fn test_get_subscriber_subs() {
    let mut s = setup();
    let svc1 = register_default_service(&mut s);
    let m2 = s.merchant2.clone();
    let svc2 = register(&mut s, &m2, "Other", 500, WEEK, 0, 12).unwrap();
    let who = s.subscriber.clone();

    subscribe(&mut s, &who, svc1.service_id, true);
    subscribe(&mut s, &who, svc2.service_id, true);

    let subs = s.c.get_subscriber_subs(&who);
    assert_eq!(subs.len(), 2);
}

#[test]
fn test_get_merchant_subs() {
    let mut s = setup();
    let svc = register_default_service(&mut s);
    let who = s.subscriber.clone();
    let who2 = s.subscriber2.clone();

    subscribe(&mut s, &who, svc.service_id, true);
    subscribe(&mut s, &who2, svc.service_id, true);

    let subs = s.c.get_merchant_subs(&s.merchant, svc.service_id).unwrap();
    assert_eq!(subs.len(), 2);
}

#[test]
fn test_get_merchant_subs_wrong_merchant() {
    let mut s = setup();
    let svc = register_default_service(&mut s);

    let result = s.c.get_merchant_subs(&s.merchant2, svc.service_id);
    assert_eq!(result, Err(ContractError::NotServiceOwner));
}

// ===========================================================================
// is_subscription_active
// ===========================================================================

#[test]
fn test_is_subscription_active_no_subscription() {
    let mut s = setup();
    let random = generate(&mut s);
    assert_eq!(is_active(&s, &random, 0), false);
}

#[test]
fn test_upgrade() {
    let mut s = setup();
    let wasm_hash = [9u8; 32];
    let now = s.now;
    let p = s.c.propose_upgrade(wasm_hash, now).unwrap();
    advance_time(&mut s, p.apply_after_ts);
    let now = s.now;
    assert_eq!(s.c.apply_upgrade(now), Ok(wasm_hash));
    assert_eq!(s.c.version(), 1);
}

#[test]
fn test_version() {
    let s = setup();
    assert_eq!(s.c.version(), 1);
}

// ===========================================================================
// Admin rotation (two-step transfer)
// ===========================================================================

#[test]
fn test_admin_rotation_two_step_completes() {
    let mut s = setup();
    let new_admin = generate(&mut s);

    // Stage 1: current admin proposes a successor — Admin field unchanged.
    s.c.propose_admin(new_admin.clone());
    assert_eq!(*s.c.admin(), s.admin);

    // Stage 2: proposed address accepts.
    s.c.accept_admin(&new_admin).unwrap();
    assert_eq!(*s.c.admin(), new_admin);
}

#[test]
fn test_accept_admin_without_proposal_fails() {
    let mut s = setup();
    let admin = s.admin.clone();
    let result = s.c.accept_admin(&admin);
    assert_eq!(result, Err(ContractError::NoAdminProposed));
}

#[test]
fn test_accept_admin_wrong_address_fails() {
    let mut s = setup();
    let proposed = generate(&mut s);
    let imposter = generate(&mut s);

    s.c.propose_admin(proposed);

    let result = s.c.accept_admin(&imposter);
    assert_eq!(result, Err(ContractError::NotProposedAdmin));
}

#[test]
fn test_repropose_overrides_pending() {
    let mut s = setup();
    let first = generate(&mut s);
    let second = generate(&mut s);

    s.c.propose_admin(first.clone());
    s.c.propose_admin(second.clone());

    let stale = s.c.accept_admin(&first);
    assert_eq!(stale, Err(ContractError::NotProposedAdmin));

    s.c.accept_admin(&second).unwrap();
}

#[test]
fn test_old_admin_loses_role_after_rotation() {
    let mut s = setup();
    let new_admin = generate(&mut s);

    s.c.propose_admin(new_admin.clone());
    s.c.accept_admin(&new_admin).unwrap();

    // new_admin now has rotation authority — proposing again works.
    let third = generate(&mut s);
    s.c.propose_admin(third.clone());
    s.c.accept_admin(&third).unwrap();

    assert_eq!(*s.c.admin(), third);
    assert_ne!(*s.c.admin(), s.admin);
}

// ===========================================================================
// Timestamp overflow
// ===========================================================================

#[test]
fn test_timestamp_overflow() {
    let mut s = setup();
    let svc = register_default_service(&mut s);
    let who = s.subscriber.clone();

    // Advance to near u64::MAX
    advance_time(&mut s, u64::MAX - 100);

    // Subscribe should fail with overflow since now + period_secs overflows
    let result = try_subscribe(&mut s, &who, svc.service_id, true);
    assert_eq!(result, Err(ContractError::TimestampOverflow));
}

// ===========================================================================
// Pagination
// ===========================================================================

const PAGINATION_TEST_N: u32 = 55;

fn fund_and_subscribe(s: &mut Setup, service_id: u64) -> String {
    let a = generate(s);
    s.token.mint(&a, INITIAL_BALANCE);
    subscribe(s, &a, service_id, true);
    a
}

#[test]
fn test_pagination_get_merchant_subs_across_pages() {
    let mut s = setup();
    let svc = register_default_service(&mut s);

    for _ in 0..PAGINATION_TEST_N {
        fund_and_subscribe(&mut s, svc.service_id);
    }

    let result = s.c.get_merchant_subs(&s.merchant, svc.service_id).unwrap();
    assert_eq!(result.len(), PAGINATION_TEST_N as usize);
}

#[test]
fn test_pagination_get_subscriber_subs_across_pages() {
    let mut s = setup();
    let m = s.merchant.clone();
    let who = s.subscriber.clone();

    let mut svc_ids: Vec<u64> = Vec::new();
    for _ in 0..PAGINATION_TEST_N {
        let svc = register(&mut s, &m, "Plan", PRICE, MONTH, 0, 12).unwrap();
        svc_ids.push(svc.service_id);
    }
    for id in svc_ids.iter() {
        subscribe(&mut s, &who, *id, true);
    }

    let result = s.c.get_subscriber_subs(&who);
    assert_eq!(result.len(), PAGINATION_TEST_N as usize);
}

#[test]
fn test_pagination_get_merchant_services_across_pages() {
    let mut s = setup();
    let m = s.merchant.clone();

    for _ in 0..PAGINATION_TEST_N {
        register(&mut s, &m, "Plan", PRICE, MONTH, 0, 12).unwrap();
    }

    let result = s.c.get_merchant_services(&m);
    assert_eq!(result.len(), PAGINATION_TEST_N as usize);
}

#[test]
fn test_pagination_process_iterates_across_pages() {
    let mut s = setup();
    let svc = register_default_service(&mut s);

    for _ in 0..PAGINATION_TEST_N {
        fund_and_subscribe(&mut s, svc.service_id);
    }

    advance_time(&mut s, MONTH + 1);

    let m = s.merchant.clone();
    let r = process(&mut s, &m, svc.service_id, 0, PAGINATION_TEST_N);
    assert_eq!(r.charged, PAGINATION_TEST_N);
    assert_eq!(r.total, PAGINATION_TEST_N);
}

#[test]
fn test_pagination_process_offset_in_second_page() {
    let mut s = setup();
    let svc = register_default_service(&mut s);

    for _ in 0..PAGINATION_TEST_N {
        fund_and_subscribe(&mut s, svc.service_id);
    }

    advance_time(&mut s, MONTH + 1);

    let m = s.merchant.clone();
    // Process the first page only
    let r1 = process(&mut s, &m, svc.service_id, 0, 50);
    assert_eq!(r1.charged, 50);
    assert_eq!(r1.total, PAGINATION_TEST_N);

    // Process the tail (offset 50 lands on the second page).
    let r2 = process(&mut s, &m, svc.service_id, 50, 50);
    assert_eq!(r2.charged, 5);
    assert_eq!(r2.total, PAGINATION_TEST_N);
    assert_eq!(r2.skipped, 0);
}

#[test]
fn test_resubscribe_prunes_stale_index_entries() {
    let mut s = setup();
    let svc = register_default_service(&mut s);
    let who = s.subscriber.clone();

    let cycles: u64 = 5;
    for i in 0..cycles {
        let sub = subscribe(&mut s, &who, svc.service_id, true);
        try_cancel(&mut s, &who, sub.sub_id).unwrap();
        advance_time(&mut s, (i + 1) * (MONTH + 1));
    }

    let merchant_subs = s.c.get_merchant_subs(&s.merchant, svc.service_id).unwrap();
    assert_eq!(merchant_subs.len(), 1);

    let subscriber_subs = s.c.get_subscriber_subs(&who);
    assert_eq!(subscriber_subs.len(), 1);
}

// ===========================================================================
// Allowance revocation
// ===========================================================================

#[test]
fn test_cancel_revokes_allowance_for_single_sub() {
    let mut s = setup();
    let svc = register_default_service(&mut s);
    let who = s.subscriber.clone();
    let sub = subscribe(&mut s, &who, svc.service_id, true);

    let allowance_before = allowance(&s, &who);
    assert!(allowance_before > 0);

    try_cancel(&mut s, &who, sub.sub_id).unwrap();

    let allowance_after = allowance(&s, &who);
    assert_eq!(allowance_after, 0);
}

#[test]
fn test_cancel_reduces_allowance_by_only_cancelled_sub_share() {
    let mut s = setup();
    let svc1 = register_default_service(&mut s);
    let m2 = s.merchant2.clone();
    let svc2 = register(&mut s, &m2, "Other Plan", 500, WEEK, 0, 12).unwrap();
    let who = s.subscriber.clone();

    let sub1 = subscribe(&mut s, &who, svc1.service_id, true);
    let _sub2 = subscribe(&mut s, &who, svc2.service_id, true);

    let allowance_after_both = allowance(&s, &who);
    assert_eq!(allowance_after_both, 12 * PRICE + 12 * 500);

    try_cancel(&mut s, &who, sub1.sub_id).unwrap();

    let allowance_after_cancel = allowance(&s, &who);
    assert_eq!(allowance_after_cancel, 12 * 500);
}

#[test]
fn test_toggle_auto_renew_off_revokes_allowance() {
    let mut s = setup();
    let svc = register_default_service(&mut s);
    let who = s.subscriber.clone();
    let sub = subscribe(&mut s, &who, svc.service_id, true);

    let new_state = try_toggle(&mut s, &who, sub.sub_id).unwrap();
    assert_eq!(new_state, false);

    assert_eq!(allowance(&s, &who), 0);
}

#[test]
fn test_subscribe_aggregates_allowance_across_services() {
    let mut s = setup();
    let svc1 = register_default_service(&mut s);
    let m2 = s.merchant2.clone();
    let svc2 = register(&mut s, &m2, "Cheap", 10, MONTH, 0, 12).unwrap();
    let who = s.subscriber.clone();

    subscribe(&mut s, &who, svc1.service_id, true);
    let after_sub1 = allowance(&s, &who);
    assert_eq!(after_sub1, 12 * PRICE);

    subscribe(&mut s, &who, svc2.service_id, true);
    let after_sub2 = allowance(&s, &who);
    assert_eq!(after_sub2, 12 * PRICE + 12 * 10);
}

#[test]
fn test_subscribe_to_cheaper_service_does_not_break_existing() {
    let mut s = setup();
    let svc1 = register_default_service(&mut s);
    let m2 = s.merchant2.clone();
    let svc2 = register(&mut s, &m2, "Cheap", 10, MONTH, 0, 12).unwrap();
    let who = s.subscriber.clone();

    subscribe(&mut s, &who, svc1.service_id, true);
    subscribe(&mut s, &who, svc2.service_id, true);

    advance_time(&mut s, MONTH + 1);

    let m = s.merchant.clone();
    let r1 = process(&mut s, &m, svc1.service_id, 0, 10);
    assert_eq!(r1.charged, 1);
    assert_eq!(r1.failed, 0);

    let r2 = process(&mut s, &m2, svc2.service_id, 0, 10);
    assert_eq!(r2.charged, 1);
    assert_eq!(r2.failed, 0);
}

#[test]
fn test_extend_subscription_does_not_truncate_other_sub_budget() {
    let mut s = setup();
    let svc1 = register_default_service(&mut s);
    let m2 = s.merchant2.clone();
    let svc2 = register(&mut s, &m2, "Cheap", 10, MONTH, 0, 12).unwrap();
    let who = s.subscriber.clone();

    subscribe(&mut s, &who, svc1.service_id, true);
    let sub2 = subscribe(&mut s, &who, svc2.service_id, false);
    let allowance_after_subs = allowance(&s, &who);
    assert_eq!(allowance_after_subs, 12 * PRICE + 10);

    try_extend(&mut s, &who, sub2.sub_id).unwrap();
    let allowance_after_extend = allowance(&s, &who);

    assert!(allowance_after_extend >= 12 * PRICE);
    assert_eq!(allowance_after_extend, 12 * PRICE + 10 + 12 * 10);
}

#[test]
fn test_toggle_auto_renew_back_on_restores_allowance() {
    let mut s = setup();
    let svc = register_default_service(&mut s);
    let who = s.subscriber.clone();
    let sub = subscribe(&mut s, &who, svc.service_id, true);

    try_toggle(&mut s, &who, sub.sub_id).unwrap();
    assert_eq!(allowance(&s, &who), 0);

    try_toggle(&mut s, &who, sub.sub_id).unwrap();
    assert!(allowance(&s, &who) > 0);
}

#[test]
fn test_toggle_off_reduces_allowance_by_only_toggled_sub_share() {
    let mut s = setup();
    let svc1 = register_default_service(&mut s);
    let m2 = s.merchant2.clone();
    let svc2 = register(&mut s, &m2, "Other Plan", 500, WEEK, 0, 12).unwrap();
    let who = s.subscriber.clone();

    let sub1 = subscribe(&mut s, &who, svc1.service_id, true);
    subscribe(&mut s, &who, svc2.service_id, true);

    try_toggle(&mut s, &who, sub1.sub_id).unwrap();

    assert_eq!(allowance(&s, &who), 12 * 500);
}

#[test]
fn test_cancel_after_charges_reduces_only_remaining_reserved() {
    let mut s = setup();
    let svc1 = register_default_service(&mut s);
    let m2 = s.merchant2.clone();
    let svc2 = register(&mut s, &m2, "Other", 500, MONTH, 0, 12).unwrap();
    let who = s.subscriber.clone();

    let sub1 = subscribe(&mut s, &who, svc1.service_id, true);
    subscribe(&mut s, &who, svc2.service_id, true);

    assert_eq!(allowance(&s, &who), 12 * PRICE + 12 * 500);

    let m = s.merchant.clone();
    advance_time(&mut s, MONTH + 1);
    process(&mut s, &m, svc1.service_id, 0, 10);
    advance_time(&mut s, 2 * MONTH + 1);
    process(&mut s, &m, svc1.service_id, 0, 10);
    advance_time(&mut s, 3 * MONTH + 1);
    process(&mut s, &m, svc1.service_id, 0, 10);

    let allowance_after_3_charges = allowance(&s, &who);
    assert_eq!(allowance_after_3_charges, 12 * PRICE - 3 * PRICE + 12 * 500);

    try_cancel(&mut s, &who, sub1.sub_id).unwrap();

    let allowance_after_cancel = allowance(&s, &who);
    assert_eq!(allowance_after_cancel, 12 * 500);
}

#[test]
fn test_resubscribe_after_cancel_does_not_double_count_reservation() {
    let mut s = setup();
    let svc = register_default_service(&mut s);
    let who = s.subscriber.clone();

    let sub1 = subscribe(&mut s, &who, svc.service_id, true);
    try_cancel(&mut s, &who, sub1.sub_id).unwrap();
    assert_eq!(allowance(&s, &who), 0);

    advance_time(&mut s, MONTH + 1);

    let sub2 = subscribe(&mut s, &who, svc.service_id, true);
    let allowance_after_resub = allowance(&s, &who);
    assert_eq!(allowance_after_resub, 12 * PRICE);

    try_cancel(&mut s, &who, sub2.sub_id).unwrap();
    assert_eq!(allowance(&s, &who), 0);
}

#[test]
fn test_resubscribe_cross_page_swap_updates_reverse_pointer() {
    let mut s = setup();
    let svc = register_default_service(&mut s);

    // First subscriber lands at page 0, slot 0
    let first = generate(&mut s);
    s.token.mint(&first, INITIAL_BALANCE);
    let first_sub = subscribe(&mut s, &first, svc.service_id, true);

    // Fill the rest of page 0 (49 more entries)
    for _ in 0..49 {
        fund_and_subscribe(&mut s, svc.service_id);
    }

    // The 51st subscriber lands at page 1, slot 0 — global tail
    let tail = generate(&mut s);
    s.token.mint(&tail, INITIAL_BALANCE);
    let tail_sub = subscribe(&mut s, &tail, svc.service_id, true);

    try_cancel(&mut s, &first, first_sub.sub_id).unwrap();
    advance_time(&mut s, MONTH + 1);
    subscribe(&mut s, &first, svc.service_id, true);

    try_cancel(&mut s, &tail, tail_sub.sub_id).unwrap();
    advance_time(&mut s, 3 * (MONTH + 1));
    subscribe(&mut s, &tail, svc.service_id, true);

    advance_time(&mut s, 6 * (MONTH + 1));
    let m = s.merchant.clone();
    let r = process(&mut s, &m, svc.service_id, 0, 200);
    assert_eq!(r.total, 51);
}

// ===========================================================================
// Further behaviour of the library
// ===========================================================================

#[test]
fn subscribe_without_trial_emits_approve_then_transfer() {
    let mut s = setup();
    let svc = register_default_service(&mut s);
    let who = s.subscriber.clone();
    let l = ledger(&s);
    let mut calls = Vec::new();
    s.c.subscribe(&who, svc.service_id, false, &l, 7, &mut calls).unwrap();
    assert_eq!(calls.len(), 2);
    assert_eq!(
        calls[0],
        TokenCall::Approve { owner: who.clone(), amount: 7 + PRICE, expiration_ledger: 6_311_520 }
    );
    assert_eq!(
        calls[1],
        TokenCall::Transfer { from: who.clone(), to: s.merchant.clone(), amount: PRICE }
    );
}

#[test]
fn subscribe_trial_without_auto_renew_makes_no_token_call() {
    let mut s = setup();
    let svc = register_trial_service(&mut s);
    let who = s.subscriber.clone();
    let l = ledger(&s);
    let mut calls = Vec::new();
    s.c.subscribe(&who, svc.service_id, false, &l, 0, &mut calls).unwrap();
    assert!(calls.is_empty());
}

#[test]
fn subscribe_approval_overflow_is_reported() {
    let mut s = setup();
    let svc = register_default_service(&mut s);
    let who = s.subscriber.clone();
    let l = ledger(&s);
    let mut calls = Vec::new();
    let r = s.c.subscribe(&who, svc.service_id, true, &l, i128::MAX, &mut calls);
    assert_eq!(r, Err(ContractError::TimestampOverflow));
    assert!(calls.is_empty());
    assert!(!is_active(&s, &who, svc.service_id));
}

#[test]
fn cancel_when_allowance_exceeds_reservation_reapproves_rest() {
    let mut s = setup();
    let svc = register_default_service(&mut s);
    let who = s.subscriber.clone();
    let sub = subscribe(&mut s, &who, svc.service_id, true);
    let l = ledger(&s);
    let mut calls = Vec::new();
    s.c.cancel(&who, sub.sub_id, &l, 12 * PRICE + 5, &mut calls).unwrap();
    assert_eq!(calls, vec![TokenCall::Approve { owner: who.clone(), amount: 5, expiration_ledger: 6_311_520 }]);
}

#[test]
fn cancel_with_nothing_approved_makes_no_call() {
    let mut s = setup();
    let svc = register_default_service(&mut s);
    let who = s.subscriber.clone();
    let sub = subscribe(&mut s, &who, svc.service_id, true);
    let l = ledger(&s);
    let mut calls = Vec::new();
    s.c.cancel(&who, sub.sub_id, &l, 0, &mut calls).unwrap();
    assert!(calls.is_empty());
}

#[test]
fn failed_charge_disables_auto_renew_and_keeps_end() {
    let mut s = setup();
    let svc = register_default_service(&mut s);
    let who = s.subscriber.clone();
    let sub = subscribe(&mut s, &who, svc.service_id, true);
    advance_time(&mut s, MONTH);
    let m = s.merchant.clone();
    let due = s.c.due_charges(&m, svc.service_id, 0, 10, s.now).unwrap();
    assert_eq!(due, vec![(sub.sub_id, who.clone(), PRICE, false)]);
    let r = s.c.process(&m, svc.service_id, 0, 10, s.now, &vec![false]).unwrap();
    assert_eq!(r, ProcessResult { charged: 0, failed: 1, skipped: 0, total: 1 });
    let after = get_subscription(&s, &who, sub.sub_id);
    assert_eq!(after.auto_renew, false);
    assert_eq!(after.service_end_ts, MONTH);
}

#[test]
fn missing_outcome_counts_as_failed_charge() {
    let mut s = setup();
    let svc = register_default_service(&mut s);
    let who = s.subscriber.clone();
    subscribe(&mut s, &who, svc.service_id, true);
    advance_time(&mut s, MONTH);
    let m = s.merchant.clone();
    let r = s.c.process(&m, svc.service_id, 0, 10, s.now, &Vec::new()).unwrap();
    assert_eq!(r.failed, 1);
}

#[test]
fn process_window_clamps_offset_and_limit() {
    let mut s = setup();
    let svc = register_default_service(&mut s);
    let who = s.subscriber.clone();
    subscribe(&mut s, &who, svc.service_id, true);
    let m = s.merchant.clone();
    let r = process(&mut s, &m, svc.service_id, 5, u32::MAX);
    assert_eq!(r, ProcessResult { charged: 0, failed: 0, skipped: 0, total: 1 });
    let r = process(&mut s, &m, svc.service_id, 0, 0);
    assert_eq!(r, ProcessResult { charged: 0, failed: 0, skipped: 0, total: 1 });
}

#[test]
fn process_unknown_service_fails() {
    let mut s = setup();
    let m = s.merchant.clone();
    assert_eq!(try_process(&mut s, &m, 3, 0, 10), Err(ContractError::ServiceNotFound));
}

#[test]
fn reserved_approve_periods_zero_is_invalid_period() {
    let mut s = setup();
    let m = s.merchant.clone();
    assert_eq!(register(&mut s, &m, "Plan", PRICE, MONTH, 0, 0), Err(ContractError::InvalidPeriod));
}

#[test]
fn upgrade_timelock_scenario() {
    let mut s = setup();
    let hash = [7u8; 32];
    let p = s.c.propose_upgrade(hash, 1_000).unwrap();
    assert_eq!(p.apply_after_ts, 1_000 + 604_800);
    assert_eq!(s.c.propose_upgrade([1u8; 32], 2_000), Err(ContractError::UpgradeAlreadyPending));
    assert_eq!(s.c.get_pending_upgrade(), Some(p));
    assert_eq!(s.c.apply_upgrade(1_000 + 604_799), Err(ContractError::UpgradeTimelockNotElapsed));
    assert_eq!(s.c.apply_upgrade(1_000 + 604_800), Ok(hash));
    assert_eq!(s.c.get_pending_upgrade(), None);
    assert_eq!(s.c.apply_upgrade(1_000 + 604_800), Err(ContractError::NoUpgradeProposed));
}

#[test]
fn cancel_upgrade_scenario() {
    let mut s = setup();
    assert_eq!(s.c.cancel_upgrade(), Err(ContractError::NoUpgradeProposed));
    s.c.propose_upgrade([2u8; 32], 0).unwrap();
    assert_eq!(s.c.cancel_upgrade(), Ok(()));
    assert_eq!(s.c.get_pending_upgrade(), None);
    assert_eq!(s.c.propose_upgrade([3u8; 32], u64::MAX), Err(ContractError::TimestampOverflow));
}

#[test]
fn error_codes_match_published_values() {
    assert_eq!(ContractError::InvalidPrice.code(), 1);
    assert_eq!(ContractError::TimestampOverflow.code(), 8);
    assert_eq!(ContractError::UpgradeAlreadyPending.code(), 17);
}

#[test]
fn snapshot_round_trip_keeps_storage() {
    let mut s = setup();
    let svc = register_trial_service(&mut s);
    let sub1 = s.subscriber.clone();
    let sub2 = s.subscriber2.clone();
    subscribe(&mut s, &sub1, svc.service_id, true);
    subscribe(&mut s, &sub2, svc.service_id, false);
    s.c.propose_admin("GNEXTADMIN".to_string());

    let snap = s.c.to_snapshot();
    assert_eq!(snap.services.len(), 1);
    assert_eq!(snap.subs.len(), 2);
    assert_eq!(snap.service_subs[0], vec![0, 1]);
    assert_eq!(snap.pending_admin, Some("GNEXTADMIN".to_string()));

    let restored = SubscriptionContract::from_snapshot(&snap).unwrap();
    assert_eq!(restored.to_snapshot(), snap);
    assert_eq!(restored.get_subscriber_subs(&sub1).len(), 1);
    assert!(restored.is_subscription_active(&sub2, svc.service_id, s.now));
}

#[test]
fn snapshot_with_mismatched_lengths_is_refused() {
    let mut s = setup();
    register_default_service(&mut s);
    let mut snap = s.c.to_snapshot();
    snap.service_subs.clear();
    assert!(SubscriptionContract::from_snapshot(&snap).is_none());

    let mut snap2 = s.c.to_snapshot();
    snap2.services[0].price = 0;
    assert!(SubscriptionContract::from_snapshot(&snap2).is_none());
}

#[test]
fn resubscribe_releases_dead_share_before_approving_new_one() {
    let mut s = setup();
    let svc = register_default_service(&mut s);
    let sub = s.subscriber.clone();
    let m = s.merchant.clone();
    let first = subscribe(&mut s, &sub, svc.service_id, true);
    assert_eq!(allowance(&s, &sub), 12 * PRICE);

    // The subscriber revokes the allowance, so the next charge fails and the
    // dead subscription keeps its reservation.
    s.token.approve(&sub, 0, 0);
    advance_time(&mut s, first.next_charge_ts);
    let r = process(&mut s, &m, svc.service_id, 0, 10);
    assert_eq!(r.failed, 1);

    let second = subscribe(&mut s, &sub, svc.service_id, true);
    assert_ne!(second.sub_id, first.sub_id);
    assert_eq!(allowance(&s, &sub), 12 * PRICE);
}

#[test]
fn resubscribe_with_partial_allowance_stacks_on_released_rest() {
    let mut s = setup();
    let svc = register_default_service(&mut s);
    let sub = s.subscriber.clone();
    let m = s.merchant.clone();
    let first = subscribe(&mut s, &sub, svc.service_id, true);
    let seq = s.seq;
    s.token.approve(&sub, 3 * PRICE, seq + 1_000_000);
    // Charge fails on balance: drain the subscriber first.
    let bal = s.token.balance(&sub);
    s.token.transfer(&sub, "GSINK", bal);
    advance_time(&mut s, first.next_charge_ts);
    assert_eq!(process(&mut s, &m, svc.service_id, 0, 10).failed, 1);
    s.token.mint(&sub, bal);

    subscribe(&mut s, &sub, svc.service_id, true);
    // 3 * PRICE - 12 * PRICE clamps to zero, then the new 12 periods go on top.
    assert_eq!(allowance(&s, &sub), 12 * PRICE);
}

#[test]
fn snapshot_with_inconsistent_indexes_is_refused() {
    let mut s = setup();
    let svc = register_trial_service(&mut s);
    let sub1 = s.subscriber.clone();
    let sub2 = s.subscriber2.clone();
    subscribe(&mut s, &sub1, svc.service_id, true);
    subscribe(&mut s, &sub2, svc.service_id, true);
    let good = s.c.to_snapshot();
    assert!(SubscriptionContract::from_snapshot(&good).is_some());

    // An id listed twice by the service index.
    let mut dup = good.clone();
    dup.service_subs[0] = vec![0, 0];
    assert!(SubscriptionContract::from_snapshot(&dup).is_none());

    // A live subscription without its reverse pointer.
    let mut no_ptr = good.clone();
    no_ptr.sub_index[1] = None;
    assert!(SubscriptionContract::from_snapshot(&no_ptr).is_none());

    // A pair naming another subscriber's subscription.
    let mut bad_pair = good.clone();
    bad_pair.service_pairs[0][0].1 = 1;
    assert!(SubscriptionContract::from_snapshot(&bad_pair).is_none());

    // A trial subscription whose trial is not recorded.
    let mut no_trial = good.clone();
    no_trial.service_trials[0].clear();
    assert!(SubscriptionContract::from_snapshot(&no_trial).is_none());
}

#[test]
fn first_charge_after_trial_is_flagged_as_trial_end() {
    let mut s = setup();
    let svc = register_trial_service(&mut s);
    let who = s.subscriber.clone();
    let m = s.merchant.clone();
    let sub = subscribe(&mut s, &who, svc.service_id, true);
    advance_time(&mut s, sub.trial_end_ts);
    let due = s.c.due_charges(&m, svc.service_id, 0, 10, s.now).unwrap();
    assert_eq!(due, vec![(sub.sub_id, who.clone(), PRICE, true)]);
    process(&mut s, &m, svc.service_id, 0, 10);
    advance_time(&mut s, sub.trial_end_ts + MONTH);
    let due = s.c.due_charges(&m, svc.service_id, 0, 10, s.now).unwrap();
    assert_eq!(due, vec![(sub.sub_id, who.clone(), PRICE, false)]);
}
