use vstd::prelude::*;
use crate::paging::{on_page, page_of, slot_on_page, swap_remove_spec, PagedIndex, MAX_INDEX_ITEMS};
use crate::table::{assoc_get, AddrTable};
use crate::consistency::{
    consistent, indexes_distinct, lemma_charge_all_identities, lemma_identity_preserving, lemma_subscribe_consistent,
    live_subs_indexed, merchant_entries_ok, pairs_ok, service_entries_ok, shape_ok, subscriber_entries_ok, trials_ok,
};
use crate::ttl::{approval_expiration_spec, checked_add_ts, compute_approval_expiration, UPGRADE_TIMELOCK_SECS};
use crate::types::{ContractError, LedgerInfo, PendingUpgrade, ProcessResult, Service, SubIndex, Subscription, TokenCall};

verus! {

/// The contract's storage, as mathematical values.
#[verifier::ext_equal]
pub struct ContractModel {
    pub admin: Seq<char>,
    pub pending_admin: Option<Seq<char>>,
    pub pending_upgrade: Option<PendingUpgrade>,
    pub token: Seq<char>,
    /// Services by id; the next service id is the length.
    pub services: Seq<Service>,
    /// Per service id, the ids of its subscriptions in index order.
    pub service_subs: Seq<Seq<u64>>,
    /// (subscriber, service id) to the subscriber's latest subscription id.
    pub pairs: Map<(Seq<char>, u64), u64>,
    /// (subscriber, service id) pairs whose free trial has been consumed.
    pub trials_used: Set<(Seq<char>, u64)>,
    /// Subscriptions by id (`None` once pruned); the next id is the length.
    pub subs: Seq<Option<Subscription>>,
    /// Reverse pointers by subscription id.
    pub sub_index: Seq<Option<SubIndex>>,
    /// Per subscription id, its share of the subscriber's token allowance.
    pub reserved: Seq<i128>,
    /// Per merchant, the ids of its services in index order.
    pub merchant_services: Map<Seq<char>, Seq<u64>>,
    /// Per subscriber, the ids of its subscriptions in index order.
    pub subscriber_subs: Map<Seq<char>, Seq<u64>>,
}

impl ContractModel {
    pub open spec fn service(self, id: u64) -> Option<Service> {
        if id < self.services.len() {
            Some(self.services[id as int])
        } else {
            None
        }
    }

    pub open spec fn sub(self, id: u64) -> Option<Subscription> {
        if id < self.subs.len() {
            self.subs[id as int]
        } else {
            None
        }
    }

    pub open spec fn services_of(self, merchant: Seq<char>) -> Seq<u64> {
        if self.merchant_services.contains_key(merchant) {
            self.merchant_services[merchant]
        } else {
            Seq::empty()
        }
    }

    pub open spec fn subs_of(self, subscriber: Seq<char>) -> Seq<u64> {
        if self.subscriber_subs.contains_key(subscriber) {
            self.subscriber_subs[subscriber]
        } else {
            Seq::empty()
        }
    }

    pub open spec fn subs_of_service(self, id: u64) -> Seq<u64> {
        if id < self.service_subs.len() {
            self.service_subs[id as int]
        } else {
            Seq::empty()
        }
    }

    pub open spec fn pair(self, subscriber: Seq<char>, service_id: u64) -> Option<u64> {
        if self.pairs.contains_key((subscriber, service_id)) {
            Some(self.pairs[(subscriber, service_id)])
        } else {
            None
        }
    }

    pub open spec fn reserved_of(self, sub_id: u64) -> int {
        if sub_id < self.reserved.len() {
            self.reserved[sub_id as int] as int
        } else {
            0
        }
    }

    /// The subscription `subscriber` currently holds on `service_id`.
    pub open spec fn current_sub(self, subscriber: Seq<char>, service_id: u64) -> Option<Subscription> {
        match self.pair(subscriber, service_id) {
            Some(id) => self.sub(id),
            None => None,
        }
    }
}

/// The subscription contract: merchants register services, subscribers
/// subscribe (with an optional one-time free trial), and merchants charge due
/// subscriptions in batches through the subscribers' token allowances.
pub struct SubscriptionContract {
    admin: String,
    pending_admin: Option<String>,
    pending_upgrade: Option<PendingUpgrade>,
    token: String,
    services: Vec<Service>,
    service_subs: Vec<PagedIndex>,
    service_pairs: Vec<AddrTable<u64>>,
    service_trials: Vec<AddrTable<bool>>,
    subs: Vec<Option<Subscription>>,
    sub_index: Vec<Option<SubIndex>>,
    reserved: Vec<i128>,
    merchant_services: AddrTable<PagedIndex>,
    subscriber_subs: AddrTable<PagedIndex>,
}

pub open spec fn opt_view(o: Option<String>) -> Option<Seq<char>> {
    match o {
        Some(s) => Some(s@),
        None => None,
    }
}

pub closed spec fn table_index_wf(t: AddrTable<PagedIndex>) -> bool {
    &&& t.wf()
    &&& forall|w: Seq<char>| #[trigger] t.contains(w) ==> t.spec_get(w).unwrap().wf()
}

pub closed spec fn table_index_view(t: AddrTable<PagedIndex>) -> Map<Seq<char>, Seq<u64>> {
    Map::new(|w: Seq<char>| t.contains(w), |w: Seq<char>| t.spec_get(w).unwrap()@)
}



pub open spec fn in_i128(x: int) -> bool {
    i128::MIN <= x <= i128::MAX
}

/// Approving `periods` more periods at `price` on top of the current
/// allowance: the new allowance and the new reservation of the subscription,
/// or `None` when an amount leaves `i128`.
pub open spec fn approve_step(allowance: i128, reserved: i128, price: i128, periods: u64) -> Option<(i128, i128)> {
    let amount = price * periods;
    if in_i128(amount) && in_i128(allowance + amount) && in_i128(reserved + amount) {
        Some(((allowance + amount) as i128, (reserved + amount) as i128))
    } else {
        None
    }
}

/// Releasing a reservation: the allowance is reduced by the reservation,
/// clamped at zero; no call is made when nothing is reserved or nothing is
/// approved.
pub open spec fn release_step(allowance: i128, reserved: i128) -> Option<i128> {
    if reserved > 0 && allowance > 0 {
        Some(if allowance > reserved { (allowance - reserved) as i128 } else { 0 })
    } else {
        None
    }
}

/// Expiration ledger the contract gives its approvals.
pub open spec fn approval_expiration(ledger: LedgerInfo) -> u32 {
    approval_expiration_spec(ledger.max_ttl, ledger.sequence) as u32
}

pub open spec fn approve_call(owner: String, amount: i128, ledger: LedgerInfo) -> TokenCall {
    TokenCall::Approve { owner: owner, amount: amount, expiration_ledger: approval_expiration(ledger) }
}

/// Token calls made when releasing `reserved` from `allowance`: a full
/// revocation when nothing is left, otherwise a re-approval of the rest.
pub open spec fn release_calls(owner: String, allowance: i128, reserved: i128, ledger: LedgerInfo) -> Seq<TokenCall> {
    match release_step(allowance, reserved) {
        None => Seq::empty(),
        Some(n) => if n == 0 {
            seq![TokenCall::Approve { owner: owner, amount: 0, expiration_ledger: 0 }]
        } else {
            seq![approve_call(owner, n, ledger)]
        },
    }
}

/// Allowance left after releasing `reserved`.
pub open spec fn allowance_after_release(allowance: i128, reserved: i128) -> i128 {
    match release_step(allowance, reserved) {
        None => allowance,
        Some(n) => n,
    }
}


/// `s` after removing `target` from page `page` (unchanged when absent there).
pub open spec fn remove_in_page(s: Seq<u64>, target: u64, page: u32) -> Seq<u64> {
    if on_page(s, target, page as int) {
        swap_remove_spec(s, slot_on_page(s, target, page as int))
    } else {
        s
    }
}

/// The entry that removing `target` from page `page` moves to another page,
/// with that page.
pub open spec fn moved_entry(s: Seq<u64>, target: u64, page: u32) -> Option<(u64, u32)> {
    if on_page(s, target, page as int) && page as int != page_of(s.len() - 1) {
        Some((s.last(), page))
    } else {
        None
    }
}

/// Point the service-side page of a moved entry at its new page.
pub open spec fn repoint_service(ix: Seq<Option<SubIndex>>, moved: Option<(u64, u32)>) -> Seq<Option<SubIndex>> {
    match moved {
        Some((x, p)) => if x < ix.len() && ix[x as int] is Some {
            ix.update(x as int, Some(SubIndex { service_page: p, ..ix[x as int].unwrap() }))
        } else {
            ix
        },
        None => ix,
    }
}

/// Point the subscriber-side page of a moved entry at its new page.
pub open spec fn repoint_subscriber(ix: Seq<Option<SubIndex>>, moved: Option<(u64, u32)>) -> Seq<Option<SubIndex>> {
    match moved {
        Some((x, p)) => if x < ix.len() && ix[x as int] is Some {
            ix.update(x as int, Some(SubIndex { subscriber_page: p, ..ix[x as int].unwrap() }))
        } else {
            ix
        },
        None => ix,
    }
}

/// Drop subscription `old_id` of `who` on `service_id` from both indexes,
/// following its reverse pointer, and drop the pointer.
pub open spec fn prune_indexes(m: ContractModel, old_id: u64, who: Seq<char>, service_id: u64) -> ContractModel {
    if old_id < m.sub_index.len() && m.sub_index[old_id as int] is Some {
        let idx = m.sub_index[old_id as int].unwrap();
        let ss = m.subs_of_service(service_id);
        let ix1 = repoint_service(m.sub_index, moved_entry(ss, old_id, idx.service_page));
        let us = m.subs_of(who);
        let ix2 = repoint_subscriber(ix1, moved_entry(us, old_id, idx.subscriber_page));
        ContractModel {
            service_subs: if service_id < m.service_subs.len() {
                m.service_subs.update(service_id as int, remove_in_page(ss, old_id, idx.service_page))
            } else {
                m.service_subs
            },
            subscriber_subs: if on_page(us, old_id, idx.subscriber_page as int) {
                m.subscriber_subs.insert(who, remove_in_page(us, old_id, idx.subscriber_page))
            } else {
                m.subscriber_subs
            },
            sub_index: ix2.update(old_id as int, None),
            ..m
        }
    } else {
        m
    }
}

/// Remove a dead subscription entirely: indexes, record and reservation.
pub open spec fn prune_model(m: ContractModel, old_id: u64, who: Seq<char>, service_id: u64) -> ContractModel {
    let p = prune_indexes(m, old_id, who, service_id);
    ContractModel { subs: p.subs.update(old_id as int, None), reserved: p.reserved.update(old_id as int, 0), ..p }
}

/// Whether a new subscription of `who` to `svc` gets the free trial: the
/// service has one and `who` never had it (directly recorded, or implied by
/// an earlier subscription that carried a trial).
pub open spec fn grants_trial(m: ContractModel, who: Seq<char>, svc: Service) -> bool {
    &&& svc.trial_period_secs > 0
    &&& !m.trials_used.contains((who, svc.service_id))
    &&& !(m.current_sub(who, svc.service_id) matches Some(p) && p.trial_period_secs > 0)
}

/// Number of periods approved at subscription time.
pub open spec fn subscribe_periods(svc: Service, auto_renew: bool) -> u64 {
    if auto_renew { svc.approve_periods } else { 1 }
}

/// Whether subscribing makes an approval.
pub open spec fn subscribe_approves(m: ContractModel, who: Seq<char>, svc: Service, auto_renew: bool) -> bool {
    !grants_trial(m, who, svc) || auto_renew
}

/// The first error `subscribe` reports, if any.
pub open spec fn subscribe_error(
    m: ContractModel,
    who: Seq<char>,
    service_id: u64,
    auto_renew: bool,
    now: u64,
    allowance: i128,
) -> Option<ContractError> {
    match m.service(service_id) {
        None => Some(ContractError::ServiceNotFound),
        Some(svc) => if !svc.is_active {
            Some(ContractError::ServiceNotActive)
        } else if m.current_sub(who, service_id) matches Some(p) && (p.auto_renew || now
            < p.service_end_ts) {
            Some(ContractError::AlreadySubscribed)
        } else if grants_trial(m, who, svc) && now + svc.trial_period_secs > u64::MAX {
            Some(ContractError::TimestampOverflow)
        } else if !grants_trial(m, who, svc) && now + svc.period_secs > u64::MAX {
            Some(ContractError::TimestampOverflow)
        } else if subscribe_approves(m, who, svc, auto_renew) && approve_step(
            subscribe_base_allowance(m, who, service_id, allowance),
            0,
            svc.price,
            subscribe_periods(svc, auto_renew),
        ) is None {
            Some(ContractError::TimestampOverflow)
        } else {
            None
        },
    }
}

/// The subscription `subscribe` creates.
pub open spec fn new_subscription(
    m: ContractModel,
    subscriber: String,
    svc: Service,
    auto_renew: bool,
    now: u64,
) -> Subscription {
    let sub_id = m.subs.len() as u64;
    if grants_trial(m, subscriber@, svc) {
        let end = (now + svc.trial_period_secs) as u64;
        Subscription {
            sub_id: sub_id,
            subscriber: subscriber,
            service_id: svc.service_id,
            price: svc.price,
            period_secs: svc.period_secs,
            trial_period_secs: svc.trial_period_secs,
            trial_end_ts: end,
            auto_renew: auto_renew,
            service_end_ts: end,
            next_charge_ts: end,
            created_at: now,
        }
    } else {
        let end = (now + svc.period_secs) as u64;
        Subscription {
            sub_id: sub_id,
            subscriber: subscriber,
            service_id: svc.service_id,
            price: svc.price,
            period_secs: svc.period_secs,
            trial_period_secs: 0,
            trial_end_ts: 0,
            auto_renew: auto_renew,
            service_end_ts: end,
            next_charge_ts: end,
            created_at: now,
        }
    }
}

/// Allowance after the subscription's own approval (if any).
pub open spec fn subscribe_allowance(m: ContractModel, who: Seq<char>, svc: Service, auto_renew: bool, allowance: i128) -> i128 {
    if subscribe_approves(m, who, svc, auto_renew) {
        approve_step(allowance, 0, svc.price, subscribe_periods(svc, auto_renew)).unwrap().0
    } else {
        allowance
    }
}

/// Reservation of the new subscription.
pub open spec fn subscribe_reserved(m: ContractModel, who: Seq<char>, svc: Service, auto_renew: bool) -> i128 {
    if subscribe_approves(m, who, svc, auto_renew) {
        approve_step(0, 0, svc.price, subscribe_periods(svc, auto_renew)).unwrap().1
    } else {
        0
    }
}

/// Token calls of the new subscription itself: its approval, then the
/// immediate payment of the first period when there is no trial.
pub open spec fn subscribe_own_calls(
    m: ContractModel,
    subscriber: String,
    svc: Service,
    auto_renew: bool,
    ledger: LedgerInfo,
    allowance: i128,
) -> Seq<TokenCall> {
    let approve = if subscribe_approves(m, subscriber@, svc, auto_renew) {
        seq![approve_call(subscriber, subscribe_allowance(m, subscriber@, svc, auto_renew, allowance), ledger)]
    } else {
        Seq::empty()
    };
    if grants_trial(m, subscriber@, svc) {
        approve
    } else {
        approve.push(TokenCall::Transfer { from: subscriber, to: svc.merchant, amount: svc.price })
    }
}

/// The dead earlier subscription of `who` to `service_id` that subscribing prunes.
pub open spec fn prior_to_prune(m: ContractModel, who: Seq<char>, service_id: u64) -> Option<u64> {
    match m.pair(who, service_id) {
        Some(id) => if m.sub(id) is Some {
            Some(id)
        } else {
            None
        },
        None => None,
    }
}


/// Storage after a successful `subscribe`.
pub open spec fn subscribe_model(
    m: ContractModel,
    subscriber: String,
    service_id: u64,
    auto_renew: bool,
    now: u64,
) -> ContractModel {
    let who = subscriber@;
    let svc = m.service(service_id).unwrap();
    let sub_id = m.subs.len() as u64;
    let sub = new_subscription(m, subscriber, svc, auto_renew, now);
    let m1 = ContractModel {
        pairs: m.pairs.insert((who, service_id), sub_id),
        trials_used: if grants_trial(m, who, svc) {
            m.trials_used.insert((who, service_id))
        } else {
            m.trials_used
        },
        ..m
    };
    let m2 = match prior_to_prune(m, who, service_id) {
        Some(old_id) => prune_model(m1, old_id, who, service_id),
        None => m1,
    };
    ContractModel {
        subs: m2.subs.push(Some(sub)),
        sub_index: m2.sub_index.push(
            Some(
                SubIndex {
                    service_page: page_of(m2.subs_of_service(service_id).len() as int) as u32,
                    subscriber_page: page_of(m2.subs_of(who).len() as int) as u32,
                },
            ),
        ),
        reserved: m2.reserved.push(subscribe_reserved(m, who, svc, auto_renew)),
        service_subs: m2.service_subs.update(
            service_id as int,
            m2.subs_of_service(service_id).push(sub_id),
        ),
        subscriber_subs: m2.subscriber_subs.insert(who, m2.subs_of(who).push(sub_id)),
        ..m2
    }
}

/// Allowance a successful `subscribe` stacks the new subscription's share on:
/// the incoming allowance with the pruned subscription's reservation (if
/// any) released first.
pub open spec fn subscribe_base_allowance(m: ContractModel, who: Seq<char>, service_id: u64, allowance: i128) -> i128 {
    match prior_to_prune(m, who, service_id) {
        Some(old_id) => allowance_after_release(allowance, m.reserved[old_id as int]),
        None => allowance,
    }
}

/// Token calls of a successful `subscribe`: first the release of the pruned
/// subscription's reservation against the incoming allowance, then the new
/// subscription's own calls on top of what is left.
pub open spec fn subscribe_calls(
    m: ContractModel,
    subscriber: String,
    service_id: u64,
    auto_renew: bool,
    ledger: LedgerInfo,
    allowance: i128,
) -> Seq<TokenCall> {
    let svc = m.service(service_id).unwrap();
    let base = subscribe_base_allowance(m, subscriber@, service_id, allowance);
    let own = subscribe_own_calls(m, subscriber, svc, auto_renew, ledger, base);
    match prior_to_prune(m, subscriber@, service_id) {
        Some(old_id) => release_calls(subscriber, allowance, m.reserved[old_id as int], ledger) + own,
        None => own,
    }
}


/// Pruning never lengthens an index.
pub proof fn lemma_prune_shrinks(m: ContractModel, prior: Option<u64>, who: Seq<char>, service_id: u64)
    ensures
        ({
            let m2 = match prior {
                Some(old_id) => prune_model(m, old_id, who, service_id),
                None => m,
            };
            &&& m2.subs_of_service(service_id).len() <= m.subs_of_service(service_id).len()
            &&& m2.subs_of(who).len() <= m.subs_of(who).len()
            &&& m2.services == m.services
            &&& m2.service_subs.len() == m.service_subs.len()
        }),
{
    match prior {
        Some(old_id) => {
            if old_id < m.sub_index.len() && m.sub_index[old_id as int] is Some {
                let idx = m.sub_index[old_id as int].unwrap();
                let ss = m.subs_of_service(service_id);
                let us = m.subs_of(who);
                if on_page(ss, old_id, idx.service_page as int) {
                    crate::paging::lemma_swap_remove_len(ss, old_id, idx.service_page as int);
                }
                if on_page(us, old_id, idx.subscriber_page as int) {
                    crate::paging::lemma_swap_remove_len(us, old_id, idx.subscriber_page as int);
                }
                assert(remove_in_page(ss, old_id, idx.service_page).len() <= ss.len());
                assert(remove_in_page(us, old_id, idx.subscriber_page).len() <= us.len());
                let p = prune_indexes(m, old_id, who, service_id);
                assert(p.subs_of_service(service_id).len() <= ss.len());
                assert(p.subs_of(who).len() <= us.len());
            }
        },
        None => {},
    }
}


/// Progress of a billing batch: the subscriptions and reservations as
/// charged so far, the outcome counts, and how many charges were attempted.
pub struct BatchState {
    pub subs: Seq<Option<Subscription>>,
    pub reserved: Seq<i128>,
    pub charged: nat,
    pub failed: nat,
    pub skipped: nat,
    pub attempts: nat,
}

/// A subscription is due when it exists, renews automatically, and its next
/// charge time has come.
pub open spec fn is_due(sub: Option<Subscription>, now: u64) -> bool {
    sub matches Some(s) && s.auto_renew && now >= s.next_charge_ts
}

/// One entry of a batch. A due subscription is charged with the next
/// reported transfer outcome (a missing outcome counts as a failed transfer):
/// on success its next charge and end move one period on from the previous
/// charge time and its reservation drops by the price (floored at zero); on
/// failure, or when the next charge time would overflow, auto-renewal is
/// turned off.
pub open spec fn charge_step(st: BatchState, sid: u64, now: u64, outcomes: Seq<bool>) -> BatchState {
    let cur = if sid < st.subs.len() {
        st.subs[sid as int]
    } else {
        None
    };
    if !is_due(cur, now) {
        BatchState { skipped: st.skipped + 1, ..st }
    } else {
        let sub = cur.unwrap();
        let paid = st.attempts < outcomes.len() && outcomes[st.attempts as int];
        if paid && sub.next_charge_ts + sub.period_secs <= u64::MAX {
            let next = (sub.next_charge_ts + sub.period_secs) as u64;
            let left = st.reserved[sid as int] - sub.price;
            BatchState {
                subs: st.subs.update(
                    sid as int,
                    Some(Subscription { next_charge_ts: next, service_end_ts: next, ..sub }),
                ),
                reserved: st.reserved.update(sid as int, if left > 0 { left as i128 } else { 0 }),
                charged: st.charged + 1,
                attempts: st.attempts + 1,
                ..st
            }
        } else {
            BatchState {
                subs: st.subs.update(sid as int, Some(Subscription { auto_renew: false, ..sub })),
                failed: st.failed + 1,
                attempts: st.attempts + 1,
                ..st
            }
        }
    }
}

/// Charging `sub` ends its trial: it carries a trial and its next charge is
/// the first one, at the trial's end.
pub open spec fn charge_ends_trial(sub: Subscription) -> bool {
    sub.trial_period_secs > 0 && sub.next_charge_ts == sub.trial_end_ts
}

/// A batch over `ids`, in order.
pub open spec fn charge_all(st: BatchState, ids: Seq<u64>, now: u64, outcomes: Seq<bool>) -> BatchState
    decreases ids.len(),
{
    if ids.len() == 0 {
        st
    } else {
        charge_step(charge_all(st, ids.drop_last(), now, outcomes), ids.last(), now, outcomes)
    }
}

pub open spec fn min_nat(a: int, b: int) -> int {
    if a <= b { a } else { b }
}

/// Number of index entries reported as the batch total.
pub open spec fn batch_total(m: ContractModel, service_id: u64) -> int {
    min_nat(m.subs_of_service(service_id).len() as int, u32::MAX as int)
}

/// Index positions a batch with `offset` and `limit` covers.
pub open spec fn batch_start(m: ContractModel, service_id: u64, offset: u32) -> int {
    min_nat(offset as int, batch_total(m, service_id))
}

pub open spec fn batch_end(m: ContractModel, service_id: u64, offset: u32, limit: u32) -> int {
    min_nat(
        min_nat(batch_start(m, service_id, offset) + limit, u32::MAX as int),
        batch_total(m, service_id),
    )
}

/// The subscription ids a batch visits.
pub open spec fn batch_window(m: ContractModel, service_id: u64, offset: u32, limit: u32) -> Seq<u64> {
    m.subs_of_service(service_id).subrange(
        batch_start(m, service_id, offset),
        batch_end(m, service_id, offset, limit),
    )
}

/// The batch run over the window of a service.
pub open spec fn batch_outcome(
    m: ContractModel,
    service_id: u64,
    offset: u32,
    limit: u32,
    now: u64,
    outcomes: Seq<bool>,
) -> BatchState {
    charge_all(
        BatchState { subs: m.subs, reserved: m.reserved, charged: 0, failed: 0, skipped: 0, attempts: 0 },
        batch_window(m, service_id, offset, limit),
        now,
        outcomes,
    )
}

/// The due subscriptions among `ids` in the current storage, in order.
pub open spec fn due_ids(m: ContractModel, ids: Seq<u64>, now: u64) -> Seq<u64>
    decreases ids.len(),
{
    if ids.len() == 0 {
        Seq::empty()
    } else {
        let rest = due_ids(m, ids.drop_last(), now);
        if is_due(m.sub(ids.last()), now) {
            rest.push(ids.last())
        } else {
            rest
        }
    }
}

pub open spec fn map_seq_of(m: Map<Seq<char>, Seq<u64>>, who: Seq<char>) -> Seq<u64> {
    if m.contains_key(who) {
        m[who]
    } else {
        Seq::empty()
    }
}

/// Append `item` to the index of `who`, creating it when missing.
fn index_table_append(t: &mut AddrTable<PagedIndex>, who: &String, item: u64) -> (page: u32)
    requires
        table_index_wf(*old(t)),
        map_seq_of(table_index_view(*old(t)), who@).len() < MAX_INDEX_ITEMS,
    ensures
        table_index_wf(*final(t)),
        table_index_view(*final(t)) =~= table_index_view(*old(t)).insert(
            who@,
            map_seq_of(table_index_view(*old(t)), who@).push(item),
        ),
        page == crate::paging::page_of(map_seq_of(table_index_view(*old(t)), who@).len() as int),
{
    match t.find(who) {
        Some(i) => {
            let ghost t0 = *t;
            let mut ix = PagedIndex::new();
            t.swap_at(i, &mut ix);
            let ghost t1 = *t;
            proof {
                assert(t0.contains(who@));
                assert(t1.contains(who@));
                assert(t1.slot(who@) == i);
            }
            let page = ix.append(item);
            let ghost ix_done = ix;
            t.swap_at(i, &mut ix);
            proof {
                assert(t.spec_get(who@) == Some(ix_done));
                assert forall|w: Seq<char>| w != who@ implies #[trigger] t.spec_get(w) == t0.spec_get(w) by {
                    if t0.contains(w) && t0.slot(w) == i {
                        t0.lemma_slot_injective(w, who@);
                    }
                    if t1.contains(w) && t1.slot(w) == i {
                        assert(t0.contains(w));
                        t0.lemma_slot_injective(w, who@);
                    }
                }
                assert forall|w: Seq<char>| #[trigger] table_index_view(*t).contains_key(w)
                    == table_index_view(t0).insert(who@, map_seq_of(table_index_view(t0), who@).push(item)).contains_key(w) by {
                    t.lemma_get_some(w);
                    t0.lemma_get_some(w);
                }
                assert forall|w: Seq<char>| #[trigger] t.contains(w) implies t.spec_get(w).unwrap().wf() by {
                    assert(old(t).contains(w));
                }
            }
            page
        },
        None => {
            let mut ix = PagedIndex::new();
            let page = ix.append(item);
            proof {
                assert(ix@ =~= Seq::<u64>::empty().push(item));
            }
            t.push_new(who.clone(), ix);
            proof {
                assert forall|w: Seq<char>| #[trigger] t.contains(w) implies t.spec_get(w).unwrap().wf() by {
                    if w != who@ {
                        assert(old(t).contains(w));
                    }
                }
            }
            page
        },
    }
}

/// Remove `target` from page `page` of the index of `who` (see
/// `PagedIndex::remove`).
fn index_table_remove(t: &mut AddrTable<PagedIndex>, who: &String, target: u64, page: u32) -> (moved:
    Option<(u64, u32)>)
    requires
        table_index_wf(*old(t)),
    ensures
        table_index_wf(*final(t)),
        ({
            let s = map_seq_of(table_index_view(*old(t)), who@);
            if crate::paging::on_page(s, target, page as int) {
                &&& table_index_view(*final(t)) =~= table_index_view(*old(t)).insert(
                    who@,
                    crate::paging::swap_remove_spec(s, crate::paging::slot_on_page(s, target, page as int)),
                )
                &&& moved == (if page as int == crate::paging::page_of(s.len() - 1) {
                    None::<(u64, u32)>
                } else {
                    Some((s.last(), page))
                })
            } else {
                table_index_view(*final(t)) =~= table_index_view(*old(t)) && moved == None::<(u64, u32)>
            }
        }),
{
    let ghost s = map_seq_of(table_index_view(*old(t)), who@);
    match t.find(who) {
        Some(i) => {
            let ghost t0 = *t;
            let mut ix = PagedIndex::new();
            t.swap_at(i, &mut ix);
            let ghost t1 = *t;
            proof {
                assert(t0.contains(who@));
                assert(t1.contains(who@));
                assert(t1.slot(who@) == i);
                assert(ix@ == s);
            }
            let moved = ix.remove(target, page);
            let ghost ix_done = ix;
            t.swap_at(i, &mut ix);
            proof {
                assert(t.spec_get(who@) == Some(ix_done));
                assert forall|w: Seq<char>| w != who@ implies #[trigger] t.spec_get(w) == t0.spec_get(w) by {
                    if t0.contains(w) && t0.slot(w) == i {
                        t0.lemma_slot_injective(w, who@);
                    }
                    if t1.contains(w) && t1.slot(w) == i {
                        assert(t0.contains(w));
                        t0.lemma_slot_injective(w, who@);
                    }
                }
                assert forall|w: Seq<char>| #[trigger] t.contains(w) implies t.spec_get(w).unwrap().wf() by {
                    assert(t0.contains(w));
                }
                let target_view = if crate::paging::on_page(s, target, page as int) {
                    crate::paging::swap_remove_spec(s, crate::paging::slot_on_page(s, target, page as int))
                } else {
                    s
                };
                assert(table_index_view(*t) =~= table_index_view(t0).insert(who@, target_view)) by {
                    assert forall|w: Seq<char>| #[trigger] table_index_view(*t).contains_key(w)
                        == table_index_view(t0).insert(who@, target_view).contains_key(w) by {
                        t.lemma_get_some(w);
                        t0.lemma_get_some(w);
                    }
                }
                if !crate::paging::on_page(s, target, page as int) {
                    assert(table_index_view(t0).insert(who@, s) =~= table_index_view(t0));
                }
            }
            moved
        },
        None => {
            proof {
                assert(s =~= Seq::<u64>::empty());
            }
            None
        },
    }
}

/// The entries of the index of `who` (empty when it has none).
fn index_table_read(t: &AddrTable<PagedIndex>, who: &String) -> (out: Vec<u64>)
    requires
        table_index_wf(*t),
    ensures
        out@ == map_seq_of(table_index_view(*t), who@),
{
    match t.find(who) {
        Some(i) => t.at(i).read_all(),
        None => Vec::new(),
    }
}

/// The first error, in check order, that `register_service` reports for
/// these parameters.
pub open spec fn service_params_error(price: i128, period_secs: u64, name: Seq<char>, approve_periods: u64) -> Option<ContractError> {
    if price <= 0 {
        Some(ContractError::InvalidPrice)
    } else if period_secs == 0 {
        Some(ContractError::InvalidPeriod)
    } else if name.len() == 0 {
        Some(ContractError::InvalidServiceName)
    } else if approve_periods == 0 {
        Some(ContractError::InvalidPeriod)
    } else {
        None
    }
}

/// Subscriptions among `ids` that still exist, in order.
pub open spec fn existing_subs(m: ContractModel, ids: Seq<u64>) -> Seq<Subscription>
    decreases ids.len(),
{
    if ids.len() == 0 {
        Seq::empty()
    } else {
        let rest = existing_subs(m, ids.drop_last());
        match m.sub(ids.last()) {
            Some(s) => rest.push(s),
            None => rest,
        }
    }
}

/// Services among `ids` that exist, in order.
pub open spec fn existing_services(m: ContractModel, ids: Seq<u64>) -> Seq<Service>
    decreases ids.len(),
{
    if ids.len() == 0 {
        Seq::empty()
    } else {
        let rest = existing_services(m, ids.drop_last());
        match m.service(ids.last()) {
            Some(s) => rest.push(s),
            None => rest,
        }
    }
}


/// The contract's storage as plain data, for persisting it between calls.
#[derive(Clone, Debug, PartialEq)]
pub struct ContractSnapshot {
    pub admin: String,
    pub pending_admin: Option<String>,
    pub pending_upgrade: Option<PendingUpgrade>,
    pub token: String,
    pub services: Vec<Service>,
    /// Per service id, its subscription ids in index order.
    pub service_subs: Vec<Vec<u64>>,
    /// Per service id, (subscriber, latest subscription id).
    pub service_pairs: Vec<Vec<(String, u64)>>,
    /// Per service id, the subscribers whose trial is used.
    pub service_trials: Vec<Vec<String>>,
    pub subs: Vec<Option<Subscription>>,
    pub sub_index: Vec<Option<SubIndex>>,
    pub reserved: Vec<i128>,
    /// (merchant, service ids in index order).
    pub merchant_services: Vec<(String, Vec<u64>)>,
    /// (subscriber, subscription ids in index order).
    pub subscriber_subs: Vec<(String, Vec<u64>)>,
}

pub open spec fn pair_keys(e: Seq<(String, u64)>) -> Seq<Seq<char>> {
    Seq::new(e.len(), |i: int| e[i].0@)
}

pub open spec fn pair_vals(e: Seq<(String, u64)>) -> Seq<u64> {
    Seq::new(e.len(), |i: int| e[i].1)
}

pub open spec fn name_keys(e: Seq<String>) -> Seq<Seq<char>> {
    Seq::new(e.len(), |i: int| e[i]@)
}

pub open spec fn index_keys(e: Seq<(String, Vec<u64>)>) -> Seq<Seq<char>> {
    Seq::new(e.len(), |i: int| e[i].0@)
}

pub open spec fn index_vals(e: Seq<(String, Vec<u64>)>) -> Seq<Seq<u64>> {
    Seq::new(e.len(), |i: int| e[i].1@)
}

/// The per-address index map an entry list describes.
pub open spec fn index_entries_map(e: Seq<(String, Vec<u64>)>) -> Map<Seq<char>, Seq<u64>> {
    Map::new(
        |w: Seq<char>| index_keys(e).contains(w),
        |w: Seq<char>| assoc_get(index_keys(e), index_vals(e), w).unwrap(),
    )
}

/// The storage a snapshot describes.
pub open spec fn snapshot_model(s: ContractSnapshot) -> ContractModel {
    ContractModel {
        admin: s.admin@,
        pending_admin: opt_view(s.pending_admin),
        pending_upgrade: s.pending_upgrade,
        token: s.token@,
        services: s.services@,
        service_subs: Seq::new(s.service_subs@.len(), |i: int| s.service_subs@[i]@),
        pairs: Map::new(
            |k: (Seq<char>, u64)|
                k.1 < s.service_pairs@.len() && pair_keys(s.service_pairs@[k.1 as int]@).contains(k.0),
            |k: (Seq<char>, u64)|
                assoc_get(
                    pair_keys(s.service_pairs@[k.1 as int]@),
                    pair_vals(s.service_pairs@[k.1 as int]@),
                    k.0,
                ).unwrap(),
        ),
        trials_used: Set::new(
            |k: (Seq<char>, u64)|
                k.1 < s.service_trials@.len() && name_keys(s.service_trials@[k.1 as int]@).contains(k.0),
        ),
        subs: s.subs@,
        sub_index: s.sub_index@,
        reserved: s.reserved@,
        merchant_services: index_entries_map(s.merchant_services@),
        subscriber_subs: index_entries_map(s.subscriber_subs@),
    }
}

pub open spec fn index_entries_valid(e: Seq<(String, Vec<u64>)>) -> bool {
    &&& index_keys(e).no_duplicates()
    &&& forall|i: int| 0 <= i < e.len() ==> (#[trigger] e[i]).1@.len() <= MAX_INDEX_ITEMS
}

/// A snapshot that describes well-formed storage.
pub open spec fn snapshot_valid(s: ContractSnapshot) -> bool {
    &&& s.service_subs@.len() == s.services@.len()
    &&& s.service_pairs@.len() == s.services@.len()
    &&& s.service_trials@.len() == s.services@.len()
    &&& s.sub_index@.len() == s.subs@.len()
    &&& s.reserved@.len() == s.subs@.len()
    &&& forall|i: int|
        0 <= i < s.services@.len() ==> #[trigger] s.services@[i].service_id == i && s.services@[i].price > 0
    &&& forall|i: int| 0 <= i < s.services@.len() ==> (#[trigger] s.service_subs@[i])@.len() <= MAX_INDEX_ITEMS
    &&& forall|i: int| 0 <= i < s.services@.len() ==> pair_keys((#[trigger] s.service_pairs@[i])@).no_duplicates()
    &&& forall|i: int| 0 <= i < s.services@.len() ==> name_keys((#[trigger] s.service_trials@[i])@).no_duplicates()
    &&& forall|i: int|
        0 <= i < s.subs@.len() && (#[trigger] s.subs@[i]) is Some ==> s.subs@[i].unwrap().sub_id == i
            && s.subs@[i].unwrap().price > 0
    &&& forall|i: int| 0 <= i < s.reserved@.len() ==> #[trigger] s.reserved@[i] >= 0
    &&& index_entries_valid(s.merchant_services@)
    &&& index_entries_valid(s.subscriber_subs@)
}


/// The entries of a pair table, in position order.
fn pair_table_entries(t: &AddrTable<u64>) -> (r: Vec<(String, u64)>)
    requires
        t.wf(),
    ensures
        pair_keys(r@) == t.key_seq(),
        pair_vals(r@) == t.val_seq(),
{
    proof {
        t.lemma_assoc();
    }
    let n = t.len();
    let mut r: Vec<(String, u64)> = Vec::new();
    let mut i: usize = 0;
    while i < n
        invariant
            t.wf(),
            n == t.key_seq().len(),
            n == t.val_seq().len(),
            n == t.size(),
            i <= n,
            r@.len() == i,
            forall|j: int| 0 <= j < i ==> (#[trigger] r@[j]).0@ == t.key_seq()[j] && r@[j].1 == t.val_seq()[j],
        decreases n - i,
    {
        r.push((t.key(i).clone(), *t.at(i)));
        i = i + 1;
    }
    proof {
        assert(pair_keys(r@) =~= t.key_seq());
        assert(pair_vals(r@) =~= t.val_seq());
    }
    r
}

/// The addresses of a table, in position order.
fn table_names(t: &AddrTable<bool>) -> (r: Vec<String>)
    requires
        t.wf(),
    ensures
        name_keys(r@) == t.key_seq(),
{
    proof {
        t.lemma_assoc();
    }
    let n = t.len();
    let mut r: Vec<String> = Vec::new();
    let mut i: usize = 0;
    while i < n
        invariant
            t.wf(),
            n == t.key_seq().len(),
            n == t.size(),
            i <= n,
            r@.len() == i,
            forall|j: int| 0 <= j < i ==> (#[trigger] r@[j])@ == t.key_seq()[j],
        decreases n - i,
    {
        r.push(t.key(i).clone());
        i = i + 1;
    }
    proof {
        assert(name_keys(r@) =~= t.key_seq());
    }
    r
}

/// The entries of an index table, in position order.
fn index_table_entries(t: &AddrTable<PagedIndex>) -> (r: Vec<(String, Vec<u64>)>)
    requires
        table_index_wf(*t),
    ensures
        index_entries_valid(r@),
        index_entries_map(r@) =~= table_index_view(*t),
{
    proof {
        t.lemma_assoc();
    }
    let n = t.len();
    let mut r: Vec<(String, Vec<u64>)> = Vec::new();
    let mut i: usize = 0;
    while i < n
        invariant
            table_index_wf(*t),
            n == t.key_seq().len(),
            n == t.val_seq().len(),
            n == t.size(),
            i <= n,
            r@.len() == i,
            forall|j: int| 0 <= j < t.size() ==> #[trigger] t.val_seq()[j] == t.val_at(j),
            forall|j: int|
                0 <= j < i ==> (#[trigger] r@[j]).0@ == t.key_seq()[j] && r@[j].1@ == t.val_seq()[j]@
                    && r@[j].1@.len() <= MAX_INDEX_ITEMS,
        decreases n - i,
    {
        let ix = t.at(i);
        proof {
            t.lemma_assoc();
            let w = t.key_seq()[i as int];
            assert(t.contains(w));
            assert(t.spec_get(w).unwrap().wf());
            assert(t.spec_get(w) == assoc_get(t.key_seq(), t.val_seq(), w));
            assert(t.key_seq().no_duplicates());
            assert(t.spec_get(w) == Some(t.val_seq()[i as int]));
            ix.lemma_page_count();
        }
        r.push((t.key(i).clone(), ix.read_all()));
        i = i + 1;
    }
    proof {
        assert(index_keys(r@) =~= t.key_seq());
        assert forall|w: Seq<char>| #[trigger] index_entries_map(r@).contains_key(w) == table_index_view(*t).contains_key(w) by {}
        assert forall|w: Seq<char>| index_entries_map(r@).contains_key(w) implies #[trigger] index_entries_map(r@)[w]
            == table_index_view(*t)[w] by {
            let i = choose|i: int| 0 <= i < t.key_seq().len() && t.key_seq()[i] == w;
            assert(index_vals(r@)[i] == t.val_seq()[i]@);
        }
    }
    r
}

/// A pair table holding `e`, unless an address repeats.
fn pair_table_from(e: &Vec<(String, u64)>) -> (r: Option<AddrTable<u64>>)
    ensures
        r is Some <==> pair_keys(e@).no_duplicates(),
        r matches Some(t) ==> t.wf() && t.key_seq() == pair_keys(e@) && t.val_seq() == pair_vals(e@),
{
    let n = e.len();
    let mut t: AddrTable<u64> = AddrTable::new();
    let mut k: usize = 0;
    while k < n
        invariant
            n == e@.len(),
            k <= n,
            t.wf(),
            t.key_seq() == pair_keys(e@).subrange(0, k as int),
            t.val_seq() == pair_vals(e@).subrange(0, k as int),
        decreases n - k,
    {
        proof {
            t.lemma_assoc();
        }
        if t.find(&e[k].0).is_some() {
            proof {
                let j = choose|j: int| 0 <= j < t.key_seq().len() && t.key_seq()[j] == e@[k as int].0@;
                assert(pair_keys(e@)[j] == pair_keys(e@)[k as int]);
            }
            return None;
        }
        t.push_new(e[k].0.clone(), e[k].1);
        k = k + 1;
        proof {
            assert(t.key_seq() =~= pair_keys(e@).subrange(0, k as int));
            assert(t.val_seq() =~= pair_vals(e@).subrange(0, k as int));
        }
    }
    proof {
        t.lemma_assoc();
        assert(pair_keys(e@).subrange(0, n as int) =~= pair_keys(e@));
        assert(pair_vals(e@).subrange(0, n as int) =~= pair_vals(e@));
    }
    Some(t)
}

/// A trial table holding `e`, unless an address repeats.
fn trial_table_from(e: &Vec<String>) -> (r: Option<AddrTable<bool>>)
    ensures
        r is Some <==> name_keys(e@).no_duplicates(),
        r matches Some(t) ==> t.wf() && t.key_seq() == name_keys(e@),
{
    let n = e.len();
    let mut t: AddrTable<bool> = AddrTable::new();
    let mut k: usize = 0;
    while k < n
        invariant
            n == e@.len(),
            k <= n,
            t.wf(),
            t.key_seq() == name_keys(e@).subrange(0, k as int),
        decreases n - k,
    {
        proof {
            t.lemma_assoc();
        }
        if t.find(&e[k]).is_some() {
            proof {
                let j = choose|j: int| 0 <= j < t.key_seq().len() && t.key_seq()[j] == e@[k as int]@;
                assert(name_keys(e@)[j] == name_keys(e@)[k as int]);
            }
            return None;
        }
        t.push_new(e[k].clone(), true);
        k = k + 1;
        proof {
            assert(t.key_seq() =~= name_keys(e@).subrange(0, k as int));
        }
    }
    proof {
        t.lemma_assoc();
        assert(name_keys(e@).subrange(0, n as int) =~= name_keys(e@));
    }
    Some(t)
}

/// An index table holding `e`, unless an address repeats or an index is too long.
fn index_table_from(e: &Vec<(String, Vec<u64>)>) -> (r: Option<AddrTable<PagedIndex>>)
    ensures
        r is Some <==> index_entries_valid(e@),
        r matches Some(t) ==> table_index_wf(t) && table_index_view(t) =~= index_entries_map(e@),
{
    let n = e.len();
    let mut t: AddrTable<PagedIndex> = AddrTable::new();
    let mut k: usize = 0;
    while k < n
        invariant
            n == e@.len(),
            k <= n,
            table_index_wf(t),
            t.key_seq() == index_keys(e@).subrange(0, k as int),
            t.val_seq().len() == k,
            forall|j: int| 0 <= j < k ==> (#[trigger] t.val_seq()[j])@ == e@[j].1@,
            forall|j: int| 0 <= j < k ==> (#[trigger] e@[j]).1@.len() <= MAX_INDEX_ITEMS,
        decreases n - k,
    {
        proof {
            t.lemma_assoc();
        }
        if t.find(&e[k].0).is_some() {
            proof {
                let j = choose|j: int| 0 <= j < t.key_seq().len() && t.key_seq()[j] == e@[k as int].0@;
                assert(index_keys(e@)[j] == index_keys(e@)[k as int]);
            }
            return None;
        }
        let ix = match PagedIndex::from_items(&e[k].1) {
            Some(ix) => ix,
            None => {
                return None;
            },
        };
        let ghost t0 = t;
        t.push_new(e[k].0.clone(), ix);
        k = k + 1;
        proof {
            assert(t.key_seq() =~= index_keys(e@).subrange(0, k as int));
            assert forall|w: Seq<char>| #[trigger] t.contains(w) implies t.spec_get(w).unwrap().wf() by {
                if w != e@[k - 1].0@ {
                    assert(t0.contains(w));
                }
            }
        }
    }
    proof {
        t.lemma_assoc();
        assert(index_keys(e@).subrange(0, n as int) =~= index_keys(e@));
        assert forall|w: Seq<char>| #[trigger] table_index_view(t).contains_key(w) == index_entries_map(e@).contains_key(w) by {}
        assert forall|w: Seq<char>| table_index_view(t).contains_key(w) implies #[trigger] table_index_view(t)[w]
            == index_entries_map(e@)[w] by {
            let i = choose|i: int| 0 <= i < t.key_seq().len() && t.key_seq()[i] == w;
            assert(index_vals(e@)[i] == t.val_seq()[i]@);
        }
    }
    Some(t)
}

/// Entry `k` of the index of service `s` is a live subscription of that
/// service whose reverse pointer names the entry's page.
pub open spec fn service_entry_ok(m: ContractModel, s: int, k: int) -> bool {
    let x = m.service_subs[s][k];
    &&& x < m.subs.len()
    &&& m.subs[x as int] is Some
    &&& m.subs[x as int].unwrap().service_id == s
    &&& m.sub_index[x as int] is Some
    &&& m.sub_index[x as int].unwrap().service_page == page_of(k)
}

/// Entry `k` of the index of subscriber `who` is a live subscription of that
/// subscriber whose reverse pointer names the entry's page.
pub open spec fn subscriber_entry_ok(m: ContractModel, who: Seq<char>, k: int) -> bool {
    let x = m.subscriber_subs[who][k];
    &&& x < m.subs.len()
    &&& m.subs[x as int] is Some
    &&& m.subs[x as int].unwrap().subscriber@ == who
    &&& m.sub_index[x as int] is Some
    &&& m.sub_index[x as int].unwrap().subscriber_page == page_of(k)
}

/// The index of subscriber `who` lists distinct live subscriptions of that
/// subscriber, each at the page its reverse pointer names.
pub open spec fn subscriber_index_ok(m: ContractModel, who: Seq<char>) -> bool {
    &&& forall|k: int| 0 <= k < m.subscriber_subs[who].len() ==> #[trigger] subscriber_entry_ok(m, who, k)
    &&& m.subscriber_subs[who].no_duplicates()
}

/// Subscription `x` has a reverse pointer exactly when it is live, and a live
/// one is listed by its service and by its subscriber.
pub open spec fn live_entry_ok(m: ContractModel, x: int) -> bool {
    &&& (m.subs[x] is Some) == (m.sub_index[x] is Some)
    &&& m.subs[x] is Some ==> {
        let sub = m.subs[x].unwrap();
        &&& sub.service_id < m.service_subs.len()
        &&& m.service_subs[sub.service_id as int].contains(x as u64)
        &&& m.subs_of(sub.subscriber@).contains(x as u64)
    }
}

/// The pair `key` names a live subscription of that subscriber to that
/// service.
pub open spec fn pair_entry_ok(m: ContractModel, key: (Seq<char>, u64)) -> bool {
    let id = m.pairs[key];
    &&& id < m.subs.len()
    &&& m.subs[id as int] is Some
    &&& m.subs[id as int].unwrap().subscriber@ == key.0
    &&& m.subs[id as int].unwrap().service_id == key.1
}

/// The entry at position `e` of a table, seen through its lookup.
proof fn lemma_table_at<V>(t: AddrTable<V>, e: int)
    requires
        t.wf(),
        0 <= e < t.size(),
    ensures
        t.contains(t.key_seq()[e]),
        t.spec_get(t.key_seq()[e]) == Some(t.val_seq()[e]),
{
    t.lemma_assoc();
    let w = t.key_seq()[e];
    assert(t.key_seq().contains(w));
    assert(t.spec_get(w) == Some(t.val_seq()[e]));
}

/// Every entry of the service index of merchant `who` is a service of that
/// merchant.
pub open spec fn merchant_index_ok(m: ContractModel, who: Seq<char>) -> bool {
    forall|k: int|
        0 <= k < m.merchant_services[who].len() ==> {
            let id = #[trigger] m.merchant_services[who][k];
            &&& id < m.services.len()
            &&& m.services[id as int].merchant@ == who
        }
}

/// The entry at position `i` of an index table, seen through the map view.
proof fn lemma_table_index_at(t: AddrTable<PagedIndex>, i: int)
    requires
        table_index_wf(t),
        0 <= i < t.size(),
    ensures
        table_index_view(t).contains_key(t.key_seq()[i]),
        table_index_view(t)[t.key_seq()[i]] == t.val_seq()[i]@,
        t.val_seq()[i].wf(),
{
    t.lemma_assoc();
    let w = t.key_seq()[i];
    assert(t.key_seq().contains(w));
    assert(t.spec_get(w) == Some(t.val_seq()[i]));
}

/// Every key of an index table's map view sits at some position.
proof fn lemma_table_index_key(t: AddrTable<PagedIndex>, who: Seq<char>) -> (i: int)
    requires
        table_index_wf(t),
        table_index_view(t).contains_key(who),
    ensures
        0 <= i < t.size(),
        t.key_seq()[i] == who,
{
    t.lemma_assoc();
    choose|i: int| 0 <= i < t.key_seq().len() && t.key_seq()[i] == who
}

/// Whether page `page` of `ix` holds `x`.
fn page_holds(ix: &PagedIndex, page: u32, x: u64) -> (r: bool)
    requires
        ix.wf(),
    ensures
        r == exists|k: int| 0 <= k < ix@.len() && page_of(k) == page && #[trigger] ix@[k] == x,
{
    proof {
        ix.lemma_page_count();
    }
    let len = ix.len();
    let lo: u64 = (page as u64) * 50;
    let hi: u64 = if lo + 50 < len { lo + 50 } else { len };
    let mut k: u64 = lo;
    while k < hi
        invariant
            ix.wf(),
            len == ix@.len(),
            lo == page * 50,
            hi <= len,
            hi <= lo + 50,
            lo <= k,
            hi == len || hi == lo + 50,
            forall|j: int| lo <= j < k ==> #[trigger] ix@[j] != x,
        decreases hi - k,
    {
        if ix.get(k) == x {
            proof {
                assert(page_of(k as int) == page);
            }
            return true;
        }
        k = k + 1;
    }
    proof {
        assert forall|j: int| 0 <= j < ix@.len() && page_of(j) == page implies #[trigger] ix@[j] != x by {
            assert(lo <= j < lo + 50);
        }
    }
    false
}

/// Storage after registering `svc` (which carries the next service id).
pub open spec fn register_model(m: ContractModel, svc: Service) -> ContractModel {
    ContractModel {
        services: m.services.push(svc),
        service_subs: m.service_subs.push(Seq::empty()),
        merchant_services: m.merchant_services.insert(
            svc.merchant@,
            m.services_of(svc.merchant@).push(svc.service_id),
        ),
        ..m
    }
}

/// Storage after setting the activity of service `service_id`.
pub open spec fn set_active_model(m: ContractModel, service_id: u64, active: bool) -> ContractModel {
    ContractModel {
        services: m.services.update(
            service_id as int,
            Service { is_active: active, ..m.services[service_id as int] },
        ),
        ..m
    }
}

/// Every recorded trial of `a` is still recorded in `b`.
pub open spec fn keeps_trials(a: ContractModel, b: ContractModel) -> bool {
    a.trials_used.subset_of(b.trials_used)
}

/// Storage after proposing `who` as the next admin.
pub open spec fn propose_admin_step(m: ContractModel, who: Seq<char>) -> ContractModel {
    ContractModel { pending_admin: Some(who), ..m }
}

/// Outcome and storage of `who` accepting the admin role.
pub open spec fn accept_admin_step(m: ContractModel, who: Seq<char>) -> (Result<(), ContractError>, ContractModel) {
    match m.pending_admin {
        None => (Err(ContractError::NoAdminProposed), m),
        Some(p) => if p != who {
            (Err(ContractError::NotProposedAdmin), m)
        } else {
            (Ok(()), ContractModel { admin: who, pending_admin: None, ..m })
        },
    }
}

/// Outcome and storage of proposing an upgrade to `hash` at time `now`.
pub open spec fn propose_upgrade_step(m: ContractModel, hash: [u8; 32], now: u64) -> (
    Result<PendingUpgrade, ContractError>,
    ContractModel,
) {
    if m.pending_upgrade is Some {
        (Err(ContractError::UpgradeAlreadyPending), m)
    } else if now + UPGRADE_TIMELOCK_SECS > u64::MAX {
        (Err(ContractError::TimestampOverflow), m)
    } else {
        let p = PendingUpgrade { wasm_hash: hash, apply_after_ts: (now + UPGRADE_TIMELOCK_SECS) as u64 };
        (Ok(p), ContractModel { pending_upgrade: Some(p), ..m })
    }
}

/// Outcome and storage of applying the pending upgrade at time `now`; the
/// outcome carries the code hash to install.
pub open spec fn apply_upgrade_step(m: ContractModel, now: u64) -> (Result<[u8; 32], ContractError>, ContractModel) {
    match m.pending_upgrade {
        None => (Err(ContractError::NoUpgradeProposed), m),
        Some(p) => if now < p.apply_after_ts {
            (Err(ContractError::UpgradeTimelockNotElapsed), m)
        } else {
            (Ok(p.wasm_hash), ContractModel { pending_upgrade: None, ..m })
        },
    }
}

/// Outcome and storage of dropping the pending upgrade.
pub open spec fn cancel_upgrade_step(m: ContractModel) -> (Result<(), ContractError>, ContractModel) {
    match m.pending_upgrade {
        None => (Err(ContractError::NoUpgradeProposed), m),
        Some(_) => (Ok(()), ContractModel { pending_upgrade: None, ..m }),
    }
}

impl SubscriptionContract {
    pub closed spec fn model(&self) -> ContractModel {
        ContractModel {
            admin: self.admin@,
            pending_admin: opt_view(self.pending_admin),
            pending_upgrade: self.pending_upgrade,
            token: self.token@,
            services: self.services@,
            service_subs: Seq::new(self.service_subs@.len(), |i: int| self.service_subs@[i]@),
            pairs: Map::new(
                |k: (Seq<char>, u64)|
                    k.1 < self.service_pairs@.len() && self.service_pairs@[k.1 as int].contains(k.0),
                |k: (Seq<char>, u64)| self.service_pairs@[k.1 as int].spec_get(k.0).unwrap(),
            ),
            trials_used: Set::new(
                |k: (Seq<char>, u64)|
                    k.1 < self.service_trials@.len() && self.service_trials@[k.1 as int].contains(k.0),
            ),
            subs: self.subs@,
            sub_index: self.sub_index@,
            reserved: self.reserved@,
            merchant_services: table_index_view(self.merchant_services),
            subscriber_subs: table_index_view(self.subscriber_subs),
        }
    }

    /// Well-formed storage: structurally sound and consistent.
    pub closed spec fn wf(&self) -> bool {
        self.inv() && consistent(self.model())
    }

    /// Structural soundness of the storage.
    pub closed spec fn inv(&self) -> bool {
        &&& self.service_subs@.len() == self.services@.len()
        &&& self.service_pairs@.len() == self.services@.len()
        &&& self.service_trials@.len() == self.services@.len()
        &&& forall|i: int| 0 <= i < self.services@.len() ==> #[trigger] self.services@[i].service_id == i
        &&& forall|i: int| 0 <= i < self.services@.len() ==> #[trigger] self.service_subs@[i].wf()
        &&& forall|i: int| 0 <= i < self.services@.len() ==> #[trigger] self.service_pairs@[i].wf()
        &&& forall|i: int| 0 <= i < self.services@.len() ==> #[trigger] self.service_trials@[i].wf()
        &&& self.sub_index@.len() == self.subs@.len()
        &&& self.reserved@.len() == self.subs@.len()
        &&& forall|i: int|
            0 <= i < self.subs@.len() && (#[trigger] self.subs@[i]) is Some ==> self.subs@[i].unwrap().sub_id
                == i && self.subs@[i].unwrap().price > 0
        &&& forall|i: int| 0 <= i < self.services@.len() ==> #[trigger] self.services@[i].price > 0
        &&& forall|i: int| 0 <= i < self.reserved@.len() ==> #[trigger] self.reserved@[i] >= 0
        &&& table_index_wf(self.merchant_services)
        &&& table_index_wf(self.subscriber_subs)
    }

    /// What well-formed storage guarantees of its model: it is consistent,
    /// services sit at their ids with a positive price, the per-service and per-subscription
    /// tables have matching lengths, live subscriptions sit at their ids with
    /// a positive price, reservations are non-negative and no index exceeds
    /// the paging limit.
    pub proof fn lemma_wf_model(&self)
        requires
            self.wf(),
        ensures
            ({
                let m = self.model();
                &&& consistent(m)
                &&& m.service_subs.len() == m.services.len()
                &&& m.sub_index.len() == m.subs.len()
                &&& m.reserved.len() == m.subs.len()
                &&& forall|i: int|
                    0 <= i < m.services.len() ==> #[trigger] m.services[i].service_id == i && m.services[i].price > 0
                &&& forall|i: int|
                    0 <= i < m.subs.len() && (#[trigger] m.subs[i]) is Some ==> m.subs[i].unwrap().sub_id == i
                        && m.subs[i].unwrap().price > 0
                &&& forall|i: int| 0 <= i < m.reserved.len() ==> #[trigger] m.reserved[i] >= 0
                &&& forall|i: int| 0 <= i < m.service_subs.len() ==> (#[trigger] m.service_subs[i]).len() <= MAX_INDEX_ITEMS
            }),
    {
        let m = self.model();
        assert forall|i: int| 0 <= i < m.service_subs.len() implies (#[trigger] m.service_subs[i]).len() <= MAX_INDEX_ITEMS by {
            self.service_subs@[i].lemma_page_count();
        }
    }

    /// Set up the contract with its admin and billing token.
    pub fn new(admin: String, token: String) -> (r: Self)
        ensures
            r.wf(),
            consistent(r.model()),
            r.model() =~= (ContractModel {
                admin: admin@,
                pending_admin: None,
                pending_upgrade: None,
                token: token@,
                services: Seq::empty(),
                service_subs: Seq::empty(),
                pairs: Map::empty(),
                trials_used: Set::empty(),
                subs: Seq::empty(),
                sub_index: Seq::empty(),
                reserved: Seq::empty(),
                merchant_services: Map::empty(),
                subscriber_subs: Map::empty(),
            }),
    {
        let r = SubscriptionContract {
            admin,
            pending_admin: None,
            pending_upgrade: None,
            token,
            services: Vec::new(),
            service_subs: Vec::new(),
            service_pairs: Vec::new(),
            service_trials: Vec::new(),
            subs: Vec::new(),
            sub_index: Vec::new(),
            reserved: Vec::new(),
            merchant_services: AddrTable::new(),
            subscriber_subs: AddrTable::new(),
        };
        proof {
            assert(r.model().merchant_services =~= Map::empty());
            assert(r.model().subscriber_subs =~= Map::empty());
            assert(r.model().pairs =~= Map::empty());
            assert(r.model().trials_used =~= Set::empty());
            assert(r.model().service_subs =~= Seq::empty());
        }
        r
    }

    /// Address of the current admin.
    pub fn admin(&self) -> (a: &String)
        ensures
            a@ == self.model().admin,
    {
        &self.admin
    }

    /// Address of the billing token.
    pub fn token(&self) -> (t: &String)
        ensures
            t@ == self.model().token,
    {
        &self.token
    }


    // ---- Service management -----------------------------------------------

    /// Register a new service for `merchant`. The parameters are checked in
    /// order: positive price, non-zero period, non-empty name, non-zero
    /// number of approved periods.
    pub fn register_service(
        &mut self,
        merchant: &String,
        name: String,
        price: i128,
        period_secs: u64,
        trial_period_secs: u64,
        approve_periods: u64,
        now: u64,
    ) -> (r: Result<Service, ContractError>)
        requires
            old(self).wf(),
            old(self).model().services_of(merchant@).len() < MAX_INDEX_ITEMS,
        ensures
            consistent(old(self).model()) ==> consistent(final(self).model()),
            keeps_trials(old(self).model(), final(self).model()),
            final(self).wf(),
            service_params_error(price, period_secs, name@, approve_periods) matches Some(e) ==> r
                == Err::<Service, ContractError>(e) && final(self).model() == old(self).model(),
            service_params_error(price, period_secs, name@, approve_periods) is None ==> {
                let id = old(self).model().services.len() as u64;
                let svc = Service {
                    service_id: id,
                    merchant: *merchant,
                    name: name,
                    price: price,
                    period_secs: period_secs,
                    trial_period_secs: trial_period_secs,
                    approve_periods: approve_periods,
                    is_active: true,
                    created_at: now,
                };
                &&& r == Ok::<Service, ContractError>(svc)
                &&& final(self).model() =~= register_model(old(self).model(), svc)
            },
    {
        if price <= 0 {
            return Err(ContractError::InvalidPrice);
        }
        if period_secs == 0 {
            return Err(ContractError::InvalidPeriod);
        }
        if name.as_str().is_empty() {
            return Err(ContractError::InvalidServiceName);
        }
        if approve_periods == 0 {
            return Err(ContractError::InvalidPeriod);
        }
        let ghost old_model = self.model();
        let service_id = self.services.len() as u64;
        let service = Service {
            service_id,
            merchant: merchant.clone(),
            name,
            price,
            period_secs,
            trial_period_secs,
            approve_periods,
            is_active: true,
            created_at: now,
        };
        self.services.push(service.copy());
        self.service_subs.push(PagedIndex::new());
        self.service_pairs.push(AddrTable::new());
        self.service_trials.push(AddrTable::new());
        index_table_append(&mut self.merchant_services, merchant, service_id);
        proof {
            let m = self.model();
            assert(m.service_subs =~= old_model.service_subs.push(Seq::empty()));
            assert(m.pairs =~= old_model.pairs);
            assert(m.trials_used =~= old_model.trials_used);
            assert(m.services =~= old_model.services.push(service));
            if consistent(old_model) {
                assert(m.subs == old_model.subs);
                assert forall|t: int, k: int| 0 <= t < m.service_subs.len() && 0 <= k < m.service_subs[t].len()
                    implies #[trigger] m.service_subs[t][k] == old_model.service_subs[t][k] by {}
                assert forall|t: int| 0 <= t < m.service_subs.len() implies (#[trigger] m.service_subs[t]).no_duplicates() by {
                    if t < old_model.service_subs.len() {
                        assert(old_model.service_subs[t].no_duplicates());
                    }
                }
                assert forall|x: int| 0 <= x < m.subs.len() && m.subs[x] is Some implies
                    m.service_subs[m.subs[x].unwrap().service_id as int].contains(x as u64) by {
                    assert(old_model.service_subs[m.subs[x].unwrap().service_id as int].contains(x as u64));
                }
            }
        }
        Ok(service)
    }

    /// Activate or deactivate a service; only its merchant may.
    pub fn set_service_active(&mut self, merchant: &String, service_id: u64, active: bool) -> (r:
        Result<(), ContractError>)
        requires
            old(self).wf(),
        ensures
            consistent(old(self).model()) ==> consistent(final(self).model()),
            keeps_trials(old(self).model(), final(self).model()),
            final(self).wf(),
            old(self).model().service(service_id) is None ==> r == Err::<(), ContractError>(
                ContractError::ServiceNotFound,
            ) && final(self).model() == old(self).model(),
            old(self).model().service(service_id) matches Some(svc) && svc.merchant@ != merchant@
                ==> r == Err::<(), ContractError>(ContractError::NotServiceOwner) && final(self).model() == old(self).model(),
            old(self).model().service(service_id) is Some && old(self).model().service(
                service_id,
            ).unwrap().merchant@ == merchant@ ==> r == Ok::<(), ContractError>(()) && final(self).model() =~= set_active_model(
                old(self).model(),
                service_id,
                active,
            ),
    {
        if service_id >= self.services.len() as u64 {
            return Err(ContractError::ServiceNotFound);
        }
        let i = service_id as usize;
        if self.services[i].merchant != *merchant {
            return Err(ContractError::NotServiceOwner);
        }
        let ghost old_model = self.model();
        self.services[i].is_active = active;
        proof {
            let m = self.model();
            assert(m.service_subs =~= old_model.service_subs);
            assert(m.pairs =~= old_model.pairs);
            assert(m.trials_used =~= old_model.trials_used);
            assert(forall|j: int| 0 <= j < m.services.len() ==> #[trigger] m.services[j].service_id == old_model.services[j].service_id);
        }
        Ok(())
    }

    /// The service with this id.
    pub fn get_service(&self, service_id: u64) -> (r: Result<Service, ContractError>)
        requires
            self.wf(),
        ensures
            r == (match self.model().service(service_id) {
                Some(s) => Ok::<Service, ContractError>(s),
                None => Err::<Service, ContractError>(ContractError::ServiceNotFound),
            }),
    {
        if service_id >= self.services.len() as u64 {
            return Err(ContractError::ServiceNotFound);
        }
        Ok(self.services[service_id as usize].copy())
    }

    /// All services registered by `merchant`, in registration order.
    pub fn get_merchant_services(&self, merchant: &String) -> (r: Vec<Service>)
        requires
            self.wf(),
        ensures
            r@ == existing_services(self.model(), self.model().services_of(merchant@)),
    {
        let ids = index_table_read(&self.merchant_services, merchant);
        let mut out: Vec<Service> = Vec::new();
        let n = ids.len();
        let mut k: usize = 0;
        while k < n
            invariant
                self.inv(),
                n == ids@.len(),
                k <= n,
                out@ == existing_services(self.model(), ids@.subrange(0, k as int)),
            decreases n - k,
        {
            let sid = ids[k];
            proof {
                assert(ids@.subrange(0, k + 1).drop_last() =~= ids@.subrange(0, k as int));
            }
            if sid < self.services.len() as u64 {
                out.push(self.services[sid as usize].copy());
            }
            k = k + 1;
        }
        proof {
            assert(ids@.subrange(0, n as int) =~= ids@);
        }
        out
    }



    // ---- Allowance bookkeeping ---------------------------------------------

    /// Approve `periods` more periods at `price` for subscription `sub_id` on
    /// top of `allowance`, recording the amount as the subscription's
    /// reservation. Returns the new allowance.
    fn approve_for(
        &mut self,
        subscriber: &String,
        sub_id: u64,
        price: i128,
        periods: u64,
        ledger: &LedgerInfo,
        allowance: i128,
        calls: &mut Vec<TokenCall>,
    ) -> (r: Result<i128, ContractError>)
        requires
            old(self).inv(),
            sub_id < old(self).model().reserved.len(),
            price > 0,
        ensures
            final(self).inv(),
            ({
                let m = old(self).model();
                match approve_step(allowance, m.reserved[sub_id as int], price, periods) {
                    None => r == Err::<i128, ContractError>(ContractError::TimestampOverflow)
                        && final(self).model() == m && final(calls)@ == old(calls)@,
                    Some((a, res)) => r == Ok::<i128, ContractError>(a) && final(self).model() =~= (
                    ContractModel { reserved: m.reserved.update(sub_id as int, res), ..m })
                        && final(calls)@ == old(calls)@.push(approve_call(*subscriber, a, *ledger)),
                }
            }),
    {
        let amount = match price.checked_mul(periods as i128) {
            Some(a) => a,
            None => {
                return Err(ContractError::TimestampOverflow);
            },
        };
        let approve_amount = match allowance.checked_add(amount) {
            Some(a) => a,
            None => {
                return Err(ContractError::TimestampOverflow);
            },
        };
        proof {
            assert(self.reserved@.len() == self.reserved.len());
        }
        let i = sub_id as usize;
        assert(price * periods >= 0) by (nonlinear_arith)
            requires
                price > 0,
        ;
        let new_reserved = match self.reserved[i].checked_add(amount) {
            Some(a) => a,
            None => {
                return Err(ContractError::TimestampOverflow);
            },
        };
        let expiration_ledger = compute_approval_expiration(ledger.max_ttl, ledger.sequence);
        calls.push(TokenCall::Approve { owner: subscriber.clone(), amount: approve_amount, expiration_ledger });
        let ghost m0 = self.model();
        self.reserved.set(i, new_reserved);
        proof {
            let m = self.model();
            assert(m.service_subs =~= m0.service_subs);
            assert(m.pairs =~= m0.pairs);
            assert(m.trials_used =~= m0.trials_used);
        }
        Ok(approve_amount)
    }

    /// Release the reservation of subscription `sub_id` against `allowance`
    /// and clear it. Returns the new allowance.
    fn release_reservation(
        &mut self,
        subscriber: &String,
        sub_id: u64,
        ledger: &LedgerInfo,
        allowance: i128,
        calls: &mut Vec<TokenCall>,
    ) -> (r: i128)
        requires
            old(self).inv(),
            sub_id < old(self).model().reserved.len(),
        ensures
            final(self).inv(),
            ({
                let m = old(self).model();
                let res = m.reserved[sub_id as int];
                &&& r == allowance_after_release(allowance, res)
                &&& final(self).model() =~= (ContractModel { reserved: m.reserved.update(sub_id as int, 0), ..m })
                &&& final(calls)@ == old(calls)@ + release_calls(*subscriber, allowance, res, *ledger)
            }),
    {
        proof {
            assert(self.reserved@.len() == self.reserved.len());
        }
        let i = sub_id as usize;
        let reserved = self.reserved[i];
        let mut new_allowance = allowance;
        if reserved > 0 && allowance > 0 {
            new_allowance = if allowance > reserved { allowance - reserved } else { 0 };
            if new_allowance == 0 {
                calls.push(TokenCall::Approve { owner: subscriber.clone(), amount: 0, expiration_ledger: 0 });
            } else {
                let expiration_ledger = compute_approval_expiration(ledger.max_ttl, ledger.sequence);
                calls.push(TokenCall::Approve { owner: subscriber.clone(), amount: new_allowance, expiration_ledger });
            }
        }
        let ghost m0 = self.model();
        self.reserved.set(i, 0);
        proof {
            let m = self.model();
            assert(m.service_subs =~= m0.service_subs);
            assert(m.pairs =~= m0.pairs);
            assert(m.trials_used =~= m0.trials_used);
            assert(calls@ =~= old(calls)@ + release_calls(*subscriber, allowance, reserved, *ledger));
        }
        new_allowance
    }

    /// Store `sub` at its id.
    fn store_sub(&mut self, sub: Subscription)
        requires
            old(self).inv(),
            sub.sub_id < old(self).model().subs.len(),
            sub.price > 0,
        ensures
            final(self).inv(),
            final(self).model() =~= (ContractModel {
                subs: old(self).model().subs.update(sub.sub_id as int, Some(sub)),
                ..old(self).model()
            }),
    {
        let ghost m0 = self.model();
        proof {
            assert(self.subs@.len() == self.subs.len());
        }
        let i = sub.sub_id as usize;
        self.subs.set(i, Some(sub));
        proof {
            let m = self.model();
            assert(m.service_subs =~= m0.service_subs);
            assert(m.pairs =~= m0.pairs);
            assert(m.trials_used =~= m0.trials_used);
        }
    }


    // ---- Subscription bookkeeping -----------------------------------------

    /// The approval amounts of `approve_step`, computed with checked arithmetic.
    fn approve_amounts(allowance: i128, reserved: i128, price: i128, periods: u64) -> (r: Option<(i128, i128)>)
        ensures
            r == approve_step(allowance, reserved, price, periods),
    {
        let amount = match price.checked_mul(periods as i128) {
            Some(a) => a,
            None => {
                return None;
            },
        };
        let a = match allowance.checked_add(amount) {
            Some(a) => a,
            None => {
                return None;
            },
        };
        match reserved.checked_add(amount) {
            Some(res) => Some((a, res)),
            None => None,
        }
    }

    /// Whether `subscriber` has consumed the trial of `service_id`.
    fn trial_used_of(&self, subscriber: &String, service_id: u64) -> (r: bool)
        requires
            self.inv(),
        ensures
            r == self.model().trials_used.contains((subscriber@, service_id)),
    {
        if service_id >= self.service_trials.len() as u64 {
            return false;
        }
        self.service_trials[service_id as usize].find(subscriber).is_some()
    }

    /// Record that `subscriber` consumed the trial of an existing service.
    fn mark_trial(&mut self, subscriber: &String, service_id: u64)
        requires
            old(self).inv(),
            service_id < old(self).model().services.len(),
        ensures
            final(self).inv(),
            final(self).model() =~= (ContractModel {
                trials_used: old(self).model().trials_used.insert((subscriber@, service_id)),
                ..old(self).model()
            }),
    {
        let ghost m0 = self.model();
        proof {
            assert(self.service_trials@.len() == self.service_trials.len());
        }
        let s = service_id as usize;
        if self.service_trials[s].find(subscriber).is_none() {
            let ghost t0 = self.service_trials@[s as int];
            self.service_trials[s].push_new(subscriber.clone(), true);
            proof {
                assert(self.service_trials@[s as int].contains(subscriber@));
                assert forall|w: Seq<char>| #[trigger] self.service_trials@[s as int].contains(w) == (t0.contains(w) || w == subscriber@) by {}
            }
        }
        proof {
            let m = self.model();
            assert(m.trials_used =~= m0.trials_used.insert((subscriber@, service_id))) by {
                assert forall|k: (Seq<char>, u64)| #[trigger] m.trials_used.contains(k) == m0.trials_used.insert((subscriber@, service_id)).contains(k) by {
                    if k.1 == service_id && k.1 < self.service_trials@.len() {
                    }
                }
            }
            assert(m.service_subs =~= m0.service_subs);
            assert(m.pairs =~= m0.pairs);
        }
    }

    /// Point the (subscriber, service) pair of an existing service at `sub_id`.
    fn set_pair(&mut self, subscriber: &String, service_id: u64, sub_id: u64)
        requires
            old(self).inv(),
            service_id < old(self).model().services.len(),
        ensures
            final(self).inv(),
            final(self).model() =~= (ContractModel {
                pairs: old(self).model().pairs.insert((subscriber@, service_id), sub_id),
                ..old(self).model()
            }),
    {
        let ghost m0 = self.model();
        proof {
            assert(self.service_pairs@.len() == self.service_pairs.len());
        }
        let s = service_id as usize;
        let ghost t0 = self.service_pairs@[s as int];
        match self.service_pairs[s].find(subscriber) {
            Some(i) => {
                let mut v = sub_id;
                self.service_pairs[s].swap_at(i, &mut v);
                proof {
                    let t = self.service_pairs@[s as int];
                    assert(t.spec_get(subscriber@) == Some(sub_id));
                    assert forall|w: Seq<char>| w != subscriber@ implies #[trigger] t.spec_get(w) == t0.spec_get(w) by {
                        if t0.contains(w) && t0.slot(w) == i {
                            t0.lemma_slot_injective(w, subscriber@);
                        }
                    }
                    assert forall|w: Seq<char>| #[trigger] t.contains(w) == t0.contains(w) by {}
                }
            },
            None => {
                self.service_pairs[s].push_new(subscriber.clone(), sub_id);
            },
        }
        proof {
            let m = self.model();
            let t = self.service_pairs@[s as int];
            let expect = m0.pairs.insert((subscriber@, service_id), sub_id);
            assert forall|k: (Seq<char>, u64)| #[trigger] m.pairs.contains_key(k) == expect.contains_key(k) by {
                if k.1 == service_id {
                    assert(t.contains(k.0) == (t0.contains(k.0) || k.0 == subscriber@));
                }
            }
            assert forall|k: (Seq<char>, u64)| m.pairs.contains_key(k) implies #[trigger] m.pairs[k] == expect[k] by {
                if k.1 == service_id && k.0 != subscriber@ {
                    t.lemma_get_some(k.0);
                    t0.lemma_get_some(k.0);
                }
            }
            assert(m.pairs =~= expect);
            assert(m.service_subs =~= m0.service_subs);
            assert(m.trials_used =~= m0.trials_used);
        }
    }


    /// Point a moved entry's reverse pointer at its new page.
    fn repoint(&mut self, moved: Option<(u64, u32)>, service_side: bool)
        requires
            old(self).inv(),
        ensures
            final(self).inv(),
            final(self).model() =~= (ContractModel {
                sub_index: if service_side {
                    repoint_service(old(self).model().sub_index, moved)
                } else {
                    repoint_subscriber(old(self).model().sub_index, moved)
                },
                ..old(self).model()
            }),
    {
        let ghost m0 = self.model();
        match moved {
            Some((x, p)) => {
                if x < self.sub_index.len() as u64 {
                    match self.sub_index[x as usize] {
                        Some(idx) => {
                            let updated = if service_side {
                                SubIndex { service_page: p, subscriber_page: idx.subscriber_page }
                            } else {
                                SubIndex { service_page: idx.service_page, subscriber_page: p }
                            };
                            self.sub_index.set(x as usize, Some(updated));
                        },
                        None => {},
                    }
                }
            },
            None => {},
        }
        proof {
            let m = self.model();
            assert(m.service_subs =~= m0.service_subs);
            assert(m.pairs =~= m0.pairs);
            assert(m.trials_used =~= m0.trials_used);
        }
    }

    /// Remove the dead subscription `old_id` of `subscriber` on `service_id`:
    /// drop it from both indexes (updating the reverse pointer of any entry
    /// moved across pages), drop its record and release its reservation.
    /// Returns the allowance left.
    fn prune_sub(
        &mut self,
        subscriber: &String,
        service_id: u64,
        old_id: u64,
        ledger: &LedgerInfo,
        allowance: i128,
        calls: &mut Vec<TokenCall>,
    ) -> (r: i128)
        requires
            old(self).inv(),
            service_id < old(self).model().services.len(),
            old_id < old(self).model().subs.len(),
        ensures
            final(self).inv(),
            final(self).model() =~= prune_model(old(self).model(), old_id, subscriber@, service_id),
            final(calls)@ == old(calls)@ + release_calls(
                *subscriber,
                allowance,
                old(self).model().reserved[old_id as int],
                *ledger,
            ),
            r == allowance_after_release(allowance, old(self).model().reserved[old_id as int]),
    {
        let ghost m0 = self.model();
        proof {
            assert(self.sub_index@.len() == self.sub_index.len());
            assert(self.service_subs@.len() == self.service_subs.len());
        }
        let s = service_id as usize;
        let o = old_id as usize;
        match self.sub_index[o] {
            Some(idx) => {
                let ghost ss = m0.subs_of_service(service_id);
                let moved1 = self.service_subs[s].remove(old_id, idx.service_page);
                let ghost ma = self.model();
                proof {
                    assert(ma.service_subs =~= m0.service_subs.update(
                        service_id as int,
                        remove_in_page(ss, old_id, idx.service_page),
                    ));
                    assert(ma.pairs =~= m0.pairs);
                    assert(ma.trials_used =~= m0.trials_used);
                    assert(moved1 == moved_entry(ss, old_id, idx.service_page));
                }
                self.repoint(moved1, true);
                let ghost mb = self.model();
                let moved2 = index_table_remove(&mut self.subscriber_subs, subscriber, old_id, idx.subscriber_page);
                let ghost mc = self.model();
                proof {
                    assert(mc.service_subs =~= mb.service_subs);
                    assert(mc.pairs =~= mb.pairs);
                    assert(mc.trials_used =~= mb.trials_used);
                    assert(mb.subscriber_subs == m0.subscriber_subs);
                    assert(moved2 == moved_entry(m0.subs_of(subscriber@), old_id, idx.subscriber_page));
                }
                self.repoint(moved2, false);
                let ghost md = self.model();
                self.sub_index.set(o, None);
                proof {
                    let m = self.model();
                    assert(m.service_subs =~= md.service_subs);
                    assert(m.pairs =~= md.pairs);
                    assert(m.trials_used =~= md.trials_used);
                    assert(m =~= prune_indexes(m0, old_id, subscriber@, service_id));
                }
            },
            None => {},
        }
        let ghost me = self.model();
        self.subs.set(o, None);
        proof {
            let m = self.model();
            assert(m.service_subs =~= me.service_subs);
            assert(m.pairs =~= me.pairs);
            assert(m.trials_used =~= me.trials_used);
        }
        self.release_reservation(subscriber, old_id, ledger, allowance, calls)
    }

    // ---- Subscription lifecycle -------------------------------------------


    /// Subscribe `subscriber` to `service_id`.
    ///
    /// The trial is granted only on the first subscription of this subscriber
    /// to a service that has one; its use is recorded and survives
    /// cancellation and re-subscription. With a trial nothing is paid now;
    /// with `auto_renew` the service's number of periods is approved. Without
    /// a trial the first period is paid immediately, after approving the
    /// service's number of periods (`auto_renew`) or one period. A dead
    /// earlier subscription to the same service (not renewing, past its end)
    /// is pruned; a live one is refused. `allowance` is what `subscriber`
    /// currently approves to the contract; the token calls to make, in order,
    /// are appended to `calls`.
    #[verifier::spinoff_prover]
    #[verifier::rlimit(50)]
    pub fn subscribe(
        &mut self,
        subscriber: &String,
        service_id: u64,
        auto_renew: bool,
        ledger: &LedgerInfo,
        allowance: i128,
        calls: &mut Vec<TokenCall>,
    ) -> (r: Result<Subscription, ContractError>)
        requires
            old(self).wf(),
            old(self).model().subs_of_service(service_id).len() < MAX_INDEX_ITEMS,
            old(self).model().subs_of(subscriber@).len() < MAX_INDEX_ITEMS,
        ensures
            consistent(old(self).model()) ==> consistent(final(self).model()),
            keeps_trials(old(self).model(), final(self).model()),
            final(self).wf(),
            ({
                let m = old(self).model();
                match subscribe_error(m, subscriber@, service_id, auto_renew, ledger.timestamp, allowance) {
                    Some(e) => r == Err::<Subscription, ContractError>(e) && final(self).model() == m
                        && final(calls)@ == old(calls)@,
                    None => {
                        &&& r == Ok::<Subscription, ContractError>(
                            new_subscription(m, *subscriber, m.service(service_id).unwrap(), auto_renew, ledger.timestamp),
                        )
                        &&& final(self).model() =~= subscribe_model(
                            m,
                            *subscriber,
                            service_id,
                            auto_renew,
                            ledger.timestamp,
                        )
                        &&& final(calls)@ == old(calls)@ + subscribe_calls(
                            m,
                            *subscriber,
                            service_id,
                            auto_renew,
                            *ledger,
                            allowance,
                        )
                    },
                }
            }),
    {
        let ghost m = self.model();
        let now = ledger.timestamp;
        if service_id >= self.services.len() as u64 {
            return Err(ContractError::ServiceNotFound);
        }
        let svc = self.services[service_id as usize].copy();
        if !svc.is_active {
            return Err(ContractError::ServiceNotActive);
        }
        let mut had_trial = self.trial_used_of(subscriber, service_id);
        let mut prior: Option<u64> = None;
        match self.pair_of(subscriber, service_id) {
            Some(existing_id) => {
                match self.sub_at(existing_id) {
                    Some(existing) => {
                        if existing.auto_renew || now < existing.service_end_ts {
                            return Err(ContractError::AlreadySubscribed);
                        }
                        if existing.trial_period_secs > 0 {
                            had_trial = true;
                        }
                        prior = Some(existing_id);
                    },
                    None => {},
                }
            },
            None => {},
        }
        let grant_trial = svc.trial_period_secs > 0 && !had_trial;
        proof {
            assert(grant_trial == grants_trial(m, subscriber@, svc));
            assert(prior == prior_to_prune(m, subscriber@, service_id));
        }
        let added = if grant_trial { svc.trial_period_secs } else { svc.period_secs };
        let end = match checked_add_ts(now, added) {
            Ok(t) => t,
            Err(e) => {
                return Err(e);
            },
        };
        let approves = !grant_trial || auto_renew;
        let periods: u64 = if auto_renew { svc.approve_periods } else { 1 };
        let base: i128 = match prior {
            Some(old_id) => {
                proof {
                    assert(self.reserved@.len() == self.reserved.len());
                }
                let res = self.reserved[old_id as usize];
                if res > 0 && allowance > 0 {
                    if allowance > res { allowance - res } else { 0 }
                } else {
                    allowance
                }
            },
            None => allowance,
        };
        proof {
            assert(base == subscribe_base_allowance(m, subscriber@, service_id, allowance));
        }
        let mut new_allowance = base;
        let mut new_reserved: i128 = 0;
        if approves {
            match Self::approve_amounts(base, 0, svc.price, periods) {
                Some((a, res)) => {
                    new_allowance = a;
                    new_reserved = res;
                },
                None => {
                    return Err(ContractError::TimestampOverflow);
                },
            }
            proof {
                assert(approve_step(0, 0, svc.price, periods).unwrap().1 == new_reserved);
            }
        }
        // ---- no error past this point ----
        let sub_id = self.subs.len() as u64;
        let sub = if grant_trial {
            Subscription {
                sub_id,
                subscriber: subscriber.clone(),
                service_id,
                price: svc.price,
                period_secs: svc.period_secs,
                trial_period_secs: svc.trial_period_secs,
                trial_end_ts: end,
                auto_renew,
                service_end_ts: end,
                next_charge_ts: end,
                created_at: now,
            }
        } else {
            Subscription {
                sub_id,
                subscriber: subscriber.clone(),
                service_id,
                price: svc.price,
                period_secs: svc.period_secs,
                trial_period_secs: 0,
                trial_end_ts: 0,
                auto_renew,
                service_end_ts: end,
                next_charge_ts: end,
                created_at: now,
            }
        };
        if grant_trial {
            self.mark_trial(subscriber, service_id);
        }
        self.set_pair(subscriber, service_id, sub_id);
        let ghost m1 = self.model();
        match prior {
            Some(old_id) => {
                self.prune_sub(subscriber, service_id, old_id, ledger, allowance, calls);
            },
            None => {},
        }
        let ghost released = calls@;
        proof {
            assert(released =~= old(calls)@ + match prior {
                Some(old_id) => release_calls(*subscriber, allowance, m.reserved[old_id as int], *ledger),
                None => Seq::<TokenCall>::empty(),
            });
        }
        if approves {
            let expiration_ledger = compute_approval_expiration(ledger.max_ttl, ledger.sequence);
            calls.push(TokenCall::Approve { owner: subscriber.clone(), amount: new_allowance, expiration_ledger });
        }
        if !grant_trial {
            calls.push(TokenCall::Transfer { from: subscriber.clone(), to: svc.merchant.clone(), amount: svc.price });
        }
        proof {
            assert(calls@ =~= released + subscribe_own_calls(m, *subscriber, svc, auto_renew, *ledger, base));
            assert(calls@ =~= old(calls)@ + subscribe_calls(m, *subscriber, service_id, auto_renew, *ledger, allowance));
        }
        let ghost m2 = self.model();
        proof {
            lemma_prune_shrinks(m1, prior, subscriber@, service_id);
            assert(self.service_subs@.len() == self.service_subs.len());
        }
        let service_page = self.service_subs[service_id as usize].append(sub_id);
        let subscriber_page = index_table_append(&mut self.subscriber_subs, subscriber, sub_id);
        let out = sub.copy();
        self.subs.push(Some(sub));
        self.sub_index.push(Some(SubIndex { service_page, subscriber_page }));
        self.reserved.push(new_reserved);
        proof {
            let mf = self.model();
            assert(mf.service_subs =~= m2.service_subs.update(
                service_id as int,
                m2.subs_of_service(service_id).push(sub_id),
            ));
            assert(mf.pairs =~= m2.pairs);
            assert(mf.trials_used =~= m2.trials_used);
            assert(mf =~= subscribe_model(m, *subscriber, service_id, auto_renew, now));
            assert(self.subs@.len() == self.subs.len());
            if consistent(m) {
                lemma_subscribe_consistent(m, *subscriber, service_id, auto_renew, now, allowance);
            }
        }
        Ok(out)
    }

    /// Turn off auto-renewal of a subscription and release its allowance
    /// reservation. The subscription stays usable until its end time.
    /// `allowance` is what `subscriber` currently approves to the contract;
    /// the token calls to make are appended to `calls`.
    pub fn cancel(
        &mut self,
        subscriber: &String,
        sub_id: u64,
        ledger: &LedgerInfo,
        allowance: i128,
        calls: &mut Vec<TokenCall>,
    ) -> (r: Result<(), ContractError>)
        requires
            old(self).wf(),
        ensures
            consistent(old(self).model()) ==> consistent(final(self).model()),
            keeps_trials(old(self).model(), final(self).model()),
            final(self).wf(),
            ({
                let m = old(self).model();
                match m.sub(sub_id) {
                    None => r == Err::<(), ContractError>(ContractError::SubscriptionNotFound)
                        && final(self).model() == m && final(calls)@ == old(calls)@,
                    Some(sub) => if sub.subscriber@ != subscriber@ {
                        r == Err::<(), ContractError>(ContractError::Unauthorized) && final(self).model()
                            == m && final(calls)@ == old(calls)@
                    } else if !sub.auto_renew {
                        r == Err::<(), ContractError>(ContractError::AlreadyCancelled) && final(
                            self).model() == m && final(calls)@ == old(calls)@
                    } else {
                        &&& r == Ok::<(), ContractError>(())
                        &&& final(self).model() =~= (ContractModel {
                            subs: m.subs.update(sub_id as int, Some(Subscription { auto_renew: false, ..sub })),
                            reserved: m.reserved.update(sub_id as int, 0),
                            ..m
                        })
                        &&& final(calls)@ == old(calls)@ + release_calls(
                            *subscriber,
                            allowance,
                            m.reserved[sub_id as int],
                            *ledger,
                        )
                    },
                }
            }),
    {
        let mut sub = match self.sub_at(sub_id) {
            Some(s) => s,
            None => {
                return Err(ContractError::SubscriptionNotFound);
            },
        };
        if sub.subscriber != *subscriber {
            return Err(ContractError::Unauthorized);
        }
        if !sub.auto_renew {
            return Err(ContractError::AlreadyCancelled);
        }
        sub.auto_renew = false;
        self.store_sub(sub);
        self.release_reservation(subscriber, sub_id, ledger, allowance, calls);
        Ok(())
    }

    /// Flip auto-renewal. Turning it off releases the subscription's
    /// reservation; turning it on (refused once the subscription has ended)
    /// approves the service's number of periods again. Returns the new setting.
    pub fn toggle_auto_renew(
        &mut self,
        subscriber: &String,
        sub_id: u64,
        ledger: &LedgerInfo,
        allowance: i128,
        calls: &mut Vec<TokenCall>,
    ) -> (r: Result<bool, ContractError>)
        requires
            old(self).wf(),
        ensures
            consistent(old(self).model()) ==> consistent(final(self).model()),
            keeps_trials(old(self).model(), final(self).model()),
            final(self).wf(),
            ({
                let m = old(self).model();
                match m.sub(sub_id) {
                    None => r == Err::<bool, ContractError>(ContractError::SubscriptionNotFound)
                        && final(self).model() == m && final(calls)@ == old(calls)@,
                    Some(sub) => if sub.subscriber@ != subscriber@ {
                        r == Err::<bool, ContractError>(ContractError::Unauthorized) && final(
                            self).model() == m && final(calls)@ == old(calls)@
                    } else if !sub.auto_renew && ledger.timestamp >= sub.service_end_ts {
                        r == Err::<bool, ContractError>(ContractError::SubscriptionExpired) && final(
                            self).model() == m && final(calls)@ == old(calls)@
                    } else if sub.auto_renew {
                        &&& r == Ok::<bool, ContractError>(false)
                        &&& final(self).model() =~= (ContractModel {
                            subs: m.subs.update(sub_id as int, Some(Subscription { auto_renew: false, ..sub })),
                            reserved: m.reserved.update(sub_id as int, 0),
                            ..m
                        })
                        &&& final(calls)@ == old(calls)@ + release_calls(
                            *subscriber,
                            allowance,
                            m.reserved[sub_id as int],
                            *ledger,
                        )
                    } else {
                        match m.service(sub.service_id) {
                            None => r == Err::<bool, ContractError>(ContractError::ServiceNotFound)
                                && final(self).model() == m && final(calls)@ == old(calls)@,
                            Some(svc) => match approve_step(
                                allowance,
                                m.reserved[sub_id as int],
                                svc.price,
                                svc.approve_periods,
                            ) {
                                None => r == Err::<bool, ContractError>(ContractError::TimestampOverflow)
                                    && final(self).model() == m && final(calls)@ == old(calls)@,
                                Some((a, res)) => {
                                    &&& r == Ok::<bool, ContractError>(true)
                                    &&& final(self).model() =~= (ContractModel {
                                        subs: m.subs.update(
                                            sub_id as int,
                                            Some(Subscription { auto_renew: true, ..sub }),
                                        ),
                                        reserved: m.reserved.update(sub_id as int, res),
                                        ..m
                                    })
                                    &&& final(calls)@ == old(calls)@.push(approve_call(*subscriber, a, *ledger))
                                },
                            },
                        }
                    },
                }
            }),
    {
        let mut sub = match self.sub_at(sub_id) {
            Some(s) => s,
            None => {
                return Err(ContractError::SubscriptionNotFound);
            },
        };
        if sub.subscriber != *subscriber {
            return Err(ContractError::Unauthorized);
        }
        if !sub.auto_renew && ledger.timestamp >= sub.service_end_ts {
            return Err(ContractError::SubscriptionExpired);
        }
        if sub.auto_renew {
            sub.auto_renew = false;
            self.store_sub(sub);
            self.release_reservation(subscriber, sub_id, ledger, allowance, calls);
            Ok(false)
        } else {
            if sub.service_id >= self.services.len() as u64 {
                return Err(ContractError::ServiceNotFound);
            }
            let price = self.services[sub.service_id as usize].price;
            let periods = self.services[sub.service_id as usize].approve_periods;
            match self.approve_for(subscriber, sub_id, price, periods, ledger, allowance, calls) {
                Ok(_) => {},
                Err(e) => {
                    return Err(e);
                },
            }
            sub.auto_renew = true;
            self.store_sub(sub);
            Ok(true)
        }
    }

    /// Refresh the approval of a live subscription for the service's number
    /// of periods and turn auto-renewal on. Returns the updated subscription.
    pub fn extend_subscription(
        &mut self,
        subscriber: &String,
        sub_id: u64,
        ledger: &LedgerInfo,
        allowance: i128,
        calls: &mut Vec<TokenCall>,
    ) -> (r: Result<Subscription, ContractError>)
        requires
            old(self).wf(),
        ensures
            consistent(old(self).model()) ==> consistent(final(self).model()),
            keeps_trials(old(self).model(), final(self).model()),
            final(self).wf(),
            ({
                let m = old(self).model();
                match m.sub(sub_id) {
                    None => r == Err::<Subscription, ContractError>(ContractError::SubscriptionNotFound)
                        && final(self).model() == m && final(calls)@ == old(calls)@,
                    Some(sub) => if sub.subscriber@ != subscriber@ {
                        r == Err::<Subscription, ContractError>(ContractError::Unauthorized) && final(
                            self).model() == m && final(calls)@ == old(calls)@
                    } else if ledger.timestamp >= sub.service_end_ts {
                        r == Err::<Subscription, ContractError>(ContractError::SubscriptionExpired)
                            && final(self).model() == m && final(calls)@ == old(calls)@
                    } else {
                        match m.service(sub.service_id) {
                            None => r == Err::<Subscription, ContractError>(ContractError::ServiceNotFound)
                                && final(self).model() == m && final(calls)@ == old(calls)@,
                            Some(svc) => match approve_step(
                                allowance,
                                m.reserved[sub_id as int],
                                svc.price,
                                svc.approve_periods,
                            ) {
                                None => r == Err::<Subscription, ContractError>(
                                    ContractError::TimestampOverflow,
                                ) && final(self).model() == m && final(calls)@ == old(calls)@,
                                Some((a, res)) => {
                                    let new_sub = Subscription { auto_renew: true, ..sub };
                                    &&& r == Ok::<Subscription, ContractError>(new_sub)
                                    &&& final(self).model() =~= (ContractModel {
                                        subs: m.subs.update(sub_id as int, Some(new_sub)),
                                        reserved: m.reserved.update(sub_id as int, res),
                                        ..m
                                    })
                                    &&& final(calls)@ == old(calls)@.push(approve_call(*subscriber, a, *ledger))
                                },
                            },
                        }
                    },
                }
            }),
    {
        let mut sub = match self.sub_at(sub_id) {
            Some(s) => s,
            None => {
                return Err(ContractError::SubscriptionNotFound);
            },
        };
        if sub.subscriber != *subscriber {
            return Err(ContractError::Unauthorized);
        }
        if ledger.timestamp >= sub.service_end_ts {
            return Err(ContractError::SubscriptionExpired);
        }
        if sub.service_id >= self.services.len() as u64 {
            return Err(ContractError::ServiceNotFound);
        }
        let price = self.services[sub.service_id as usize].price;
        let periods = self.services[sub.service_id as usize].approve_periods;
        match self.approve_for(subscriber, sub_id, price, periods, ledger, allowance, calls) {
            Ok(_) => {},
            Err(e) => {
                return Err(e);
            },
        }
        sub.auto_renew = true;
        let out = sub.copy();
        self.store_sub(sub);
        Ok(out)
    }


    // ---- Billing ----------------------------------------------------------

    /// The charges a `process` call with these arguments attempts, in order,
    /// as (subscription id, payer, amount, whether the charge ends a trial);
    /// the merchant is the payee.
    pub fn due_charges(&self, merchant: &String, service_id: u64, offset: u32, limit: u32, now: u64) -> (r:
        Result<Vec<(u64, String, i128, bool)>, ContractError>)
        requires
            self.wf(),
        ensures
            self.model().service(service_id) is None ==> r == Err::<Vec<(u64, String, i128, bool)>, ContractError>(
                ContractError::ServiceNotFound,
            ),
            self.model().service(service_id) matches Some(svc) && svc.merchant@ != merchant@ ==> r
                == Err::<Vec<(u64, String, i128, bool)>, ContractError>(ContractError::NotServiceOwner),
            self.model().service(service_id) is Some && self.model().service(service_id).unwrap().merchant@
                == merchant@ ==> r is Ok && ({
                let due = due_ids(self.model(), batch_window(self.model(), service_id, offset, limit), now);
                &&& r.unwrap()@.len() == due.len()
                &&& forall|j: int|
                    0 <= j < due.len() ==> {
                        let c = #[trigger] r.unwrap()@[j];
                        let sub = self.model().sub(due[j]).unwrap();
                        c.0 == due[j] && c.1 == sub.subscriber && c.2 == sub.price && c.3 == charge_ends_trial(sub)
                    }
            }),
    {
        if service_id >= self.services.len() as u64 {
            return Err(ContractError::ServiceNotFound);
        }
        let s = service_id as usize;
        if self.services[s].merchant != *merchant {
            return Err(ContractError::NotServiceOwner);
        }
        let ghost m = self.model();
        let count = self.service_subs[s].len();
        let total: u32 = if count > 0xffff_ffffu64 { u32::MAX } else { count as u32 };
        let start: u32 = if offset < total { offset } else { total };
        let sum: u32 = start.saturating_add(limit);
        let end: u32 = if sum < total { sum } else { total };
        let ghost ids = m.subs_of_service(service_id);
        let ghost window = batch_window(m, service_id, offset, limit);
        let mut out: Vec<(u64, String, i128, bool)> = Vec::new();
        let mut k: u32 = start;
        while k < end
            invariant
                self.inv(),
                self.model() == m,
                s == service_id,
                s < self.services@.len(),
                ids == self.service_subs@[s as int]@,
                start as int == batch_start(m, service_id, offset),
                end as int == batch_end(m, service_id, offset, limit),
                window == ids.subrange(start as int, end as int),
                start <= k <= end,
                end <= ids.len(),
                out@.len() == due_ids(m, window.subrange(0, k - start), now).len(),
                forall|j: int|
                    0 <= j < out@.len() ==> {
                        let due = due_ids(m, window.subrange(0, k - start), now);
                        let c = #[trigger] out@[j];
                        let sub = m.sub(due[j]).unwrap();
                        c.0 == due[j] && c.1 == sub.subscriber && c.2 == sub.price && c.3 == charge_ends_trial(sub)
                    },
            decreases end - k,
        {
            let sid = self.service_subs[s].get(k as u64);
            let ghost before = window.subrange(0, k - start);
            proof {
                assert(window.subrange(0, k + 1 - start).drop_last() =~= before);
                assert(window.subrange(0, k + 1 - start).last() == sid);
            }
            match self.sub_at(sid) {
                Some(sub) => {
                    if sub.auto_renew && now >= sub.next_charge_ts {
                        out.push((sid, sub.subscriber.clone(), sub.price, sub.trial_period_secs > 0 && sub.next_charge_ts == sub.trial_end_ts));
                    }
                },
                None => {},
            }
            k = k + 1;
        }
        proof {
            assert(window.subrange(0, end - start) =~= window);
        }
        Ok(out)
    }

    /// Charge the due subscriptions among index positions
    /// `[offset, offset + limit)` of a service (clamped to its size), for the
    /// service's merchant. `outcomes[j]` is whether the `j`-th attempted
    /// transfer (see `due_charges`) succeeded; a missing outcome counts as
    /// failed. Returns the outcome counts and the size of the index (capped
    /// to `u32`).
    pub fn process(
        &mut self,
        merchant: &String,
        service_id: u64,
        offset: u32,
        limit: u32,
        now: u64,
        outcomes: &Vec<bool>,
    ) -> (r: Result<ProcessResult, ContractError>)
        requires
            old(self).wf(),
        ensures
            consistent(old(self).model()) ==> consistent(final(self).model()),
            keeps_trials(old(self).model(), final(self).model()),
            final(self).wf(),
            ({
                let m = old(self).model();
                match m.service(service_id) {
                    None => r == Err::<ProcessResult, ContractError>(ContractError::ServiceNotFound)
                        && final(self).model() == m,
                    Some(svc) => if svc.merchant@ != merchant@ {
                        r == Err::<ProcessResult, ContractError>(ContractError::NotServiceOwner)
                            && final(self).model() == m
                    } else {
                        let b = batch_outcome(m, service_id, offset, limit, now, outcomes@);
                        &&& r == Ok::<ProcessResult, ContractError>(
                            ProcessResult {
                                charged: b.charged as u32,
                                failed: b.failed as u32,
                                skipped: b.skipped as u32,
                                total: batch_total(m, service_id) as u32,
                            },
                        )
                        &&& b.charged + b.failed + b.skipped == batch_end(m, service_id, offset, limit)
                            - batch_start(m, service_id, offset)
                        &&& final(self).model() =~= (ContractModel { subs: b.subs, reserved: b.reserved, ..m })
                    },
                }
            }),
    {
        if service_id >= self.services.len() as u64 {
            return Err(ContractError::ServiceNotFound);
        }
        let s = service_id as usize;
        if self.services[s].merchant != *merchant {
            return Err(ContractError::NotServiceOwner);
        }
        let ghost m = self.model();
        let count = self.service_subs[s].len();
        let total: u32 = if count > 0xffff_ffffu64 { u32::MAX } else { count as u32 };
        let start: u32 = if offset < total { offset } else { total };
        let sum: u32 = start.saturating_add(limit);
        let end: u32 = if sum < total { sum } else { total };
        let ghost ids = m.subs_of_service(service_id);
        let ghost window = batch_window(m, service_id, offset, limit);
        let ghost init = BatchState {
            subs: m.subs,
            reserved: m.reserved,
            charged: 0,
            failed: 0,
            skipped: 0,
            attempts: 0,
        };
        let mut charged: u32 = 0;
        let mut failed: u32 = 0;
        let mut skipped: u32 = 0;
        let mut attempts: usize = 0;
        let mut k: u32 = start;
        proof {
            assert(window.subrange(0, 0) =~= Seq::<u64>::empty());
        }
        while k < end
            invariant
                self.inv(),
                s == service_id,
                s < self.services@.len(),
                self.services@ == m.services,
                self.service_subs@[s as int]@ == ids,
                ids == m.subs_of_service(service_id),
                start as int == batch_start(m, service_id, offset),
                end as int == batch_end(m, service_id, offset, limit),
                window == ids.subrange(start as int, end as int),
                start <= k <= end,
                end <= ids.len(),
                ({
                    let st = charge_all(init, window.subrange(0, k - start), now, outcomes@);
                    &&& self.model() =~= (ContractModel { subs: st.subs, reserved: st.reserved, ..m })
                    &&& charged == st.charged
                    &&& failed == st.failed
                    &&& skipped == st.skipped
                    &&& attempts == st.attempts
                    &&& st.charged + st.failed + st.skipped == k - start
                    &&& st.attempts == st.charged + st.failed
                }),
            decreases end - k,
        {
            let sid = self.service_subs[s].get(k as u64);
            let ghost before = window.subrange(0, k - start);
            let ghost st = charge_all(init, before, now, outcomes@);
            let ghost m_before = self.model();
            proof {
                assert(window.subrange(0, k + 1 - start).drop_last() =~= before);
                assert(window.subrange(0, k + 1 - start).last() == sid);
            }
            match self.sub_at(sid) {
                None => {
                    skipped = skipped + 1;
                },
                Some(mut sub) => {
                    if !sub.auto_renew || now < sub.next_charge_ts {
                        skipped = skipped + 1;
                    } else {
                        let paid = attempts < outcomes.len() && outcomes[attempts];
                        attempts = attempts + 1;
                        let next = if paid { sub.next_charge_ts.checked_add(sub.period_secs) } else { None };
                        match next {
                            Some(n) => {
                                sub.next_charge_ts = n;
                                sub.service_end_ts = n;
                                let price = sub.price;
                                self.store_sub(sub);
                                proof {
                                    assert(self.reserved@.len() == self.reserved.len());
                                }
                                let cur = self.reserved[sid as usize];
                                let left = cur - price;
                                let ghost m3 = self.model();
                                self.reserved.set(sid as usize, if left > 0 { left } else { 0 });
                                proof {
                                    let m4 = self.model();
                                    assert(m4.service_subs =~= m3.service_subs);
                                    assert(m4.pairs =~= m3.pairs);
                                    assert(m4.trials_used =~= m3.trials_used);
                                }
                                charged = charged + 1;
                            },
                            None => {
                                sub.auto_renew = false;
                                self.store_sub(sub);
                                failed = failed + 1;
                            },
                        }
                    }
                },
            }
            proof {
                assert(self.model() =~= (ContractModel {
                    subs: charge_step(st, sid, now, outcomes@).subs,
                    reserved: charge_step(st, sid, now, outcomes@).reserved,
                    ..m
                }));
            }
            k = k + 1;
        }
        proof {
            assert(window.subrange(0, end - start) =~= window);
            if consistent(m) {
                lemma_charge_all_identities(init, window, now, outcomes@);
                let b = charge_all(init, window, now, outcomes@);
                lemma_identity_preserving(m, b.subs, b.reserved);
            }
        }
        Ok(ProcessResult { charged, failed, skipped, total })
    }

    // ---- Queries ----------------------------------------------------------

    /// The subscription id `subscriber` holds on `service_id`, if any.
    fn pair_of(&self, subscriber: &String, service_id: u64) -> (r: Option<u64>)
        requires
            self.inv(),
        ensures
            r == self.model().pair(subscriber@, service_id),
    {
        if service_id >= self.service_pairs.len() as u64 {
            return None;
        }
        let t = &self.service_pairs[service_id as usize];
        match t.find(subscriber) {
            Some(i) => Some(*t.at(i)),
            None => None,
        }
    }

    /// The subscription with this id, if it exists.
    fn sub_at(&self, sub_id: u64) -> (r: Option<Subscription>)
        requires
            self.inv(),
        ensures
            r == self.model().sub(sub_id),
    {
        if sub_id >= self.subs.len() as u64 {
            return None;
        }
        match &self.subs[sub_id as usize] {
            Some(s) => Some(s.copy()),
            None => None,
        }
    }

    /// Whether `subscriber`'s current subscription to `service_id` still
    /// grants access at time `now`.
    pub fn is_subscription_active(&self, subscriber: &String, service_id: u64, now: u64) -> (r: bool)
        requires
            self.wf(),
        ensures
            r == (match self.model().current_sub(subscriber@, service_id) {
                Some(sub) => now < sub.service_end_ts,
                None => false,
            }),
    {
        let sub_id = match self.pair_of(subscriber, service_id) {
            Some(id) => id,
            None => {
                return false;
            },
        };
        match self.sub_at(sub_id) {
            Some(sub) => now < sub.service_end_ts,
            None => false,
        }
    }

    /// A subscription, readable by its subscriber or by the merchant of its service.
    pub fn get_subscription(&self, caller: &String, sub_id: u64) -> (r: Result<Subscription, ContractError>)
        requires
            self.wf(),
        ensures
            r == (match self.model().sub(sub_id) {
                None => Err::<Subscription, ContractError>(ContractError::SubscriptionNotFound),
                Some(sub) => if caller@ == sub.subscriber@ {
                    Ok::<Subscription, ContractError>(sub)
                } else {
                    match self.model().service(sub.service_id) {
                        None => Err::<Subscription, ContractError>(ContractError::ServiceNotFound),
                        Some(svc) => if caller@ == svc.merchant@ {
                            Ok::<Subscription, ContractError>(sub)
                        } else {
                            Err::<Subscription, ContractError>(ContractError::Unauthorized)
                        },
                    }
                },
            }),
    {
        let sub = match self.sub_at(sub_id) {
            Some(s) => s,
            None => {
                return Err(ContractError::SubscriptionNotFound);
            },
        };
        if *caller != sub.subscriber {
            if sub.service_id >= self.services.len() as u64 {
                return Err(ContractError::ServiceNotFound);
            }
            if *caller != self.services[sub.service_id as usize].merchant {
                return Err(ContractError::Unauthorized);
            }
        }
        Ok(sub)
    }

    /// The existing subscriptions among `ids`, in order.
    fn collect_subs(&self, ids: &Vec<u64>) -> (out: Vec<Subscription>)
        requires
            self.inv(),
        ensures
            out@ == existing_subs(self.model(), ids@),
    {
        let mut out: Vec<Subscription> = Vec::new();
        let n = ids.len();
        let mut k: usize = 0;
        while k < n
            invariant
                self.inv(),
                n == ids@.len(),
                k <= n,
                out@ == existing_subs(self.model(), ids@.subrange(0, k as int)),
            decreases n - k,
        {
            let sid = ids[k];
            proof {
                assert(ids@.subrange(0, k + 1).drop_last() =~= ids@.subrange(0, k as int));
            }
            match self.sub_at(sid) {
                Some(sub) => out.push(sub),
                None => {},
            }
            k = k + 1;
        }
        proof {
            assert(ids@.subrange(0, n as int) =~= ids@);
        }
        out
    }

    /// All of `subscriber`'s indexed subscriptions, in index order.
    pub fn get_subscriber_subs(&self, subscriber: &String) -> (r: Vec<Subscription>)
        requires
            self.wf(),
        ensures
            r@ == existing_subs(self.model(), self.model().subs_of(subscriber@)),
    {
        let ids = index_table_read(&self.subscriber_subs, subscriber);
        self.collect_subs(&ids)
    }

    /// All indexed subscriptions of a service, for its merchant.
    pub fn get_merchant_subs(&self, merchant: &String, service_id: u64) -> (r: Result<
        Vec<Subscription>,
        ContractError,
    >)
        requires
            self.wf(),
        ensures
            self.model().service(service_id) is None ==> r == Err::<Vec<Subscription>, ContractError>(
                ContractError::ServiceNotFound,
            ),
            self.model().service(service_id) matches Some(svc) && svc.merchant@ != merchant@ ==> r
                == Err::<Vec<Subscription>, ContractError>(ContractError::NotServiceOwner),
            self.model().service(service_id) is Some && self.model().service(service_id).unwrap().merchant@
                == merchant@ ==> r is Ok && r.unwrap()@ == existing_subs(
                self.model(),
                self.model().subs_of_service(service_id),
            ),
    {
        if service_id >= self.services.len() as u64 {
            return Err(ContractError::ServiceNotFound);
        }
        if self.services[service_id as usize].merchant != *merchant {
            return Err(ContractError::NotServiceOwner);
        }
        let ids = self.service_subs[service_id as usize].read_all();
        Ok(self.collect_subs(&ids))
    }


    // ---- Persistence ------------------------------------------------------

    /// The whole storage as plain data.
    pub fn to_snapshot(&self) -> (r: ContractSnapshot)
        requires
            self.wf(),
        ensures
            snapshot_valid(r),
            snapshot_model(r) =~= self.model(),
    {
        let ns = self.services.len();
        let mut services: Vec<Service> = Vec::new();
        let mut service_subs: Vec<Vec<u64>> = Vec::new();
        let mut service_pairs: Vec<Vec<(String, u64)>> = Vec::new();
        let mut service_trials: Vec<Vec<String>> = Vec::new();
        let mut i: usize = 0;
        while i < ns
            invariant
                self.inv(),
                ns == self.services@.len(),
                i <= ns,
                services@ == self.services@.subrange(0, i as int),
                service_subs@.len() == i,
                service_pairs@.len() == i,
                service_trials@.len() == i,
                forall|j: int| 0 <= j < i ==> (#[trigger] service_subs@[j])@ == self.service_subs@[j]@,
                forall|j: int|
                    0 <= j < i ==> pair_keys((#[trigger] service_pairs@[j])@) == self.service_pairs@[j].key_seq()
                        && pair_vals(service_pairs@[j]@) == self.service_pairs@[j].val_seq(),
                forall|j: int| 0 <= j < i ==> name_keys((#[trigger] service_trials@[j])@) == self.service_trials@[j].key_seq(),
            decreases ns - i,
        {
            services.push(self.services[i].copy());
            service_subs.push(self.service_subs[i].read_all());
            service_pairs.push(pair_table_entries(&self.service_pairs[i]));
            service_trials.push(table_names(&self.service_trials[i]));
            i = i + 1;
            proof {
                assert(services@ =~= self.services@.subrange(0, i as int));
            }
        }
        let nb = self.subs.len();
        let mut subs: Vec<Option<Subscription>> = Vec::new();
        let mut sub_index: Vec<Option<SubIndex>> = Vec::new();
        let mut reserved: Vec<i128> = Vec::new();
        let mut k: usize = 0;
        while k < nb
            invariant
                self.inv(),
                nb == self.subs@.len(),
                k <= nb,
                subs@ == self.subs@.subrange(0, k as int),
                sub_index@ == self.sub_index@.subrange(0, k as int),
                reserved@ == self.reserved@.subrange(0, k as int),
            decreases nb - k,
        {
            let sub = match &self.subs[k] {
                Some(x) => Some(x.copy()),
                None => None,
            };
            subs.push(sub);
            sub_index.push(self.sub_index[k]);
            reserved.push(self.reserved[k]);
            k = k + 1;
            proof {
                assert(subs@ =~= self.subs@.subrange(0, k as int));
                assert(sub_index@ =~= self.sub_index@.subrange(0, k as int));
                assert(reserved@ =~= self.reserved@.subrange(0, k as int));
            }
        }
        let r = ContractSnapshot {
            admin: self.admin.clone(),
            pending_admin: match &self.pending_admin {
                Some(a) => Some(a.clone()),
                None => None,
            },
            pending_upgrade: self.pending_upgrade,
            token: self.token.clone(),
            services,
            service_subs,
            service_pairs,
            service_trials,
            subs,
            sub_index,
            reserved,
            merchant_services: index_table_entries(&self.merchant_services),
            subscriber_subs: index_table_entries(&self.subscriber_subs),
        };
        proof {
            assert(r.services@ =~= self.services@);
            assert(r.subs@ =~= self.subs@);
            assert(r.sub_index@ =~= self.sub_index@);
            assert(r.reserved@ =~= self.reserved@);
            assert forall|j: int| 0 <= j < ns implies (#[trigger] r.service_subs@[j])@.len() <= MAX_INDEX_ITEMS by {
                self.service_subs@[j].lemma_page_count();
            }
            assert forall|j: int| 0 <= j < ns implies pair_keys((#[trigger] r.service_pairs@[j])@).no_duplicates() by {
                self.service_pairs@[j].lemma_assoc();
            }
            assert forall|j: int| 0 <= j < ns implies name_keys((#[trigger] r.service_trials@[j])@).no_duplicates() by {
                self.service_trials@[j].lemma_assoc();
            }
            let m = self.model();
            let sm = snapshot_model(r);
            assert(sm.service_subs =~= m.service_subs);
            assert forall|key: (Seq<char>, u64)| #[trigger] sm.pairs.contains_key(key) == m.pairs.contains_key(key) by {
                if key.1 < ns {
                    self.service_pairs@[key.1 as int].lemma_assoc();
                }
            }
            assert forall|key: (Seq<char>, u64)| sm.pairs.contains_key(key) implies #[trigger] sm.pairs[key] == m.pairs[key] by {
                self.service_pairs@[key.1 as int].lemma_assoc();
            }
            assert(sm.pairs =~= m.pairs);
            assert forall|key: (Seq<char>, u64)| #[trigger] sm.trials_used.contains(key) == m.trials_used.contains(key) by {
                if key.1 < ns {
                    self.service_trials@[key.1 as int].lemma_assoc();
                }
            }
            assert(sm.trials_used =~= m.trials_used);
        }
        r
    }

    /// Whether the storage has the shape `shape_ok` asks for.
    fn check_shape(&self) -> (r: bool)
        requires
            self.inv(),
        ensures
            r == shape_ok(self.model()),
    {
        let ghost m = self.model();
        let n = self.services.len();
        let mut i: usize = 0;
        while i < n
            invariant
                self.inv(),
                m == self.model(),
                n == m.services.len(),
                i <= n,
                forall|j: int| 0 <= j < i ==> #[trigger] m.services[j].period_secs > 0 && m.services[j].approve_periods > 0,
            decreases n - i,
        {
            if self.services[i].period_secs == 0 || self.services[i].approve_periods == 0 {
                proof {
                    assert(self.services@[i as int] == m.services[i as int]);
                    assert(!(m.services[i as int].price > 0 && m.services[i as int].period_secs > 0
                        && m.services[i as int].approve_periods > 0));
                    if shape_ok(m) {
                        let ii = i as int;
                        assert(0 <= ii < m.services.len());
                        assert(m.services[ii].price > 0 && m.services[ii].period_secs > 0
                            && m.services[ii].approve_periods > 0);
                    }
                }
                return false;
            }
            i = i + 1;
        }
        proof {
            assert(self.subs@.len() == self.subs.len());
        }
        true
    }

    /// Whether every service index lists distinct live subscriptions of its
    /// service, each at the page its reverse pointer names.
    fn check_service_indexes(&self) -> (r: bool)
        requires
            self.inv(),
        ensures
            r == (service_entries_ok(self.model()) && forall|t: int|
                0 <= t < self.model().service_subs.len() ==> (#[trigger] self.model().service_subs[t]).no_duplicates()),
    {
        let ghost m = self.model();
        let n = self.subs.len();
        proof {
            assert(self.subs@.len() == n);
            assert(self.sub_index@.len() == self.sub_index.len());
        }
        let mut seen: Vec<bool> = Vec::new();
        let mut i: usize = 0;
        while i < n
            invariant
                i <= n,
                seen@.len() == i,
                forall|j: int| 0 <= j < i ==> !(#[trigger] seen@[j]),
            decreases n - i,
        {
            seen.push(false);
            i = i + 1;
        }
        let ns = self.service_subs.len();
        let mut s: usize = 0;
        while s < ns
            invariant
                self.inv(),
                m == self.model(),
                ns == m.service_subs.len(),
                n == m.subs.len(),
                s <= ns,
                seen@.len() == n,
                forall|j: int| 0 <= j < n ==> !(#[trigger] seen@[j]),
                forall|t: int, k: int| 0 <= t < s && 0 <= k < m.service_subs[t].len() ==> #[trigger] service_entry_ok(m, t, k),
                forall|t: int| 0 <= t < s ==> (#[trigger] m.service_subs[t]).no_duplicates(),
            decreases ns - s,
        {
            let ids = self.service_subs[s].read_all();
            let len = ids.len();
            let ghost sq = m.service_subs[s as int];
            assert(ids@ == sq);
            let mut k: usize = 0;
            while k < len
                invariant
                    self.inv(),
                    m == self.model(),
                    n == m.subs.len(),
                    s < ns,
                    ns == m.service_subs.len(),
                    ids@ == sq,
                    sq == m.service_subs[s as int],
                    len == sq.len(),
                    k <= len,
                    seen@.len() == n,
                    forall|x: int| 0 <= x < n ==> (#[trigger] seen@[x] <==> exists|j: int| 0 <= j < k && sq[j] == x),
                    forall|kk: int| 0 <= kk < k ==> #[trigger] service_entry_ok(m, s as int, kk),
                    forall|a: int, b: int| 0 <= a < b < k ==> #[trigger] sq[a] != #[trigger] sq[b],
                decreases len - k,
            {
                let x = ids[k];
                proof {
                    assert(sq[k as int] == x);
                }
                if x >= n as u64 {
                    proof {
                        assert(!service_entry_ok(m, s as int, k as int));
                    }
                    return false;
                }
                let xi = x as usize;
                match &self.subs[xi] {
                    None => {
                        proof {
                            assert(!service_entry_ok(m, s as int, k as int));
                        }
                        return false;
                    },
                    Some(sub) => {
                        if sub.service_id != s as u64 {
                            proof {
                                assert(!service_entry_ok(m, s as int, k as int));
                            }
                            return false;
                        }
                    },
                }
                match self.sub_index[xi] {
                    None => {
                        proof {
                            assert(!service_entry_ok(m, s as int, k as int));
                        }
                        return false;
                    },
                    Some(ix) => {
                        if ix.service_page as u64 != (k as u64) / 50 {
                            proof {
                                assert(!service_entry_ok(m, s as int, k as int));
                            }
                            return false;
                        }
                    },
                }
                if seen[xi] {
                    proof {
                        let j = choose|j: int| 0 <= j < k && sq[j] == x;
                        assert(sq[j] == sq[k as int]);
                        assert(!sq.no_duplicates());
                    }
                    return false;
                }
                seen.set(xi, true);
                proof {
                    assert forall|x2: int| 0 <= x2 < n implies (#[trigger] seen@[x2] <==> exists|j: int|
                        0 <= j < k + 1 && sq[j] == x2) by {
                        if x2 == x {
                            assert(sq[k as int] == x2);
                        }
                    }
                }
                k = k + 1;
            }
            proof {
                assert forall|kk: int| 0 <= kk < len implies #[trigger] sq[kk] < n by {
                    assert(service_entry_ok(m, s as int, kk));
                }
            }
            let mut c: usize = 0;
            while c < len
                invariant
                    ids@ == sq,
                    len == sq.len(),
                    c <= len,
                    seen@.len() == n,
                    forall|x: int| 0 <= x < n ==> (#[trigger] seen@[x] ==> exists|j: int| c <= j < len && sq[j] == x),
                    forall|kk: int| 0 <= kk < len ==> #[trigger] sq[kk] < n,
                decreases len - c,
            {
                let x = ids[c];
                seen.set(x as usize, false);
                proof {
                    assert forall|x2: int| 0 <= x2 < n && #[trigger] seen@[x2] implies exists|j: int|
                        c + 1 <= j < len && sq[j] == x2 by {
                        let j = choose|j: int| c <= j < len && sq[j] == x2;
                        assert(j != c);
                    }
                }
                c = c + 1;
            }
            proof {
                assert(sq.no_duplicates());
            }
            s = s + 1;
        }
        proof {
            assert forall|t: int, k: int| 0 <= t < m.service_subs.len() && 0 <= k < m.service_subs[t].len() implies {
                let x = #[trigger] m.service_subs[t][k];
                &&& x < m.subs.len()
                &&& m.subs[x as int] is Some
                &&& m.subs[x as int].unwrap().service_id == t
                &&& m.sub_index[x as int] is Some
                &&& m.sub_index[x as int].unwrap().service_page == page_of(k)
            } by {
                assert(service_entry_ok(m, t, k));
            }
        }
        true
    }

    /// Whether every subscriber index lists distinct live subscriptions of
    /// its subscriber, each at the page its reverse pointer names.
    fn check_subscriber_indexes(&self) -> (r: bool)
        requires
            self.inv(),
        ensures
            r == (subscriber_entries_ok(self.model()) && forall|who: Seq<char>|
                self.model().subscriber_subs.contains_key(who) ==> (#[trigger] self.model().subscriber_subs[who]).no_duplicates()),
    {
        let ghost m = self.model();
        let n = self.subs.len();
        proof {
            assert(self.subs@.len() == n);
            assert(self.sub_index@.len() == self.sub_index.len());
        }
        let mut seen: Vec<bool> = Vec::new();
        let mut i: usize = 0;
        while i < n
            invariant
                i <= n,
                seen@.len() == i,
                forall|j: int| 0 <= j < i ==> !(#[trigger] seen@[j]),
            decreases n - i,
        {
            seen.push(false);
            i = i + 1;
        }
        let t = &self.subscriber_subs;
        let nt = t.len();
        let mut e: usize = 0;
        while e < nt
            invariant
                self.inv(),
                m == self.model(),
                t == &self.subscriber_subs,
                m.subscriber_subs == table_index_view(*t),
                nt == t.size(),
                n == m.subs.len(),
                e <= nt,
                seen@.len() == n,
                forall|j: int| 0 <= j < n ==> !(#[trigger] seen@[j]),
                forall|ii: int| 0 <= ii < e ==> subscriber_index_ok(m, #[trigger] t.key_seq()[ii]),
            decreases nt - e,
        {
            proof {
                lemma_table_index_at(*t, e as int);
            }
            let key = t.key(e);
            let ix = t.at(e);
            let ids = ix.read_all();
            let len = ids.len();
            let ghost w = key@;
            let ghost sq = m.subscriber_subs[w];
            assert(ids@ == sq);
            let mut k: usize = 0;
            while k < len
                invariant
                    self.inv(),
                    m == self.model(),
                    n == m.subs.len(),
                    m.subscriber_subs.contains_key(w),
                    key@ == w,
                    ids@ == sq,
                    sq == m.subscriber_subs[w],
                    len == sq.len(),
                    k <= len,
                    seen@.len() == n,
                    forall|x: int| 0 <= x < n ==> (#[trigger] seen@[x] <==> exists|j: int| 0 <= j < k && sq[j] == x),
                    forall|kk: int| 0 <= kk < k ==> #[trigger] subscriber_entry_ok(m, w, kk),
                    forall|a: int, b: int| 0 <= a < b < k ==> #[trigger] sq[a] != #[trigger] sq[b],
                decreases len - k,
            {
                let x = ids[k];
                proof {
                    assert(sq[k as int] == x);
                }
                if x >= n as u64 {
                    proof {
                        assert(!subscriber_entry_ok(m, w, k as int));
                    }
                    return false;
                }
                let xi = x as usize;
                match &self.subs[xi] {
                    None => {
                        proof {
                            assert(!subscriber_entry_ok(m, w, k as int));
                        }
                        return false;
                    },
                    Some(sub) => {
                        if sub.subscriber != *key {
                            proof {
                                assert(!subscriber_entry_ok(m, w, k as int));
                            }
                            return false;
                        }
                    },
                }
                match self.sub_index[xi] {
                    None => {
                        proof {
                            assert(!subscriber_entry_ok(m, w, k as int));
                        }
                        return false;
                    },
                    Some(ix2) => {
                        if ix2.subscriber_page as u64 != (k as u64) / 50 {
                            proof {
                                assert(!subscriber_entry_ok(m, w, k as int));
                            }
                            return false;
                        }
                    },
                }
                if seen[xi] {
                    proof {
                        let j = choose|j: int| 0 <= j < k && sq[j] == x;
                        assert(sq[j] == sq[k as int]);
                        assert(!sq.no_duplicates());
                    }
                    return false;
                }
                seen.set(xi, true);
                proof {
                    assert forall|x2: int| 0 <= x2 < n implies (#[trigger] seen@[x2] <==> exists|j: int|
                        0 <= j < k + 1 && sq[j] == x2) by {
                        if x2 == x {
                            assert(sq[k as int] == x2);
                        }
                    }
                }
                k = k + 1;
            }
            proof {
                assert forall|kk: int| 0 <= kk < len implies #[trigger] sq[kk] < n by {
                    assert(subscriber_entry_ok(m, w, kk));
                }
            }
            let mut c: usize = 0;
            while c < len
                invariant
                    ids@ == sq,
                    len == sq.len(),
                    c <= len,
                    seen@.len() == n,
                    forall|x: int| 0 <= x < n ==> (#[trigger] seen@[x] ==> exists|j: int| c <= j < len && sq[j] == x),
                    forall|kk: int| 0 <= kk < len ==> #[trigger] sq[kk] < n,
                decreases len - c,
            {
                let x = ids[c];
                seen.set(x as usize, false);
                proof {
                    assert forall|x2: int| 0 <= x2 < n && #[trigger] seen@[x2] implies exists|j: int|
                        c + 1 <= j < len && sq[j] == x2 by {
                        let j = choose|j: int| c <= j < len && sq[j] == x2;
                        assert(j != c);
                    }
                }
                c = c + 1;
            }
            proof {
                assert(sq.no_duplicates());
                assert(subscriber_index_ok(m, w));
                assert forall|ii: int| 0 <= ii < e + 1 implies subscriber_index_ok(m, #[trigger] t.key_seq()[ii]) by {
                    if ii == e {
                        assert(t.key_seq()[ii] == w);
                    }
                }
            }
            e = e + 1;
        }
        proof {
            assert forall|who: Seq<char>, k: int| m.subscriber_subs.contains_key(who) && 0 <= k < m.subscriber_subs[who].len() implies {
                let x = #[trigger] m.subscriber_subs[who][k];
                &&& x < m.subs.len()
                &&& m.subs[x as int] is Some
                &&& m.subs[x as int].unwrap().subscriber@ == who
                &&& m.sub_index[x as int] is Some
                &&& m.sub_index[x as int].unwrap().subscriber_page == page_of(k)
            } by {
                let ii = lemma_table_index_key(*t, who);
                assert(subscriber_index_ok(m, t.key_seq()[ii]));
                assert(subscriber_entry_ok(m, who, k));
            }
            assert forall|who: Seq<char>| m.subscriber_subs.contains_key(who) implies (#[trigger] m.subscriber_subs[who]).no_duplicates() by {
                let ii = lemma_table_index_key(*t, who);
                assert(subscriber_index_ok(m, t.key_seq()[ii]));
            }
        }
        true
    }

    /// Whether every live subscription is listed by its service and its
    /// subscriber (on the pages its reverse pointer names), and only live
    /// ones have reverse pointers.
    fn check_live(&self) -> (r: bool)
        requires
            self.inv(),
            service_entries_ok(self.model()),
            subscriber_entries_ok(self.model()),
        ensures
            r == live_subs_indexed(self.model()),
    {
        let ghost m = self.model();
        let n = self.subs.len();
        proof {
            assert(self.subs@.len() == n);
            assert(self.sub_index@.len() == self.sub_index.len());
        }
        let mut x: usize = 0;
        while x < n
            invariant
                self.inv(),
                m == self.model(),
                n == m.subs.len(),
                n == m.sub_index.len(),
                x <= n,
                service_entries_ok(m),
                subscriber_entries_ok(m),
                forall|y: int| 0 <= y < x ==> #[trigger] live_entry_ok(m, y),
            decreases n - x,
        {
            let ghost xi = x as int;
            match &self.subs[x] {
                None => {
                    if self.sub_index[x].is_some() {
                        proof {
                            assert(!live_entry_ok(m, xi));
                        }
                        return false;
                    }
                },
                Some(sub) => {
                    let idx = match self.sub_index[x] {
                        None => {
                            proof {
                                assert(!live_entry_ok(m, xi));
                            }
                            return false;
                        },
                        Some(i) => i,
                    };
                    let sid = sub.service_id;
                    if sid >= self.service_subs.len() as u64 {
                        proof {
                            assert(!live_entry_ok(m, xi));
                        }
                        return false;
                    }
                    let ix = &self.service_subs[sid as usize];
                    if !page_holds(ix, idx.service_page, x as u64) {
                        proof {
                            let sq = m.service_subs[sid as int];
                            assert(ix@ == sq);
                            if sq.contains(x as u64) {
                                let k = choose|k: int| 0 <= k < sq.len() && sq[k] == x as u64;
                                assert(m.service_subs[sid as int][k] == x as u64);
                                assert(ix@[k] == x as u64);
                            }
                            assert(!live_entry_ok(m, xi));
                        }
                        return false;
                    }
                    match self.subscriber_subs.find(&sub.subscriber) {
                        None => {
                            proof {
                                assert(m.subs_of(sub.subscriber@) == Seq::<u64>::empty());
                                assert(!live_entry_ok(m, xi));
                            }
                            return false;
                        },
                        Some(i) => {
                            let t = &self.subscriber_subs;
                            let ix2 = t.at(i);
                            proof {
                                assert(t.contains(sub.subscriber@));
                                assert(ix2.wf());
                                assert(m.subs_of(sub.subscriber@) == ix2@);
                            }
                            if !page_holds(ix2, idx.subscriber_page, x as u64) {
                                proof {
                                    let sq = m.subs_of(sub.subscriber@);
                                    if sq.contains(x as u64) {
                                        let k = choose|k: int| 0 <= k < sq.len() && sq[k] == x as u64;
                                        assert(m.subscriber_subs[sub.subscriber@][k] == x as u64);
                                        assert(ix2@[k] == x as u64);
                                    }
                                    assert(!live_entry_ok(m, xi));
                                }
                                return false;
                            }
                        },
                    }
                    proof {
                        assert(live_entry_ok(m, xi));
                    }
                },
            }
            x = x + 1;
        }
        proof {
            assert forall|y: int| 0 <= y < m.subs.len() implies {
                &&& (#[trigger] m.subs[y] is Some) == (m.sub_index[y] is Some)
                &&& m.subs[y] is Some ==> {
                    let sub = m.subs[y].unwrap();
                    &&& sub.service_id < m.service_subs.len()
                    &&& m.service_subs[sub.service_id as int].contains(y as u64)
                    &&& m.subs_of(sub.subscriber@).contains(y as u64)
                }
            } by {
                assert(live_entry_ok(m, y));
            }
        }
        true
    }

    /// Whether every (subscriber, service) pair names a live subscription of
    /// that subscriber to that service.
    fn check_pairs(&self) -> (r: bool)
        requires
            self.inv(),
        ensures
            r == pairs_ok(self.model()),
    {
        let ghost m = self.model();
        let n = self.subs.len();
        proof {
            assert(self.subs@.len() == n);
        }
        let ns = self.service_pairs.len();
        let mut s: usize = 0;
        while s < ns
            invariant
                self.inv(),
                m == self.model(),
                n == m.subs.len(),
                ns == self.service_pairs@.len(),
                s <= ns,
                forall|key: (Seq<char>, u64)|
                    #[trigger] m.pairs.contains_key(key) && key.1 < s ==> pair_entry_ok(m, key),
            decreases ns - s,
        {
            let t = &self.service_pairs[s];
            let nt = t.len();
            let mut e: usize = 0;
            while e < nt
                invariant
                    self.inv(),
                    m == self.model(),
                    n == m.subs.len(),
                    ns == self.service_pairs@.len(),
                    s < ns,
                    t == &self.service_pairs@[s as int],
                    nt == t.size(),
                    e <= nt,
                    forall|e2: int| 0 <= e2 < e ==> pair_entry_ok(m, (#[trigger] t.key_seq()[e2], s as u64)),
                decreases nt - e,
            {
                proof {
                    lemma_table_at(*t, e as int);
                }
                let w = t.key(e);
                let id = *t.at(e);
                let ghost key = (w@, s as u64);
                proof {
                    assert(m.pairs.contains_key(key));
                    assert(m.pairs[key] == id);
                }
                if id >= n as u64 {
                    proof {
                        assert(!pairs_ok(m));
                    }
                    return false;
                }
                match &self.subs[id as usize] {
                    None => {
                        proof {
                            assert(!pairs_ok(m));
                        }
                        return false;
                    },
                    Some(sub) => {
                        if sub.subscriber != *w || sub.service_id != s as u64 {
                            proof {
                                assert(!pair_entry_ok(m, key));
                                assert(!pairs_ok(m));
                            }
                            return false;
                        }
                    },
                }
                proof {
                    assert(pair_entry_ok(m, key));
                    assert forall|e2: int| 0 <= e2 < e + 1 implies pair_entry_ok(m, (#[trigger] t.key_seq()[e2], s as u64)) by {
                        if e2 == e {
                            assert(t.key_seq()[e2] == w@);
                        }
                    }
                }
                e = e + 1;
            }
            proof {
                assert forall|key: (Seq<char>, u64)|
                    #[trigger] m.pairs.contains_key(key) && key.1 < s + 1 implies pair_entry_ok(m, key) by {
                    if key.1 == s {
                        t.lemma_assoc();
                        assert(t.key_seq().contains(key.0));
                        let e2 = choose|e2: int| 0 <= e2 < t.key_seq().len() && t.key_seq()[e2] == key.0;
                        assert(pair_entry_ok(m, (t.key_seq()[e2], s as u64)));
                    }
                }
            }
            s = s + 1;
        }
        proof {
            assert forall|key: (Seq<char>, u64)| #[trigger] m.pairs.contains_key(key) implies {
                let id = m.pairs[key];
                &&& id < m.subs.len()
                &&& m.subs[id as int] is Some
                &&& m.subs[id as int].unwrap().subscriber@ == key.0
                &&& m.subs[id as int].unwrap().service_id == key.1
            } by {
                assert(pair_entry_ok(m, key));
            }
        }
        true
    }

    /// Whether every subscription carrying a trial has its trial recorded.
    fn check_trials(&self) -> (r: bool)
        requires
            self.inv(),
        ensures
            r == trials_ok(self.model()),
    {
        let ghost m = self.model();
        let n = self.subs.len();
        proof {
            assert(self.subs@.len() == n);
        }
        let mut x: usize = 0;
        while x < n
            invariant
                self.inv(),
                m == self.model(),
                n == m.subs.len(),
                x <= n,
                forall|y: int|
                    0 <= y < x && (#[trigger] m.subs[y]) is Some && m.subs[y].unwrap().trial_period_secs > 0
                        ==> m.trials_used.contains((m.subs[y].unwrap().subscriber@, m.subs[y].unwrap().service_id)),
            decreases n - x,
        {
            match &self.subs[x] {
                Some(sub) => {
                    if sub.trial_period_secs > 0 && !self.trial_used_of(&sub.subscriber, sub.service_id) {
                        proof {
                            assert(m.subs[x as int] is Some);
                        }
                        return false;
                    }
                },
                None => {},
            }
            x = x + 1;
        }
        true
    }

    /// Whether every merchant's service index lists services of that
    /// merchant.
    fn check_merchant_indexes(&self) -> (r: bool)
        requires
            self.inv(),
        ensures
            r == merchant_entries_ok(self.model()),
    {
        let ghost m = self.model();
        let ns = self.services.len();
        let t = &self.merchant_services;
        let nt = t.len();
        let mut e: usize = 0;
        while e < nt
            invariant
                self.inv(),
                m == self.model(),
                t == &self.merchant_services,
                m.merchant_services == table_index_view(*t),
                nt == t.size(),
                ns == m.services.len(),
                e <= nt,
                forall|ii: int| 0 <= ii < e ==> merchant_index_ok(m, #[trigger] t.key_seq()[ii]),
            decreases nt - e,
        {
            proof {
                lemma_table_index_at(*t, e as int);
            }
            let key = t.key(e);
            let ids = t.at(e).read_all();
            let len = ids.len();
            let ghost w = key@;
            let ghost sq = m.merchant_services[w];
            assert(ids@ == sq);
            let mut k: usize = 0;
            while k < len
                invariant
                    self.inv(),
                    m == self.model(),
                    ns == m.services.len(),
                    m.merchant_services.contains_key(w),
                    key@ == w,
                    ids@ == sq,
                    sq == m.merchant_services[w],
                    len == sq.len(),
                    k <= len,
                    forall|kk: int| 0 <= kk < k ==> #[trigger] sq[kk] < m.services.len() && m.services[sq[kk] as int].merchant@ == w,
                decreases len - k,
            {
                let id = ids[k];
                proof {
                    assert(sq[k as int] == id);
                }
                if id >= ns as u64 || self.services[id as usize].merchant != *key {
                    proof {
                        assert(m.merchant_services[w][k as int] == id);
                        assert(!merchant_entries_ok(m));
                    }
                    return false;
                }
                k = k + 1;
            }
            proof {
                assert(merchant_index_ok(m, w));
                assert forall|ii: int| 0 <= ii < e + 1 implies merchant_index_ok(m, #[trigger] t.key_seq()[ii]) by {
                    if ii == e {
                        assert(t.key_seq()[ii] == w);
                    }
                }
            }
            e = e + 1;
        }
        proof {
            assert forall|who: Seq<char>, k: int| m.merchant_services.contains_key(who) && 0 <= k < m.merchant_services[who].len() implies {
                let id = #[trigger] m.merchant_services[who][k];
                &&& id < m.services.len()
                &&& m.services[id as int].merchant@ == who
            } by {
                let ii = lemma_table_index_key(*t, who);
                assert(merchant_index_ok(m, t.key_seq()[ii]));
            }
        }
        true
    }

    /// Whether the storage is consistent.
    fn check_consistent(&self) -> (r: bool)
        requires
            self.inv(),
        ensures
            r == consistent(self.model()),
    {
        if !self.check_shape() {
            return false;
        }
        if !self.check_service_indexes() {
            return false;
        }
        if !self.check_subscriber_indexes() {
            return false;
        }
        if !self.check_live() {
            return false;
        }
        if !self.check_pairs() {
            return false;
        }
        if !self.check_trials() {
            return false;
        }
        self.check_merchant_indexes()
    }

    /// Storage rebuilt from a snapshot; `None` when the snapshot does not
    /// describe well-formed, consistent storage.
    pub fn from_snapshot(s: &ContractSnapshot) -> (r: Option<Self>)
        ensures
            r is Some <==> snapshot_valid(*s) && consistent(snapshot_model(*s)),
            r matches Some(c) ==> c.wf() && c.model() =~= snapshot_model(*s) && consistent(c.model()),
    {
        let ns = s.services.len();
        let nb = s.subs.len();
        if s.service_subs.len() != ns || s.service_pairs.len() != ns || s.service_trials.len() != ns
            || s.sub_index.len() != nb || s.reserved.len() != nb {
            return None;
        }
        let mut services: Vec<Service> = Vec::new();
        let mut service_subs: Vec<PagedIndex> = Vec::new();
        let mut service_pairs: Vec<AddrTable<u64>> = Vec::new();
        let mut service_trials: Vec<AddrTable<bool>> = Vec::new();
        let mut i: usize = 0;
        while i < ns
            invariant
                ns == s.services@.len(),
                ns == s.service_subs@.len(),
                ns == s.service_pairs@.len(),
                ns == s.service_trials@.len(),
                i <= ns,
                services@ == s.services@.subrange(0, i as int),
                service_subs@.len() == i,
                service_pairs@.len() == i,
                service_trials@.len() == i,
                forall|j: int| 0 <= j < i ==> #[trigger] s.services@[j].service_id == j,
                forall|j: int| 0 <= j < i ==> #[trigger] s.services@[j].price > 0,
                forall|j: int| 0 <= j < i ==> (#[trigger] s.service_subs@[j])@.len() <= MAX_INDEX_ITEMS,
                forall|j: int| 0 <= j < i ==> pair_keys((#[trigger] s.service_pairs@[j])@).no_duplicates(),
                forall|j: int| 0 <= j < i ==> name_keys((#[trigger] s.service_trials@[j])@).no_duplicates(),
                forall|j: int| 0 <= j < i ==> (#[trigger] service_subs@[j]).wf() && service_subs@[j]@ == s.service_subs@[j]@,
                forall|j: int|
                    0 <= j < i ==> (#[trigger] service_pairs@[j]).wf() && service_pairs@[j].key_seq() == pair_keys(
                        s.service_pairs@[j]@,
                    ) && service_pairs@[j].val_seq() == pair_vals(s.service_pairs@[j]@),
                forall|j: int|
                    0 <= j < i ==> (#[trigger] service_trials@[j]).wf() && service_trials@[j].key_seq() == name_keys(
                        s.service_trials@[j]@,
                    ),
            decreases ns - i,
        {
            let svc = &s.services[i];
            if svc.service_id != i as u64 || svc.price <= 0 {
                return None;
            }
            proof {
                assert(s.services@[i as int].service_id == i && s.services@[i as int].price > 0);
            }
            let ix = match PagedIndex::from_items(&s.service_subs[i]) {
                Some(ix) => ix,
                None => {
                    return None;
                },
            };
            let pt = match pair_table_from(&s.service_pairs[i]) {
                Some(t) => t,
                None => {
                    return None;
                },
            };
            let tt = match trial_table_from(&s.service_trials[i]) {
                Some(t) => t,
                None => {
                    return None;
                },
            };
            services.push(svc.copy());
            service_subs.push(ix);
            service_pairs.push(pt);
            service_trials.push(tt);
            i = i + 1;
            proof {
                assert(services@ =~= s.services@.subrange(0, i as int));
            }
        }
        let mut subs: Vec<Option<Subscription>> = Vec::new();
        let mut sub_index: Vec<Option<SubIndex>> = Vec::new();
        let mut reserved: Vec<i128> = Vec::new();
        let mut k: usize = 0;
        while k < nb
            invariant
                nb == s.subs@.len(),
                nb == s.sub_index@.len(),
                nb == s.reserved@.len(),
                k <= nb,
                subs@ == s.subs@.subrange(0, k as int),
                sub_index@ == s.sub_index@.subrange(0, k as int),
                reserved@ == s.reserved@.subrange(0, k as int),
                forall|j: int|
                    0 <= j < k && (#[trigger] s.subs@[j]) is Some ==> s.subs@[j].unwrap().sub_id == j
                        && s.subs@[j].unwrap().price > 0,
                forall|j: int| 0 <= j < k ==> #[trigger] s.reserved@[j] >= 0,
            decreases nb - k,
        {
            let sub = match &s.subs[k] {
                Some(x) => {
                    if x.sub_id != k as u64 || x.price <= 0 {
                        return None;
                    }
                    Some(x.copy())
                },
                None => None,
            };
            if s.reserved[k] < 0 {
                return None;
            }
            subs.push(sub);
            sub_index.push(s.sub_index[k]);
            reserved.push(s.reserved[k]);
            k = k + 1;
            proof {
                assert(subs@ =~= s.subs@.subrange(0, k as int));
                assert(sub_index@ =~= s.sub_index@.subrange(0, k as int));
                assert(reserved@ =~= s.reserved@.subrange(0, k as int));
            }
        }
        let merchant_services = match index_table_from(&s.merchant_services) {
            Some(t) => t,
            None => {
                return None;
            },
        };
        let subscriber_subs = match index_table_from(&s.subscriber_subs) {
            Some(t) => t,
            None => {
                return None;
            },
        };
        let c = SubscriptionContract {
            admin: s.admin.clone(),
            pending_admin: match &s.pending_admin {
                Some(a) => Some(a.clone()),
                None => None,
            },
            pending_upgrade: s.pending_upgrade,
            token: s.token.clone(),
            services,
            service_subs,
            service_pairs,
            service_trials,
            subs,
            sub_index,
            reserved,
            merchant_services,
            subscriber_subs,
        };
        proof {
            assert(c.services@ =~= s.services@);
            assert(c.subs@ =~= s.subs@);
            assert(forall|j: int| 0 <= j < ns ==> #[trigger] c.services@[j].service_id == j);
            assert(forall|j: int| 0 <= j < ns ==> #[trigger] c.service_subs@[j].wf());
            assert(forall|j: int| 0 <= j < ns ==> #[trigger] c.service_pairs@[j].wf());
            assert(forall|j: int| 0 <= j < ns ==> #[trigger] c.service_trials@[j].wf());
            assert(forall|j: int| 0 <= j < ns ==> #[trigger] c.services@[j].price > 0);
            assert(forall|j: int| 0 <= j < nb ==> #[trigger] c.reserved@[j] >= 0);
            assert(c.inv());
            assert(c.sub_index@ =~= s.sub_index@);
            assert(c.reserved@ =~= s.reserved@);
            let m = c.model();
            let sm = snapshot_model(*s);
            assert(sm.service_subs =~= m.service_subs);
            assert forall|key: (Seq<char>, u64)| #[trigger] sm.pairs.contains_key(key) == m.pairs.contains_key(key) by {
                if key.1 < ns {
                    c.service_pairs@[key.1 as int].lemma_assoc();
                }
            }
            assert forall|key: (Seq<char>, u64)| sm.pairs.contains_key(key) implies #[trigger] sm.pairs[key] == m.pairs[key] by {
                c.service_pairs@[key.1 as int].lemma_assoc();
            }
            assert(sm.pairs =~= m.pairs);
            assert forall|key: (Seq<char>, u64)| #[trigger] sm.trials_used.contains(key) == m.trials_used.contains(key) by {
                if key.1 < ns {
                    c.service_trials@[key.1 as int].lemma_assoc();
                }
            }
            assert(sm.trials_used =~= m.trials_used);
        }
        if !c.check_consistent() {
            return None;
        }
        Some(c)
    }

    // ---- Admin ------------------------------------------------------------

    /// Propose a new admin; the proposal replaces any earlier one. The
    /// proposed address must accept before it takes over.
    pub fn propose_admin(&mut self, new_admin: String)
        requires
            old(self).wf(),
        ensures
            consistent(old(self).model()) ==> consistent(final(self).model()),
            keeps_trials(old(self).model(), final(self).model()),
            final(self).wf(),
            final(self).model() =~= propose_admin_step(old(self).model(), new_admin@),
    {
        self.pending_admin = Some(new_admin);
    }

    /// Complete an admin rotation: only the pending admin may accept.
    pub fn accept_admin(&mut self, new_admin: &String) -> (r: Result<(), ContractError>)
        requires
            old(self).wf(),
        ensures
            consistent(old(self).model()) ==> consistent(final(self).model()),
            keeps_trials(old(self).model(), final(self).model()),
            final(self).wf(),
            r == accept_admin_step(old(self).model(), new_admin@).0,
            final(self).model() =~= accept_admin_step(old(self).model(), new_admin@).1,
    {
        match &self.pending_admin {
            None => Err(ContractError::NoAdminProposed),
            Some(p) => {
                if *new_admin != *p {
                    return Err(ContractError::NotProposedAdmin);
                }
                self.admin = new_admin.clone();
                self.pending_admin = None;
                Ok(())
            },
        }
    }

    /// Stage a code upgrade that may be applied once the timelock has passed.
    /// Refused while another proposal is pending.
    pub fn propose_upgrade(&mut self, new_wasm_hash: [u8; 32], now: u64) -> (r: Result<
        PendingUpgrade,
        ContractError,
    >)
        requires
            old(self).wf(),
        ensures
            consistent(old(self).model()) ==> consistent(final(self).model()),
            keeps_trials(old(self).model(), final(self).model()),
            final(self).wf(),
            r == propose_upgrade_step(old(self).model(), new_wasm_hash, now).0,
            final(self).model() =~= propose_upgrade_step(old(self).model(), new_wasm_hash, now).1,
    {
        if self.pending_upgrade.is_some() {
            return Err(ContractError::UpgradeAlreadyPending);
        }
        let apply_after_ts = match now.checked_add(UPGRADE_TIMELOCK_SECS) {
            Some(t) => t,
            None => {
                return Err(ContractError::TimestampOverflow);
            },
        };
        let pending = PendingUpgrade { wasm_hash: new_wasm_hash, apply_after_ts };
        self.pending_upgrade = Some(pending);
        Ok(pending)
    }

    /// Apply the staged upgrade once its timelock has elapsed; returns the
    /// code hash to install.
    pub fn apply_upgrade(&mut self, now: u64) -> (r: Result<[u8; 32], ContractError>)
        requires
            old(self).wf(),
        ensures
            consistent(old(self).model()) ==> consistent(final(self).model()),
            keeps_trials(old(self).model(), final(self).model()),
            final(self).wf(),
            r == apply_upgrade_step(old(self).model(), now).0,
            final(self).model() =~= apply_upgrade_step(old(self).model(), now).1,
    {
        match self.pending_upgrade {
            None => Err(ContractError::NoUpgradeProposed),
            Some(p) => {
                if now < p.apply_after_ts {
                    return Err(ContractError::UpgradeTimelockNotElapsed);
                }
                self.pending_upgrade = None;
                Ok(p.wasm_hash)
            },
        }
    }

    /// Drop a pending upgrade proposal.
    pub fn cancel_upgrade(&mut self) -> (r: Result<(), ContractError>)
        requires
            old(self).wf(),
        ensures
            consistent(old(self).model()) ==> consistent(final(self).model()),
            keeps_trials(old(self).model(), final(self).model()),
            final(self).wf(),
            r == cancel_upgrade_step(old(self).model()).0,
            final(self).model() =~= cancel_upgrade_step(old(self).model()).1,
    {
        match self.pending_upgrade {
            None => Err(ContractError::NoUpgradeProposed),
            Some(_) => {
                self.pending_upgrade = None;
                Ok(())
            },
        }
    }

    /// The pending upgrade, if any.
    pub fn get_pending_upgrade(&self) -> (r: Option<PendingUpgrade>)
        ensures
            r == self.model().pending_upgrade,
    {
        self.pending_upgrade
    }

    /// Interface version of the contract.
    pub fn version(&self) -> (v: u32)
        ensures
            v == 1,
    {
        1
    }
}

} // verus!
