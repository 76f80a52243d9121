use vstd::prelude::*;
use crate::consistency::{consistent, lemma_charge_all_identities, lemma_prune_consistent};
use crate::contract::{
    approval_expiration, charge_step, is_due, release_step, service_params_error, subscribe_base_allowance,
    existing_services, register_model, set_active_model,
    accept_admin_step, allowance_after_release, apply_upgrade_step, approve_step, batch_outcome, batch_window,
    cancel_upgrade_step, charge_all, due_ids, grants_trial, keeps_trials, subscribe_calls, BatchState, new_subscription, prior_to_prune, propose_admin_step, propose_upgrade_step, prune_model,
    subscribe_error, subscribe_model, ContractModel,
};
use crate::ttl::UPGRADE_TIMELOCK_SECS;
use crate::types::{ContractError, PendingUpgrade, Service, Subscription, TokenCall};

verus! {

/// One trial per subscriber and service: after any successful subscription
/// to a service with a trial, the trial is recorded as used, no record is
/// ever dropped, and no later subscription of that subscriber to that
/// service is granted a trial.
pub proof fn law_one_trial_per_subscriber(
    m: ContractModel,
    subscriber: String,
    service_id: u64,
    auto_renew: bool,
    now: u64,
    allowance: i128,
)
    requires
        consistent(m),
        subscribe_error(m, subscriber@, service_id, auto_renew, now, allowance) is None,
        m.service(service_id).unwrap().trial_period_secs > 0,
    ensures
        ({
            let mf = subscribe_model(m, subscriber, service_id, auto_renew, now);
            &&& m.trials_used.subset_of(mf.trials_used)
            &&& mf.trials_used.contains((subscriber@, service_id))
            &&& !grants_trial(mf, subscriber@, mf.service(service_id).unwrap())
        }),
{
    let who = subscriber@;
    let svc = m.service(service_id).unwrap();
    let mf = subscribe_model(m, subscriber, service_id, auto_renew, now);
    if !grants_trial(m, who, svc) {
        if !m.trials_used.contains((who, service_id)) {
            let p = m.current_sub(who, service_id).unwrap();
            let id = m.pair(who, service_id).unwrap();
            assert(m.pairs.contains_key((who, service_id)));
            assert(m.subs[id as int] is Some);
        }
    }
    let m1 = ContractModel {
        pairs: m.pairs.insert((who, service_id), m.subs.len() as u64),
        trials_used: if grants_trial(m, who, svc) {
            m.trials_used.insert((who, service_id))
        } else {
            m.trials_used
        },
        ..m
    };
    if let Some(old) = prior_to_prune(m, who, service_id) {
        assert(prune_model(m1, old, who, service_id).trials_used == m1.trials_used);
    }
    assert(mf.trials_used == m1.trials_used);
    assert(mf.services == m.services);
}

/// Trial records survive any history of calls: if each call keeps the
/// records it found (every operation states `keeps_trials` of the storage
/// before and after it), the last storage still holds every trial the first
/// one recorded.
pub proof fn law_trial_records_persist(hist: Seq<ContractModel>)
    requires
        hist.len() > 0,
        forall|i: int| #![trigger hist[i]] 0 <= i < hist.len() - 1 ==> keeps_trials(hist[i], hist[i + 1]),
    ensures
        forall|j: int| 0 <= j < hist.len() ==> keeps_trials(hist[0], #[trigger] hist[j]),
    decreases hist.len(),
{
    if hist.len() > 1 {
        let pre = hist.drop_last();
        assert forall|i: int| #![trigger pre[i]] 0 <= i < pre.len() - 1 implies keeps_trials(pre[i], pre[i + 1]) by {
            assert(pre[i] == hist[i] && pre[i + 1] == hist[i + 1]);
        }
        law_trial_records_persist(pre);
        assert forall|j: int| 0 <= j < hist.len() implies keeps_trials(hist[0], #[trigger] hist[j]) by {
            if j < hist.len() - 1 {
                assert(pre[j] == hist[j]);
            } else {
                let k = hist.len() - 2;
                assert(pre[k] == hist[k]);
                assert(keeps_trials(hist[k], hist[k + 1]));
            }
        }
    }
}

/// No second trial: once `subscriber` has a recorded trial of `service_id`,
/// every later successful subscription of it to that service (from any
/// storage that kept the record) starts without a trial, pays its first
/// period at once, and keeps the record. The storage of every well-formed
/// contract is consistent (`lemma_wf_model`), so this covers every history
/// of calls.
pub proof fn law_no_second_trial(
    first: ContractModel,
    later: ContractModel,
    subscriber: String,
    service_id: u64,
    auto_renew: bool,
    ledger: crate::types::LedgerInfo,
    allowance: i128,
)
    requires
        first.trials_used.contains((subscriber@, service_id)),
        keeps_trials(first, later),
        consistent(later),
        subscribe_error(later, subscriber@, service_id, auto_renew, ledger.timestamp, allowance) is None,
    ensures
        ({
            let svc = later.service(service_id).unwrap();
            let sub = new_subscription(later, subscriber, svc, auto_renew, ledger.timestamp);
            let calls = subscribe_calls(later, subscriber, service_id, auto_renew, ledger, allowance);
            &&& sub.trial_period_secs == 0
            &&& sub.trial_end_ts == 0
            &&& calls.last() == crate::types::TokenCall::Transfer {
                from: subscriber,
                to: svc.merchant,
                amount: svc.price,
            }
            &&& subscribe_model(later, subscriber, service_id, auto_renew, ledger.timestamp).trials_used.contains(
                (subscriber@, service_id),
            )
        }),
{
    let svc = later.service(service_id).unwrap();
    assert(svc.service_id == service_id);
    assert(later.trials_used.contains((subscriber@, service_id)));
    assert(!grants_trial(later, subscriber@, svc));
    if let Some(old) = prior_to_prune(later, subscriber@, service_id) {
        let m1 = ContractModel {
            pairs: later.pairs.insert((subscriber@, service_id), later.subs.len() as u64),
            ..later
        };
        assert(prune_model(m1, old, subscriber@, service_id).trials_used == m1.trials_used);
    }
}

/// Subscribing grants access at once: right after a successful subscription
/// the subscriber's current subscription to the service is the new one, and
/// it is active at the time of subscribing.
pub proof fn law_subscribe_grants_access(
    m: ContractModel,
    subscriber: String,
    service_id: u64,
    auto_renew: bool,
    now: u64,
    allowance: i128,
)
    requires
        consistent(m),
        subscribe_error(m, subscriber@, service_id, auto_renew, now, allowance) is None,
    ensures
        ({
            let mf = subscribe_model(m, subscriber, service_id, auto_renew, now);
            let sub = new_subscription(m, subscriber, m.service(service_id).unwrap(), auto_renew, now);
            &&& mf.current_sub(subscriber@, service_id) == Some(sub)
            &&& now < sub.service_end_ts
        }),
{
    let who = subscriber@;
    let mf = subscribe_model(m, subscriber, service_id, auto_renew, now);
    let new_id = m.subs.len() as u64;
    let m1 = ContractModel {
        pairs: m.pairs.insert((who, service_id), new_id),
        trials_used: if grants_trial(m, who, m.service(service_id).unwrap()) {
            m.trials_used.insert((who, service_id))
        } else {
            m.trials_used
        },
        ..m
    };
    if let Some(old) = prior_to_prune(m, who, service_id) {
        assert(prune_model(m1, old, who, service_id).subs.len() == m.subs.len());
        assert(prune_model(m1, old, who, service_id).pairs == m1.pairs);
    }
    assert(mf.pairs.contains_key((who, service_id)));
    assert(mf.pairs[(who, service_id)] == new_id);
    assert(m.services[service_id as int].price > 0);
}

/// Re-subscribing after a dead subscription does not grow the indexes: the
/// pruned subscription leaves both the service's and the subscriber's index
/// as the new one enters. Consistency holds of the storage of every
/// well-formed contract (`lemma_wf_model`).
pub proof fn law_resubscribe_keeps_index_size(
    m: ContractModel,
    subscriber: String,
    service_id: u64,
    auto_renew: bool,
    now: u64,
    allowance: i128,
)
    requires
        consistent(m),
        subscribe_error(m, subscriber@, service_id, auto_renew, now, allowance) is None,
        prior_to_prune(m, subscriber@, service_id) is Some,
    ensures
        ({
            let mf = subscribe_model(m, subscriber, service_id, auto_renew, now);
            &&& mf.subs_of_service(service_id).len() == m.subs_of_service(service_id).len()
            &&& mf.subs_of(subscriber@).len() == m.subs_of(subscriber@).len()
        }),
{
    let who = subscriber@;
    let new_id = m.subs.len() as u64;
    let old = prior_to_prune(m, who, service_id).unwrap();
    let m1 = ContractModel {
        pairs: m.pairs.insert((who, service_id), new_id),
        trials_used: if grants_trial(m, who, m.service(service_id).unwrap()) {
            m.trials_used.insert((who, service_id))
        } else {
            m.trials_used
        },
        ..m
    };
    assert(m.pairs.contains_key((who, service_id)));
    lemma_prune_consistent(m1, old, who, service_id);
}

/// Releasing exactly what an approval added restores a non-negative
/// allowance: cancelling right after subscribing (or toggling back off
/// right after toggling on) hands the subscriber back the allowance it had.
pub proof fn law_release_undoes_approval(allowance: i128, price: i128, periods: u64)
    requires
        allowance >= 0,
        price > 0,
        periods > 0,
        approve_step(allowance, 0, price, periods) is Some,
    ensures
        ({
            let (a, reserved) = approve_step(allowance, 0, price, periods).unwrap();
            allowance_after_release(a, reserved) == allowance
        }),
{
    assert(price * periods > 0) by (nonlinear_arith)
        requires
            price > 0,
            periods > 0,
    ;
}

/// Two-step admin rotation: after `proposed` is proposed, accepting
/// succeeds for exactly that address and makes it the admin with nothing left
/// pending; anyone else is refused with `NotProposedAdmin` and changes
/// nothing.
pub proof fn law_admin_rotation(m: ContractModel, proposed: Seq<char>, acceptor: Seq<char>)
    ensures
        ({
            let m1 = propose_admin_step(m, proposed);
            let (r, m2) = accept_admin_step(m1, acceptor);
            &&& (r is Ok) == (acceptor == proposed)
            &&& r is Ok ==> m2.admin == proposed && m2.pending_admin is None
            &&& r is Err ==> r == Err::<(), ContractError>(ContractError::NotProposedAdmin) && m2 == m1
                && m2.admin == m.admin
        }),
{
}

/// Accepting needs a proposal: with none pending, nobody can take the admin
/// role.
pub proof fn law_accept_needs_proposal(m: ContractModel, acceptor: Seq<char>)
    requires
        m.pending_admin is None,
    ensures
        accept_admin_step(m, acceptor) == (Err::<(), ContractError>(ContractError::NoAdminProposed), m),
{
}

/// Upgrade timelock: an upgrade proposed at `proposed_at` (with none
/// pending) is applied at `t` exactly when `t` is at least the timelock
/// later, and then yields the proposed hash and clears the proposal; earlier
/// it is refused and changes nothing. While it is pending, a second proposal
/// is refused, so the timelock cannot be reset.
pub proof fn law_upgrade_timelock(m: ContractModel, hash: [u8; 32], other: [u8; 32], proposed_at: u64, t: u64)
    requires
        m.pending_upgrade is None,
        proposed_at + UPGRADE_TIMELOCK_SECS <= u64::MAX,
    ensures
        ({
            let (r1, m1) = propose_upgrade_step(m, hash, proposed_at);
            let (r2, m2) = apply_upgrade_step(m1, t);
            &&& r1 is Ok
            &&& (r2 is Ok) == (t >= proposed_at + UPGRADE_TIMELOCK_SECS)
            &&& r2 is Ok ==> r2 == Ok::<[u8; 32], ContractError>(hash) && m2.pending_upgrade is None
            &&& r2 is Err ==> r2 == Err::<[u8; 32], ContractError>(ContractError::UpgradeTimelockNotElapsed)
                && m2 == m1
            &&& propose_upgrade_step(m1, other, t) == (
                Err::<PendingUpgrade, ContractError>(ContractError::UpgradeAlreadyPending),
                m1,
            )
        }),
{
}

/// Cancelling a pending upgrade clears it, after which a new one can be
/// proposed.
pub proof fn law_cancel_then_propose(m: ContractModel, hash: [u8; 32], now: u64)
    requires
        m.pending_upgrade is Some,
        now + UPGRADE_TIMELOCK_SECS <= u64::MAX,
    ensures
        ({
            let (r, m1) = cancel_upgrade_step(m);
            &&& r is Ok
            &&& m1.pending_upgrade is None
            &&& propose_upgrade_step(m1, hash, now).0 is Ok
        }),
{
}

/// A batch leaves every id it does not visit as it was.
proof fn lemma_batch_frame(st: BatchState, ids: Seq<u64>, now: u64, outcomes: Seq<bool>, k: u64)
    requires
        st.reserved.len() == st.subs.len(),
        !ids.contains(k),
    ensures
        charge_all(st, ids, now, outcomes).subs.len() == st.subs.len(),
        k < st.subs.len() ==> charge_all(st, ids, now, outcomes).subs[k as int] == st.subs[k as int],
    decreases ids.len(),
{
    lemma_charge_all_identities(st, ids, now, outcomes);
    if ids.len() > 0 {
        let pre = ids.drop_last();
        if pre.contains(k) {
            let i = choose|i: int| 0 <= i < pre.len() && pre[i] == k;
            assert(ids[i] == k);
        }
        assert(ids[ids.len() - 1] == ids.last());
        lemma_batch_frame(st, pre, now, outcomes, k);
        lemma_charge_all_identities(st, pre, now, outcomes);
    }
}

/// Over distinct ids, a batch attempts one transfer for each id that was due
/// before the batch, and counts each of those as charged or failed.
proof fn lemma_batch_attempts(m: ContractModel, st: BatchState, ids: Seq<u64>, now: u64, outcomes: Seq<bool>)
    requires
        st.subs == m.subs,
        st.reserved.len() == st.subs.len(),
        ids.no_duplicates(),
    ensures
        charge_all(st, ids, now, outcomes).attempts == st.attempts + due_ids(m, ids, now).len(),
        charge_all(st, ids, now, outcomes).charged + charge_all(st, ids, now, outcomes).failed
            == st.charged + st.failed + due_ids(m, ids, now).len(),
    decreases ids.len(),
{
    if ids.len() > 0 {
        let pre = ids.drop_last();
        let last = ids.last();
        assert(pre.no_duplicates()) by {
            assert forall|i: int, j: int| 0 <= i < pre.len() && 0 <= j < pre.len() && i != j implies pre[i] != pre[j] by {
                assert(pre[i] == ids[i] && pre[j] == ids[j]);
            }
        }
        assert(!pre.contains(last)) by {
            if pre.contains(last) {
                let i = choose|i: int| 0 <= i < pre.len() && pre[i] == last;
                assert(ids[i] == ids[ids.len() - 1]);
            }
        }
        lemma_batch_attempts(m, st, pre, now, outcomes);
        lemma_batch_frame(st, pre, now, outcomes, last);
        lemma_charge_all_identities(st, pre, now, outcomes);
    }
}

/// Billing accounts for every entry it visits and charges exactly what
/// `due_charges` lists: each entry of the batch window is counted once as
/// charged, failed or skipped, and the batch attempts one transfer per
/// subscription that was due when the batch started, so it consumes exactly
/// the outcomes of the transfers `due_charges` lists.
pub proof fn law_batch_charges_listed(
    m: ContractModel,
    service_id: u64,
    offset: u32,
    limit: u32,
    now: u64,
    outcomes: Seq<bool>,
)
    requires
        consistent(m),
    ensures
        ({
            let w = batch_window(m, service_id, offset, limit);
            let b = batch_outcome(m, service_id, offset, limit, now, outcomes);
            &&& b.charged + b.failed + b.skipped == w.len()
            &&& b.attempts == due_ids(m, w, now).len()
            &&& b.charged + b.failed == due_ids(m, w, now).len()
        }),
{
    let w = batch_window(m, service_id, offset, limit);
    let st = BatchState { subs: m.subs, reserved: m.reserved, charged: 0, failed: 0, skipped: 0, attempts: 0 };
    let all = m.subs_of_service(service_id);
    assert(all.no_duplicates());
    let lo = crate::contract::batch_start(m, service_id, offset);
    assert(w.no_duplicates()) by {
        assert forall|i: int, j: int| 0 <= i < w.len() && 0 <= j < w.len() && i != j implies w[i] != w[j] by {
            assert(w[i] == all[lo + i] && w[j] == all[lo + j]);
        }
    }
    lemma_charge_all_identities(st, w, now, outcomes);
    lemma_batch_attempts(m, st, w, now, outcomes);
}

/// Listing ignores services added after the listed ids.
proof fn lemma_existing_services_extended(m: ContractModel, m2: ContractModel, ids: Seq<u64>)
    requires
        forall|k: int| 0 <= k < ids.len() ==> #[trigger] ids[k] < m.services.len(),
        m.services.len() <= m2.services.len(),
        forall|i: int| 0 <= i < m.services.len() ==> #[trigger] m2.services[i] == m.services[i],
    ensures
        existing_services(m2, ids) == existing_services(m, ids),
    decreases ids.len(),
{
    if ids.len() > 0 {
        let pre = ids.drop_last();
        assert forall|k: int| 0 <= k < pre.len() implies #[trigger] pre[k] < m.services.len() by {
            assert(pre[k] == ids[k]);
        }
        lemma_existing_services_extended(m, m2, pre);
        assert(ids.last() == ids[ids.len() - 1]);
    }
}

/// Registering then listing: the registered service gets the next id and
/// reads back by it, and the merchant's service list becomes the old list
/// followed by the new service.
pub proof fn law_register_then_list(m: ContractModel, svc: Service)
    requires
        consistent(m),
        svc.service_id == m.services.len(),
    ensures
        ({
            let m2 = register_model(m, svc);
            &&& m2.services.len() == m.services.len() + 1
            &&& m2.service(svc.service_id) == Some(svc)
            &&& existing_services(m2, m2.services_of(svc.merchant@)) == existing_services(
                m,
                m.services_of(svc.merchant@),
            ).push(svc)
        }),
{
    let m2 = register_model(m, svc);
    let w = svc.merchant@;
    let ids = m.services_of(w);
    assert forall|k: int| 0 <= k < ids.len() implies #[trigger] ids[k] < m.services.len() by {
        assert(m.merchant_services.contains_key(w));
        assert(m.merchant_services[w][k] == ids[k]);
    }
    lemma_existing_services_extended(m, m2, ids);
    let ids2 = m2.services_of(w);
    assert(ids2 == ids.push(svc.service_id));
    assert(ids2.drop_last() =~= ids);
}

/// `due_ids` reads only the subscriptions.
proof fn lemma_due_ids_subs(m: ContractModel, m2: ContractModel, ids: Seq<u64>, now: u64)
    requires
        m.subs == m2.subs,
    ensures
        due_ids(m2, ids, now) == due_ids(m, ids, now),
    decreases ids.len(),
{
    if ids.len() > 0 {
        lemma_due_ids_subs(m, m2, ids.drop_last(), now);
    }
}

/// Deactivation stops new sign-ups and nothing else: after a service's
/// activity is set, subscribing to it is refused with `ServiceNotActive`
/// exactly when it is inactive, while subscriptions, reservations and
/// billing (what is due and what a batch does) stay as they were.
pub proof fn law_deactivation_blocks_only_new_subscriptions(
    m: ContractModel,
    service_id: u64,
    active: bool,
    who: Seq<char>,
    auto_renew: bool,
    now: u64,
    allowance: i128,
    offset: u32,
    limit: u32,
    outcomes: Seq<bool>,
)
    requires
        service_id < m.services.len(),
    ensures
        ({
            let m2 = set_active_model(m, service_id, active);
            &&& (subscribe_error(m2, who, service_id, auto_renew, now, allowance) == Some(
                ContractError::ServiceNotActive,
            )) == !active
            &&& m2.subs == m.subs
            &&& m2.reserved == m.reserved
            &&& batch_window(m2, service_id, offset, limit) == batch_window(m, service_id, offset, limit)
            &&& due_ids(m2, batch_window(m2, service_id, offset, limit), now) == due_ids(
                m,
                batch_window(m, service_id, offset, limit),
                now,
            )
            &&& batch_outcome(m2, service_id, offset, limit, now, outcomes) == batch_outcome(
                m,
                service_id,
                offset,
                limit,
                now,
                outcomes,
            )
        }),
{
    let m2 = set_active_model(m, service_id, active);
    assert(m2.service(service_id).unwrap().is_active == active);
    lemma_due_ids_subs(m, m2, batch_window(m, service_id, offset, limit), now);
}

/// Billing has no deadline: a subscription is due exactly when it exists,
/// renews automatically and its charge time has come, however late the
/// batch runs; once due it stays due until charged; before its charge time
/// it is not due.
pub proof fn law_due_however_late(sub: Option<Subscription>, now: u64, later: u64)
    ensures
        is_due(sub, now) <==> (sub matches Some(s) && s.auto_renew && s.next_charge_ts <= now),
        is_due(sub, now) && now <= later ==> is_due(sub, later),
        (sub matches Some(s) && now < s.next_charge_ts) ==> !is_due(sub, now),
{
}

/// The subscriptions a batch lists as due are exactly the visited ids whose
/// subscription exists, renews automatically and has reached its charge
/// time, with no bound on how late.
pub proof fn law_due_ids_members(m: ContractModel, ids: Seq<u64>, now: u64, x: u64)
    ensures
        due_ids(m, ids, now).contains(x) <==> (ids.contains(x) && (m.sub(x) matches Some(s) && s.auto_renew
            && s.next_charge_ts <= now)),
    decreases ids.len(),
{
    if ids.len() > 0 {
        let pre = ids.drop_last();
        law_due_ids_members(m, pre, now, x);
        let rest = due_ids(m, pre, now);
        if ids.contains(x) && !pre.contains(x) {
            let i = choose|i: int| 0 <= i < ids.len() && ids[i] == x;
            if i < ids.len() - 1 {
                assert(pre[i] == x);
            }
            assert(ids.last() == x);
        }
        if pre.contains(x) {
            let i = choose|i: int| 0 <= i < pre.len() && pre[i] == x;
            assert(ids[i] == x);
        }
        if ids.last() == x {
            assert(ids[ids.len() - 1] == x);
        }
        if is_due(m.sub(ids.last()), now) {
            assert(rest.push(ids.last()).last() == ids.last());
            if rest.contains(x) {
                let i = choose|i: int| 0 <= i < rest.len() && rest[i] == x;
                assert(rest.push(ids.last())[i] == x);
            }
            if rest.push(ids.last()).contains(x) && x != ids.last() {
                let i = choose|i: int| 0 <= i < rest.push(ids.last()).len() && rest.push(ids.last())[i] == x;
                assert(rest[i] == x);
            }
        }
    }
}

/// A paid charge of a due subscription counts as charged, moves its next
/// charge and its end exactly one period on from the previous charge time
/// (so a late batch does not shift the schedule), and lowers its
/// reservation by the price, not below zero.
pub proof fn law_paid_charge_moves_one_period(st: BatchState, sid: u64, now: u64, outcomes: Seq<bool>)
    requires
        sid < st.subs.len(),
        st.reserved.len() == st.subs.len(),
        st.subs[sid as int] matches Some(s) && s.auto_renew && s.next_charge_ts <= now && s.next_charge_ts
            + s.period_secs <= u64::MAX && s.price > 0,
        st.attempts < outcomes.len(),
        outcomes[st.attempts as int],
    ensures
        ({
            let s = st.subs[sid as int].unwrap();
            let r = charge_step(st, sid, now, outcomes);
            &&& r.charged == st.charged + 1
            &&& r.failed == st.failed
            &&& r.skipped == st.skipped
            &&& r.attempts == st.attempts + 1
            &&& r.subs[sid as int] == Some(
                Subscription {
                    next_charge_ts: (s.next_charge_ts + s.period_secs) as u64,
                    service_end_ts: (s.next_charge_ts + s.period_secs) as u64,
                    ..s
                },
            )
            &&& r.reserved[sid as int] == (if st.reserved[sid as int] > s.price {
                st.reserved[sid as int] - s.price
            } else {
                0
            })
        }),
{
}

/// Approving adds: approving `n` more periods at `price` raises both the
/// allowance and the subscription's reservation by `price * n`, on top of
/// what they were.
pub proof fn law_approval_adds(allowance: i128, reserved: i128, price: i128, n: u64)
    requires
        approve_step(allowance, reserved, price, n) is Some,
    ensures
        ({
            let (a, r) = approve_step(allowance, reserved, price, n).unwrap();
            &&& a == allowance + price * n
            &&& r == reserved + price * n
        }),
{
}

/// Two approvals for one subscription (a subscription, then a top-up by
/// `extend_subscription` or turning auto-renewal back on) reserve their sum,
/// and releasing that reservation gives the subscriber back the allowance it
/// had before the first.
pub proof fn law_top_up_then_release(allowance: i128, price: i128, n1: u64, n2: u64)
    requires
        allowance >= 0,
        price > 0,
        approve_step(allowance, 0, price, n1) is Some,
        approve_step(approve_step(allowance, 0, price, n1).unwrap().0, approve_step(allowance, 0, price, n1).unwrap().1, price, n2) is Some,
    ensures
        ({
            let (a1, r1) = approve_step(allowance, 0, price, n1).unwrap();
            let (a2, r2) = approve_step(a1, r1, price, n2).unwrap();
            &&& r2 == price * n1 + price * n2
            &&& a2 == allowance + r2
            &&& allowance_after_release(a2, r2) == allowance
        }),
{
    assert(price * n1 >= 0 && price * n2 >= 0) by (nonlinear_arith)
        requires
            price > 0,
    ;
}

/// Service parameters are accepted exactly when the price is positive, the
/// period is non-zero, the name is non-empty and at least one period is
/// pre-approved; otherwise the first failing check names the error.
pub proof fn law_service_params(price: i128, period_secs: u64, name: Seq<char>, approve_periods: u64)
    ensures
        service_params_error(price, period_secs, name, approve_periods) is None <==> (price > 0 && period_secs > 0
            && name.len() > 0 && approve_periods >= 1),
        price <= 0 ==> service_params_error(price, period_secs, name, approve_periods) == Some(
            ContractError::InvalidPrice,
        ),
        price > 0 && period_secs == 0 ==> service_params_error(price, period_secs, name, approve_periods) == Some(
            ContractError::InvalidPeriod,
        ),
        price > 0 && period_secs > 0 && name.len() == 0 ==> service_params_error(
            price,
            period_secs,
            name,
            approve_periods,
        ) == Some(ContractError::InvalidServiceName),
        price > 0 && period_secs > 0 && name.len() > 0 && approve_periods == 0 ==> service_params_error(
            price,
            period_secs,
            name,
            approve_periods,
        ) == Some(ContractError::InvalidPeriod),
{
}

/// What subscribing reserves and approves: an auto-renewing subscription
/// reserves `price * approve_periods` whether or not it starts with a trial;
/// otherwise a paid one reserves one period and a trial-only one nothing. The
/// approval, when there is one, raises the allowance left after releasing any
/// pruned subscription by exactly that reservation.
pub proof fn law_subscribe_reserves(
    m: ContractModel,
    subscriber: String,
    service_id: u64,
    auto_renew: bool,
    ledger: crate::types::LedgerInfo,
    allowance: i128,
)
    requires
        subscribe_error(m, subscriber@, service_id, auto_renew, ledger.timestamp, allowance) is None,
    ensures
        ({
            let svc = m.service(service_id).unwrap();
            let mf = subscribe_model(m, subscriber, service_id, auto_renew, ledger.timestamp);
            let trial = grants_trial(m, subscriber@, svc);
            let reserved: int = if auto_renew {
                svc.price * svc.approve_periods
            } else if trial {
                0
            } else {
                svc.price as int
            };
            let base = subscribe_base_allowance(m, subscriber@, service_id, allowance);
            let calls = subscribe_calls(m, subscriber, service_id, auto_renew, ledger, allowance);
            &&& mf.reserved.last() == reserved
            &&& (auto_renew || !trial) ==> exists|i: int|
                0 <= i < calls.len() && calls[i] == TokenCall::Approve {
                    owner: subscriber,
                    amount: (base + reserved) as i128,
                    expiration_ledger: approval_expiration(ledger),
                }
        }),
{
    let svc = m.service(service_id).unwrap();
    let base = subscribe_base_allowance(m, subscriber@, service_id, allowance);
    let calls = subscribe_calls(m, subscriber, service_id, auto_renew, ledger, allowance);
    let own = crate::contract::subscribe_own_calls(m, subscriber, svc, auto_renew, ledger, base);
    if auto_renew || !grants_trial(m, subscriber@, svc) {
        let pre: Seq<TokenCall> = match prior_to_prune(m, subscriber@, service_id) {
            Some(old_id) => crate::contract::release_calls(subscriber, allowance, m.reserved[old_id as int], ledger),
            None => Seq::empty(),
        };
        assert(calls == pre + own);
        assert(calls[pre.len() as int] == own[0]);
    }
}

} // verus!
