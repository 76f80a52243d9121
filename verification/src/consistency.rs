use vstd::prelude::*;
use crate::contract::{charge_all, charge_step, BatchState, grants_trial, moved_entry, new_subscription, prior_to_prune, prune_model, remove_in_page, repoint_service, repoint_subscriber, subscribe_error, subscribe_model, ContractModel};
use crate::paging::{lemma_distinct_slot, lemma_swap_remove, page_of, swap_remove_spec};
use crate::types::Subscription;

verus! {

/// Lengths of the per-id tables agree and services sit at their ids.
pub open spec fn shape_ok(m: ContractModel) -> bool {
    &&& m.subs.len() <= u64::MAX
    &&& m.sub_index.len() == m.subs.len()
    &&& m.reserved.len() == m.subs.len()
    &&& m.service_subs.len() == m.services.len()
    &&& forall|i: int| 0 <= i < m.services.len() ==> #[trigger] m.services[i].service_id == i
    &&& forall|i: int|
        0 <= i < m.services.len() ==> #[trigger] m.services[i].price > 0 && m.services[i].period_secs > 0
            && m.services[i].approve_periods > 0
}

/// Every entry of a service's index is a live subscription of that service,
/// and its reverse pointer names the entry's page.
pub open spec fn service_entries_ok(m: ContractModel) -> bool {
    forall|s: int, k: int|
        0 <= s < m.service_subs.len() && 0 <= k < m.service_subs[s].len() ==> {
            let x = #[trigger] m.service_subs[s][k];
            &&& x < m.subs.len()
            &&& m.subs[x as int] is Some
            &&& m.subs[x as int].unwrap().service_id == s
            &&& m.sub_index[x as int] is Some
            &&& m.sub_index[x as int].unwrap().service_page == page_of(k)
        }
}

/// Every entry of a subscriber's index is a live subscription of that
/// subscriber, and its reverse pointer names the entry's page.
pub open spec fn subscriber_entries_ok(m: ContractModel) -> bool {
    forall|who: Seq<char>, k: int|
        m.subscriber_subs.contains_key(who) && 0 <= k < m.subscriber_subs[who].len() ==> {
            let x = #[trigger] m.subscriber_subs[who][k];
            &&& x < m.subs.len()
            &&& m.subs[x as int] is Some
            &&& m.subs[x as int].unwrap().subscriber@ == who
            &&& m.sub_index[x as int] is Some
            &&& m.sub_index[x as int].unwrap().subscriber_page == page_of(k)
        }
}

/// No index lists an id twice.
pub open spec fn indexes_distinct(m: ContractModel) -> bool {
    &&& forall|s: int| 0 <= s < m.service_subs.len() ==> (#[trigger] m.service_subs[s]).no_duplicates()
    &&& forall|who: Seq<char>|
        m.subscriber_subs.contains_key(who) ==> (#[trigger] m.subscriber_subs[who]).no_duplicates()
}

/// A subscription is live exactly when it has a reverse pointer, and every
/// live subscription is listed by its service and by its subscriber.
pub open spec fn live_subs_indexed(m: ContractModel) -> bool {
    forall|x: int|
        0 <= x < m.subs.len() ==> {
            &&& (#[trigger] m.subs[x] is Some) == (m.sub_index[x] is Some)
            &&& m.subs[x] is Some ==> {
                let sub = m.subs[x].unwrap();
                &&& sub.service_id < m.service_subs.len()
                &&& m.service_subs[sub.service_id as int].contains(x as u64)
                &&& m.subs_of(sub.subscriber@).contains(x as u64)
            }
        }
}

/// Each (subscriber, service) pair names a live subscription of that
/// subscriber to that service.
pub open spec fn pairs_ok(m: ContractModel) -> bool {
    forall|key: (Seq<char>, u64)|
        #[trigger] m.pairs.contains_key(key) ==> {
            let id = m.pairs[key];
            &&& id < m.subs.len()
            &&& m.subs[id as int] is Some
            &&& m.subs[id as int].unwrap().subscriber@ == key.0
            &&& m.subs[id as int].unwrap().service_id == key.1
        }
}

/// Every entry of a merchant's service index is a service of that merchant.
pub open spec fn merchant_entries_ok(m: ContractModel) -> bool {
    forall|who: Seq<char>, k: int|
        m.merchant_services.contains_key(who) && 0 <= k < m.merchant_services[who].len() ==> {
            let id = #[trigger] m.merchant_services[who][k];
            &&& id < m.services.len()
            &&& m.services[id as int].merchant@ == who
        }
}

/// Every subscription that carries a trial has its trial recorded as used.
pub open spec fn trials_ok(m: ContractModel) -> bool {
    forall|x: int|
        0 <= x < m.subs.len() && (#[trigger] m.subs[x]) is Some && m.subs[x].unwrap().trial_period_secs > 0
            ==> m.trials_used.contains((m.subs[x].unwrap().subscriber@, m.subs[x].unwrap().service_id))
}

/// Everything the indexes, reverse pointers, pairs and trial records promise
/// about each other.
pub open spec fn consistent(m: ContractModel) -> bool {
    &&& shape_ok(m)
    &&& service_entries_ok(m)
    &&& subscriber_entries_ok(m)
    &&& indexes_distinct(m)
    &&& live_subs_indexed(m)
    &&& pairs_ok(m)
    &&& trials_ok(m)
    &&& merchant_entries_ok(m)
}

/// Pruning a live subscription `old` of `who` on service `s` from consistent
/// storage removes exactly it: both indexes shrink by one, and every
/// remaining entry's reverse pointer still names its page.
pub proof fn lemma_prune_consistent(m: ContractModel, old: u64, who: Seq<char>, s: u64)
    requires
        shape_ok(m),
        service_entries_ok(m),
        subscriber_entries_ok(m),
        indexes_distinct(m),
        live_subs_indexed(m),
        old < m.subs.len(),
        m.subs[old as int] is Some,
        m.subs[old as int].unwrap().service_id == s,
        m.subs[old as int].unwrap().subscriber@ == who,
    ensures
        ({
            let m2 = prune_model(m, old, who, s);
            &&& shape_ok(m2)
            &&& service_entries_ok(m2)
            &&& subscriber_entries_ok(m2)
            &&& indexes_distinct(m2)
            &&& live_subs_indexed(m2)
            &&& m2.subs == m.subs.update(old as int, None)
            &&& m2.pairs == m.pairs
            &&& m2.trials_used == m.trials_used
            &&& m2.services == m.services
            &&& m2.subs_of_service(s).len() == m.subs_of_service(s).len() - 1
            &&& m2.subs_of(who).len() == m.subs_of(who).len() - 1
            &&& m2.subscriber_subs.contains_key(who)
        }),
{
    let sub = m.subs[old as int].unwrap();
    let idx = m.sub_index[old as int].unwrap();
    let ss = m.service_subs[s as int];
    let us = m.subscriber_subs[who];
    // where `old` sits in both indexes
    assert(ss.contains(old));
    let k1 = choose|k: int| 0 <= k < ss.len() && ss[k] == old;
    assert(m.service_subs[s as int][k1] == old);
    assert(page_of(k1) == idx.service_page);
    lemma_distinct_slot(ss, k1);
    assert(m.subs_of(who).contains(old));
    assert(m.subscriber_subs.contains_key(who));
    let k2 = choose|k: int| 0 <= k < us.len() && us[k] == old;
    assert(m.subscriber_subs[who][k2] == old);
    assert(page_of(k2) == idx.subscriber_page);
    lemma_distinct_slot(us, k2);
    lemma_swap_remove(ss, k1);
    lemma_swap_remove(us, k2);
    let ss2 = swap_remove_spec(ss, k1);
    let us2 = swap_remove_spec(us, k2);
    assert(remove_in_page(ss, old, idx.service_page) == ss2);
    assert(remove_in_page(us, old, idx.subscriber_page) == us2);
    let mv1 = moved_entry(ss, old, idx.service_page);
    let mv2 = moved_entry(us, old, idx.subscriber_page);
    let ix1 = repoint_service(m.sub_index, mv1);
    let ix2 = repoint_subscriber(ix1, mv2);
    let ix3 = ix2.update(old as int, None);
    let m2 = prune_model(m, old, who, s);
    assert(m2.sub_index == ix3);
    assert(m2.service_subs == m.service_subs.update(s as int, ss2));
    assert(m2.subscriber_subs == m.subscriber_subs.insert(who, us2));
    assert(m2.subs == m.subs.update(old as int, None));
    // pointers of untouched ids keep their fields; the moved ones get the new page
    assert forall|x: int| 0 <= x < m.subs.len() && x != old implies {
        &&& (#[trigger] ix3[x] is Some) == (m.sub_index[x] is Some)
        &&& ix3[x] is Some ==> {
            &&& ix3[x].unwrap().service_page == (match mv1 {
                Some((y, p)) => if y == x { p as int } else { m.sub_index[x].unwrap().service_page as int },
                None => m.sub_index[x].unwrap().service_page as int,
            })
            &&& ix3[x].unwrap().subscriber_page == (match mv2 {
                Some((y, p)) => if y == x { p as int } else { m.sub_index[x].unwrap().subscriber_page as int },
                None => m.sub_index[x].unwrap().subscriber_page as int,
            })
        }
    } by {}
    assert(shape_ok(m2));
    assert forall|t: int, k: int|
        0 <= t < m2.service_subs.len() && 0 <= k < m2.service_subs[t].len() implies {
            let x = #[trigger] m2.service_subs[t][k];
            &&& x < m2.subs.len()
            &&& m2.subs[x as int] is Some
            &&& m2.subs[x as int].unwrap().service_id == t
            &&& m2.sub_index[x as int] is Some
            &&& m2.sub_index[x as int].unwrap().service_page == page_of(k)
        } by {
        let x = m2.service_subs[t][k];
        if t == s {
            let ko = if k == k1 { ss.len() - 1 } else { k };
            assert(x == ss[ko]);
            assert(m.service_subs[s as int][ko] == x);
            assert(x != old);
            if k == k1 && page_of(k1) != page_of(ss.len() - 1) {
                assert(mv1 == Some((x, idx.service_page)));
            } else if k == k1 {
                assert(mv1 is None);
            } else {
                if let Some((y, p)) = mv1 {
                    assert(y == ss.last());
                    assert(y != x);
                }
            }
            if let Some((y, p)) = mv2 {
                if y == x {
                }
            }
        } else {
            assert(m.service_subs[t][k] == x);
            assert(x != old);
            if let Some((y, p)) = mv1 {
                assert(y == ss.last());
                assert(m.service_subs[s as int][ss.len() - 1] == y);
                if y == x {
                    assert(m.subs[x as int].unwrap().service_id == s);
                }
            }
        }
    }
    assert forall|w: Seq<char>, k: int|
        m2.subscriber_subs.contains_key(w) && 0 <= k < m2.subscriber_subs[w].len() implies {
            let x = #[trigger] m2.subscriber_subs[w][k];
            &&& x < m2.subs.len()
            &&& m2.subs[x as int] is Some
            &&& m2.subs[x as int].unwrap().subscriber@ == w
            &&& m2.sub_index[x as int] is Some
            &&& m2.sub_index[x as int].unwrap().subscriber_page == page_of(k)
        } by {
        let x = m2.subscriber_subs[w][k];
        if w == who {
            let ko = if k == k2 { us.len() - 1 } else { k };
            assert(x == us[ko]);
            assert(m.subscriber_subs[who][ko] == x);
            assert(x != old);
            if k == k2 && page_of(k2) != page_of(us.len() - 1) {
                assert(mv2 == Some((x, idx.subscriber_page)));
            } else if k == k2 {
                assert(mv2 is None);
            } else {
                if let Some((y, p)) = mv2 {
                    assert(y == us.last());
                    assert(y != x);
                }
            }
        } else {
            assert(m.subscriber_subs[w][k] == x);
            assert(x != old);
            if let Some((y, p)) = mv2 {
                assert(y == us.last());
                assert(m.subscriber_subs[who][us.len() - 1] == y);
                if y == x {
                    assert(m.subs[x as int].unwrap().subscriber@ == who);
                }
            }
        }
    }
    assert forall|t: int| 0 <= t < m2.service_subs.len() implies (#[trigger] m2.service_subs[t]).no_duplicates() by {
        assert(m.service_subs[t].no_duplicates());
    }
    assert forall|w: Seq<char>| m2.subscriber_subs.contains_key(w) implies (#[trigger] m2.subscriber_subs[w]).no_duplicates() by {
        assert(m.subscriber_subs[w].no_duplicates());
    }
    assert forall|x: int| 0 <= x < m2.subs.len() implies {
        &&& (#[trigger] m2.subs[x] is Some) == (m2.sub_index[x] is Some)
        &&& m2.subs[x] is Some ==> {
            let sb = m2.subs[x].unwrap();
            &&& sb.service_id < m2.service_subs.len()
            &&& m2.service_subs[sb.service_id as int].contains(x as u64)
            &&& m2.subs_of(sb.subscriber@).contains(x as u64)
        }
    } by {
        if x != old && m2.subs[x] is Some {
            let sb = m2.subs[x].unwrap();
            assert(m.service_subs[sb.service_id as int].contains(x as u64));
            assert(m.subs_of(sb.subscriber@).contains(x as u64));
            if sb.service_id == s {
                assert(ss.no_duplicates());
                assert(ss.contains(x as u64));
                assert(x as u64 != ss[k1]);
                assert(swap_remove_spec(ss, k1).contains(x as u64));
            }
            if sb.subscriber@ == who {
                assert(us.no_duplicates());
                assert(us.contains(x as u64));
                assert(x as u64 != us[k2]);
                assert(swap_remove_spec(us, k2).contains(x as u64));
            }
        }
    }
    assert(m2.subs_of_service(s) == ss2);
    assert(m2.subs_of(who) == us2);
}


/// Subscribing keeps the storage consistent: the new subscription is listed
/// by its service and its subscriber with accurate reverse pointers, a pruned
/// predecessor disappears from both indexes, and the pair names the new
/// subscription.
pub proof fn lemma_subscribe_consistent(
    m: ContractModel,
    subscriber: String,
    service_id: u64,
    auto_renew: bool,
    now: u64,
    allowance: i128,
)
    requires
        consistent(m),
        subscribe_error(m, subscriber@, service_id, auto_renew, now, allowance) is None,
        m.subs.len() < u64::MAX,
        m.subs_of_service(service_id).len() < crate::paging::MAX_INDEX_ITEMS,
        m.subs_of(subscriber@).len() < crate::paging::MAX_INDEX_ITEMS,
    ensures
        consistent(subscribe_model(m, subscriber, service_id, auto_renew, now)),
{
    let who = subscriber@;
    let s = service_id;
    let svc = m.service(service_id).unwrap();
    let new_id = m.subs.len() as u64;
    let sub = new_subscription(m, subscriber, svc, auto_renew, now);
    assert(svc.service_id == s);
    let m1 = ContractModel {
        pairs: m.pairs.insert((who, s), new_id),
        trials_used: if grants_trial(m, who, svc) {
            m.trials_used.insert((who, s))
        } else {
            m.trials_used
        },
        ..m
    };
    let prior = prior_to_prune(m, who, s);
    let m2 = match prior {
        Some(old) => prune_model(m1, old, who, s),
        None => m1,
    };
    if let Some(old) = prior {
        assert(m.pairs.contains_key((who, s)));
        assert(m.pairs[(who, s)] == old);
        lemma_prune_consistent(m1, old, who, s);
    } else {
        assert(service_entries_ok(m1));
        assert(subscriber_entries_ok(m1));
        assert(indexes_distinct(m1));
        assert(live_subs_indexed(m1));
    }
    assert(shape_ok(m2));
    assert(service_entries_ok(m2));
    assert(subscriber_entries_ok(m2));
    assert(indexes_distinct(m2));
    assert(live_subs_indexed(m2));
    let ss2 = m2.subs_of_service(s);
    let us2 = m2.subs_of(who);
    crate::contract::lemma_prune_shrinks(m1, prior, who, s);
    assert(page_of(ss2.len() as int) < 0x1_0000_0000);
    assert(page_of(us2.len() as int) < 0x1_0000_0000);
    let mf = subscribe_model(m, subscriber, service_id, auto_renew, now);
    assert(mf.subs == m2.subs.push(Some(sub)));
    assert(mf.service_subs == m2.service_subs.update(s as int, ss2.push(new_id)));
    assert(mf.subscriber_subs == m2.subscriber_subs.insert(who, us2.push(new_id)));
    assert(mf.pairs == m1.pairs);
    assert(mf.trials_used == m1.trials_used);
    assert(m2.subs.len() == m.subs.len());
    // every existing entry is an older id
    assert forall|t: int, k: int| 0 <= t < m2.service_subs.len() && 0 <= k < m2.service_subs[t].len()
        implies #[trigger] m2.service_subs[t][k] < new_id by {}
    assert forall|w: Seq<char>, k: int| m2.subscriber_subs.contains_key(w) && 0 <= k < m2.subscriber_subs[w].len()
        implies #[trigger] m2.subscriber_subs[w][k] < new_id by {}
    assert(!ss2.contains(new_id)) by {
        if ss2.contains(new_id) {
            let k = choose|k: int| 0 <= k < ss2.len() && ss2[k] == new_id;
            assert(m2.service_subs[s as int][k] == new_id);
        }
    }
    assert(!us2.contains(new_id)) by {
        if us2.contains(new_id) {
            let k = choose|k: int| 0 <= k < us2.len() && us2[k] == new_id;
            assert(m2.subscriber_subs[who][k] == new_id);
        }
    }
    assert(shape_ok(mf));
    assert forall|t: int, k: int|
        0 <= t < mf.service_subs.len() && 0 <= k < mf.service_subs[t].len() implies {
            let x = #[trigger] mf.service_subs[t][k];
            &&& x < mf.subs.len()
            &&& mf.subs[x as int] is Some
            &&& mf.subs[x as int].unwrap().service_id == t
            &&& mf.sub_index[x as int] is Some
            &&& mf.sub_index[x as int].unwrap().service_page == page_of(k)
        } by {
        if t == s && k == ss2.len() {
            assert(mf.service_subs[t][k] == new_id);
            assert(mf.subs[new_id as int] == Some(sub));
        } else {
            assert(mf.service_subs[t][k] == m2.service_subs[t][k]);
        }
    }
    assert forall|w: Seq<char>, k: int|
        mf.subscriber_subs.contains_key(w) && 0 <= k < mf.subscriber_subs[w].len() implies {
            let x = #[trigger] mf.subscriber_subs[w][k];
            &&& x < mf.subs.len()
            &&& mf.subs[x as int] is Some
            &&& mf.subs[x as int].unwrap().subscriber@ == w
            &&& mf.sub_index[x as int] is Some
            &&& mf.sub_index[x as int].unwrap().subscriber_page == page_of(k)
        } by {
        if w == who && k == us2.len() {
            assert(mf.subscriber_subs[w][k] == new_id);
            assert(mf.subs[new_id as int] == Some(sub));
        } else {
            assert(mf.subscriber_subs[w][k] == m2.subscriber_subs[w][k]);
        }
    }
    assert forall|t: int| 0 <= t < mf.service_subs.len() implies (#[trigger] mf.service_subs[t]).no_duplicates() by {
        if t == s {
            assert(m2.service_subs[t].no_duplicates());
            assert forall|a: int, b: int| 0 <= a < b < ss2.len() + 1 implies ss2.push(new_id)[a] != ss2.push(new_id)[b] by {
                if b == ss2.len() {
                    assert(m2.service_subs[s as int][a] < new_id);
                }
            }
        } else {
            assert(m2.service_subs[t].no_duplicates());
        }
    }
    assert forall|w: Seq<char>| mf.subscriber_subs.contains_key(w) implies (#[trigger] mf.subscriber_subs[w]).no_duplicates() by {
        if w == who {
            if m2.subscriber_subs.contains_key(who) {
                assert(m2.subscriber_subs[who].no_duplicates());
            }
            assert forall|a: int, b: int| 0 <= a < b < us2.len() + 1 implies us2.push(new_id)[a] != us2.push(new_id)[b] by {
                if b == us2.len() {
                    assert(m2.subscriber_subs[who][a] < new_id);
                }
                if b < us2.len() {
                    assert(m2.subscriber_subs[who].no_duplicates());
                }
            }
        } else {
            assert(m2.subscriber_subs[w].no_duplicates());
        }
    }
    assert forall|x: int| 0 <= x < mf.subs.len() implies {
        &&& (#[trigger] mf.subs[x] is Some) == (mf.sub_index[x] is Some)
        &&& mf.subs[x] is Some ==> {
            let sb = mf.subs[x].unwrap();
            &&& sb.service_id < mf.service_subs.len()
            &&& mf.service_subs[sb.service_id as int].contains(x as u64)
            &&& mf.subs_of(sb.subscriber@).contains(x as u64)
        }
    } by {
        if x == new_id {
            assert(ss2.push(new_id)[ss2.len() as int] == new_id);
            assert(us2.push(new_id)[us2.len() as int] == new_id);
        } else if mf.subs[x] is Some {
            let sb = mf.subs[x].unwrap();
            assert(m2.subs[x] == mf.subs[x]);
            assert(m2.service_subs[sb.service_id as int].contains(x as u64));
            assert(m2.subs_of(sb.subscriber@).contains(x as u64));
            if sb.service_id == s {
                let k = choose|k: int| 0 <= k < ss2.len() && ss2[k] == x as u64;
                assert(ss2.push(new_id)[k] == x as u64);
            }
            if sb.subscriber@ == who {
                let k = choose|k: int| 0 <= k < us2.len() && us2[k] == x as u64;
                assert(us2.push(new_id)[k] == x as u64);
            }
        }
    }
    assert forall|key: (Seq<char>, u64)| #[trigger] mf.pairs.contains_key(key) implies {
        let id = mf.pairs[key];
        &&& id < mf.subs.len()
        &&& mf.subs[id as int] is Some
        &&& mf.subs[id as int].unwrap().subscriber@ == key.0
        &&& mf.subs[id as int].unwrap().service_id == key.1
    } by {
        if key != (who, s) {
            assert(m.pairs.contains_key(key));
            let id = m.pairs[key];
            if let Some(old) = prior {
                if id == old {
                    assert(key == (who, s));
                }
            }
        }
    }
    assert forall|x: int|
        0 <= x < mf.subs.len() && (#[trigger] mf.subs[x]) is Some && mf.subs[x].unwrap().trial_period_secs > 0
        implies mf.trials_used.contains((mf.subs[x].unwrap().subscriber@, mf.subs[x].unwrap().service_id)) by {
        if x != new_id {
            assert(m.subs[x] == mf.subs[x]);
        }
    }
}


/// Two subscription tables hold live subscriptions at the same ids, with
/// the same subscriber, service and trial.
pub open spec fn same_identities(a: Seq<Option<Subscription>>, b: Seq<Option<Subscription>>) -> bool {
    &&& a.len() == b.len()
    &&& forall|x: int|
        0 <= x < a.len() ==> (#[trigger] a[x] is Some) == (b[x] is Some) && (a[x] is Some ==> {
            &&& a[x].unwrap().subscriber == b[x].unwrap().subscriber
            &&& a[x].unwrap().service_id == b[x].unwrap().service_id
            &&& a[x].unwrap().trial_period_secs == b[x].unwrap().trial_period_secs
        })
}

/// Changing subscriptions in place (not their identity) and reservations
/// keeps the storage consistent.
pub proof fn lemma_identity_preserving(m: ContractModel, subs: Seq<Option<Subscription>>, reserved: Seq<i128>)
    requires
        consistent(m),
        same_identities(m.subs, subs),
        reserved.len() == m.reserved.len(),
    ensures
        consistent(ContractModel { subs: subs, reserved: reserved, ..m }),
{
    let m2 = ContractModel { subs: subs, reserved: reserved, ..m };
    assert forall|t: int, k: int| 0 <= t < m2.service_subs.len() && 0 <= k < m2.service_subs[t].len() implies {
        let x = #[trigger] m2.service_subs[t][k];
        &&& x < m2.subs.len()
        &&& m2.subs[x as int] is Some
        &&& m2.subs[x as int].unwrap().service_id == t
        &&& m2.sub_index[x as int] is Some
        &&& m2.sub_index[x as int].unwrap().service_page == page_of(k)
    } by {
        assert(m.service_subs[t][k] == m2.service_subs[t][k]);
    }
    assert forall|w: Seq<char>, k: int| m2.subscriber_subs.contains_key(w) && 0 <= k < m2.subscriber_subs[w].len() implies {
        let x = #[trigger] m2.subscriber_subs[w][k];
        &&& x < m2.subs.len()
        &&& m2.subs[x as int] is Some
        &&& m2.subs[x as int].unwrap().subscriber@ == w
        &&& m2.sub_index[x as int] is Some
        &&& m2.sub_index[x as int].unwrap().subscriber_page == page_of(k)
    } by {
        assert(m.subscriber_subs[w][k] == m2.subscriber_subs[w][k]);
    }
    assert forall|x: int| 0 <= x < m2.subs.len() implies {
        &&& (#[trigger] m2.subs[x] is Some) == (m2.sub_index[x] is Some)
        &&& m2.subs[x] is Some ==> {
            let sb = m2.subs[x].unwrap();
            &&& sb.service_id < m2.service_subs.len()
            &&& m2.service_subs[sb.service_id as int].contains(x as u64)
            &&& m2.subs_of(sb.subscriber@).contains(x as u64)
        }
    } by {
        assert(m.subs[x] is Some == m2.subs[x] is Some);
    }
    assert forall|key: (Seq<char>, u64)| #[trigger] m2.pairs.contains_key(key) implies {
        let id = m2.pairs[key];
        &&& id < m2.subs.len()
        &&& m2.subs[id as int] is Some
        &&& m2.subs[id as int].unwrap().subscriber@ == key.0
        &&& m2.subs[id as int].unwrap().service_id == key.1
    } by {
        assert(m.pairs.contains_key(key));
        let id = m.pairs[key];
        assert(m.subs[id as int] is Some);
    }
    assert forall|x: int|
        0 <= x < m2.subs.len() && (#[trigger] m2.subs[x]) is Some && m2.subs[x].unwrap().trial_period_secs > 0
        implies m2.trials_used.contains((m2.subs[x].unwrap().subscriber@, m2.subs[x].unwrap().service_id)) by {
        assert(m.subs[x] is Some);
    }
}

/// A billing batch changes subscriptions only in place.
pub proof fn lemma_charge_all_identities(st: BatchState, ids: Seq<u64>, now: u64, outcomes: Seq<bool>)
    requires
        st.reserved.len() == st.subs.len(),
    ensures
        same_identities(st.subs, charge_all(st, ids, now, outcomes).subs),
        charge_all(st, ids, now, outcomes).reserved.len() == st.reserved.len(),
        charge_all(st, ids, now, outcomes).charged + charge_all(st, ids, now, outcomes).failed
            + charge_all(st, ids, now, outcomes).skipped == st.charged + st.failed + st.skipped + ids.len(),
    decreases ids.len(),
{
    if ids.len() > 0 {
        lemma_charge_all_identities(st, ids.drop_last(), now, outcomes);
        let mid = charge_all(st, ids.drop_last(), now, outcomes);
        let fin = charge_step(mid, ids.last(), now, outcomes);
        assert(same_identities(mid.subs, fin.subs));
        assert forall|x: int| 0 <= x < st.subs.len() implies (#[trigger] st.subs[x] is Some) == (fin.subs[x] is Some)
            && (st.subs[x] is Some ==> {
            &&& st.subs[x].unwrap().subscriber == fin.subs[x].unwrap().subscriber
            &&& st.subs[x].unwrap().service_id == fin.subs[x].unwrap().service_id
            &&& st.subs[x].unwrap().trial_period_secs == fin.subs[x].unwrap().trial_period_secs
        }) by {
            assert(mid.subs[x] is Some == st.subs[x] is Some);
        }
    }
}

} // verus!
