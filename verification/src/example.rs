//! A minimal single-subscription contract: each subscriber holds at most one
//! subscription, charged one period at a time through the token allowance.

use vstd::prelude::*;
use crate::table::AddrTable;

verus! {

/// The subscription of one subscriber.
#[derive(Clone, Debug, PartialEq)]
pub struct Subscription {
    pub subscriber: String,
    pub merchant: String,
    pub token: String,
    pub price: i128,
    pub period_secs: u64,
    pub next_charge_ts: u64,
    pub is_active: bool,
}

impl Subscription {
    /// A field-by-field copy.
    pub fn copy(&self) -> (r: Subscription)
        ensures
            r == *self,
    {
        Subscription {
            subscriber: self.subscriber.clone(),
            merchant: self.merchant.clone(),
            token: self.token.clone(),
            price: self.price,
            period_secs: self.period_secs,
            next_charge_ts: self.next_charge_ts,
            is_active: self.is_active,
        }
    }
}

/// A charge to attempt: `transfer_from(subscriber -> merchant, price)` on `token`.
#[derive(Clone, Debug, PartialEq)]
pub struct DueCharge {
    pub subscriber: String,
    pub merchant: String,
    pub token: String,
    pub price: i128,
}

/// The contract's storage: one subscription per subscriber.
pub struct SubscriptionContract {
    subs: AddrTable<Subscription>,
}

/// A subscription is charged when it is active and its charge time has come.
pub open spec fn is_due(sub: Subscription, now: u64) -> bool {
    sub.is_active && now >= sub.next_charge_ts
}

impl SubscriptionContract {
    pub closed spec fn wf(&self) -> bool {
        self.subs.wf()
    }

    /// The subscription stored for `who`, if any.
    pub closed spec fn sub_of(&self, who: Seq<char>) -> Option<Subscription> {
        self.subs.spec_get(who)
    }

    /// An empty contract.
    pub fn new() -> (r: Self)
        ensures
            r.wf(),
            forall|w: Seq<char>| r.sub_of(w) is None,
    {
        SubscriptionContract { subs: AddrTable::new() }
    }

    /// Subscribe `subscriber`; first charge one period from `now`. An
    /// existing subscription (even a cancelled one) is left as it is.
    /// The contract as stored for one subscriber: `sub` is the subscription
    /// of `sub.subscriber`, and nobody else has one.
    pub fn with_record(sub: Subscription) -> (r: Self)
        ensures
            r.wf(),
            r.sub_of(sub.subscriber@) == Some(sub),
            forall|w: Seq<char>| w != sub.subscriber@ ==> #[trigger] r.sub_of(w) is None,
    {
        let mut t: AddrTable<Subscription> = AddrTable::new();
        let who = sub.subscriber.clone();
        t.push_new(who, sub);
        SubscriptionContract { subs: t }
    }

    pub fn subscribe(
        &mut self,
        subscriber: &String,
        merchant: &String,
        token: &String,
        price: i128,
        period_secs: u64,
        now: u64,
    )
        requires
            old(self).wf(),
            now + period_secs <= u64::MAX,
        ensures
            final(self).wf(),
            old(self).sub_of(subscriber@) is Some ==> forall|w: Seq<char>|
                #[trigger] final(self).sub_of(w) == old(self).sub_of(w),
            old(self).sub_of(subscriber@) is None ==> {
                &&& final(self).sub_of(subscriber@) == Some(
                    Subscription {
                        subscriber: *subscriber,
                        merchant: *merchant,
                        token: *token,
                        price: price,
                        period_secs: period_secs,
                        next_charge_ts: (now + period_secs) as u64,
                        is_active: true,
                    },
                )
                &&& forall|w: Seq<char>| w != subscriber@ ==> #[trigger] final(self).sub_of(w) == old(self).sub_of(w)
            },
    {
        let next = now + period_secs;
        match self.subs.find(subscriber) {
            Some(_) => {},
            None => {
                let sub = Subscription {
                    subscriber: subscriber.clone(),
                    merchant: merchant.clone(),
                    token: token.clone(),
                    price,
                    period_secs,
                    next_charge_ts: next,
                    is_active: true,
                };
                self.subs.push_new(subscriber.clone(), sub);
            },
        }
    }

    /// The charge that `process` attempts for `subscriber` at `now`, if any.
    pub fn due_charge(&self, subscriber: &String, now: u64) -> (r: Option<DueCharge>)
        requires
            self.wf(),
        ensures
            r is Some <==> (self.sub_of(subscriber@) is Some && is_due(self.sub_of(subscriber@).unwrap(), now)),
            r matches Some(c) ==> {
                let sub = self.sub_of(subscriber@).unwrap();
                &&& c.subscriber == *subscriber
                &&& c.merchant == sub.merchant
                &&& c.token == sub.token
                &&& c.price == sub.price
            },
    {
        match self.subs.find(subscriber) {
            Some(i) => {
                let sub = self.subs.at(i);
                if sub.is_active && now >= sub.next_charge_ts {
                    Some(DueCharge {
                        subscriber: subscriber.clone(),
                        merchant: sub.merchant.clone(),
                        token: sub.token.clone(),
                        price: sub.price,
                    })
                } else {
                    None
                }
            },
            None => None,
        }
    }

    /// Settle the due charge of `subscriber` at `now` with the outcome of its
    /// transfer: on success the next charge moves one period on from the
    /// previous charge time; otherwise nothing changes.
    pub fn process(&mut self, subscriber: &String, now: u64, transfer_ok: bool)
        requires
            old(self).wf(),
            (match old(self).sub_of(subscriber@) {
                Some(s) => is_due(s, now) && transfer_ok ==> s.next_charge_ts + s.period_secs <= u64::MAX,
                None => true,
            }),
        ensures
            final(self).wf(),
            forall|w: Seq<char>| w != subscriber@ ==> #[trigger] final(self).sub_of(w) == old(self).sub_of(w),
            final(self).sub_of(subscriber@) == (match old(self).sub_of(subscriber@) {
                Some(s) => if is_due(s, now) && transfer_ok {
                    Some(Subscription { next_charge_ts: (s.next_charge_ts + s.period_secs) as u64, ..s })
                } else {
                    Some(s)
                },
                None => None,
            }),
    {
        match self.subs.find(subscriber) {
            Some(i) => {
                let mut sub = self.subs.at(i).copy();
                if !sub.is_active || now < sub.next_charge_ts || !transfer_ok {
                    return;
                }
                sub.next_charge_ts = sub.next_charge_ts + sub.period_secs;
                let ghost t0 = self.subs;
                let ghost done = sub;
                self.subs.swap_at(i, &mut sub);
                proof {
                    assert forall|w: Seq<char>| w != subscriber@ implies #[trigger] self.subs.spec_get(w) == t0.spec_get(w) by {
                        if t0.contains(w) && t0.slot(w) == i {
                            t0.lemma_slot_injective(w, subscriber@);
                        }
                    }
                    assert(self.subs.spec_get(subscriber@) == Some(done));
                }
            },
            None => {},
        }
    }

    /// The subscription of `subscriber`, if any.
    pub fn get(&self, subscriber: &String) -> (r: Option<Subscription>)
        requires
            self.wf(),
        ensures
            r == self.sub_of(subscriber@),
    {
        match self.subs.find(subscriber) {
            Some(i) => Some(self.subs.at(i).copy()),
            None => None,
        }
    }

    /// Deactivate `user`'s subscription; it is no longer charged.
    pub fn cancel(&mut self, user: &String)
        requires
            old(self).wf(),
        ensures
            final(self).wf(),
            forall|w: Seq<char>| w != user@ ==> #[trigger] final(self).sub_of(w) == old(self).sub_of(w),
            final(self).sub_of(user@) == (match old(self).sub_of(user@) {
                Some(s) => Some(Subscription { is_active: false, ..s }),
                None => None,
            }),
    {
        match self.subs.find(user) {
            Some(i) => {
                let mut sub = self.subs.at(i).copy();
                sub.is_active = false;
                let ghost t0 = self.subs;
                let ghost done = sub;
                self.subs.swap_at(i, &mut sub);
                proof {
                    assert forall|w: Seq<char>| w != user@ implies #[trigger] self.subs.spec_get(w) == t0.spec_get(w) by {
                        if t0.contains(w) && t0.slot(w) == i {
                            t0.lemma_slot_injective(w, user@);
                        }
                    }
                    assert(self.subs.spec_get(user@) == Some(done));
                }
            },
            None => {},
        }
    }
}

/// A cancelled subscription is never charged again, and subscribing again
/// does not revive it.
pub proof fn law_cancelled_never_charged(s: Subscription, now: u64)
    ensures
        !is_due(Subscription { is_active: false, ..s }, now),
{
}

/// Charging has no deadline: an active subscription is due exactly once its
/// charge time has come, however late the call, stays due until charged, and
/// is never due before its charge time.
pub proof fn law_due_however_late(s: Subscription, now: u64, later: u64)
    ensures
        is_due(s, now) <==> (s.is_active && s.next_charge_ts <= now),
        is_due(s, now) && now <= later ==> is_due(s, later),
        now < s.next_charge_ts ==> !is_due(s, now),
{
}

} // verus!
