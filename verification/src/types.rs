use vstd::prelude::*;

verus! {

/// Errors returned by the subscription contract.
#[derive(Copy, Clone, Debug, PartialEq, Eq, Structural)]
pub enum ContractError {
    InvalidPrice,
    InvalidPeriod,
    AlreadySubscribed,
    SubscriptionNotFound,
    ServiceNotFound,
    Unauthorized,
    AlreadyCancelled,
    TimestampOverflow,
    NotServiceOwner,
    InvalidServiceName,
    SubscriptionExpired,
    ServiceNotActive,
    NoAdminProposed,
    NotProposedAdmin,
    NoUpgradeProposed,
    UpgradeTimelockNotElapsed,
    UpgradeAlreadyPending,
}

/// The numeric code under which each error is published on chain.
pub open spec fn error_code_spec(e: ContractError) -> u32 {
    match e {
        ContractError::InvalidPrice => 1,
        ContractError::InvalidPeriod => 2,
        ContractError::AlreadySubscribed => 3,
        ContractError::SubscriptionNotFound => 4,
        ContractError::ServiceNotFound => 5,
        ContractError::Unauthorized => 6,
        ContractError::AlreadyCancelled => 7,
        ContractError::TimestampOverflow => 8,
        ContractError::NotServiceOwner => 9,
        ContractError::InvalidServiceName => 10,
        ContractError::SubscriptionExpired => 11,
        ContractError::ServiceNotActive => 12,
        ContractError::NoAdminProposed => 13,
        ContractError::NotProposedAdmin => 14,
        ContractError::NoUpgradeProposed => 15,
        ContractError::UpgradeTimelockNotElapsed => 16,
        ContractError::UpgradeAlreadyPending => 17,
    }
}

impl ContractError {
    /// The on-chain error code of this error.
    pub fn code(&self) -> (c: u32)
        ensures
            c == error_code_spec(*self),
    {
        match self {
            ContractError::InvalidPrice => 1,
            ContractError::InvalidPeriod => 2,
            ContractError::AlreadySubscribed => 3,
            ContractError::SubscriptionNotFound => 4,
            ContractError::ServiceNotFound => 5,
            ContractError::Unauthorized => 6,
            ContractError::AlreadyCancelled => 7,
            ContractError::TimestampOverflow => 8,
            ContractError::NotServiceOwner => 9,
            ContractError::InvalidServiceName => 10,
            ContractError::SubscriptionExpired => 11,
            ContractError::ServiceNotActive => 12,
            ContractError::NoAdminProposed => 13,
            ContractError::NotProposedAdmin => 14,
            ContractError::NoUpgradeProposed => 15,
            ContractError::UpgradeTimelockNotElapsed => 16,
            ContractError::UpgradeAlreadyPending => 17,
        }
    }
}

/// Distinct errors carry distinct codes.
pub proof fn lemma_error_codes_distinct(a: ContractError, b: ContractError)
    ensures
        error_code_spec(a) == error_code_spec(b) <==> a == b,
{
}


/// A billable plan offered by a merchant.
#[derive(Clone, Debug, PartialEq)]
pub struct Service {
    pub service_id: u64,
    /// Account address of the merchant (strkey form).
    pub merchant: String,
    pub name: String,
    pub price: i128,
    pub period_secs: u64,
    pub trial_period_secs: u64,
    pub approve_periods: u64,
    pub is_active: bool,
    pub created_at: u64,
}

impl Service {
    /// A field-by-field copy.
    pub fn copy(&self) -> (r: Service)
        ensures
            r == *self,
    {
        Service {
            service_id: self.service_id,
            merchant: self.merchant.clone(),
            name: self.name.clone(),
            price: self.price,
            period_secs: self.period_secs,
            trial_period_secs: self.trial_period_secs,
            approve_periods: self.approve_periods,
            is_active: self.is_active,
            created_at: self.created_at,
        }
    }
}

/// One subscriber's subscription to one service.
#[derive(Clone, Debug, PartialEq)]
pub struct Subscription {
    pub sub_id: u64,
    /// Account address of the subscriber (strkey form).
    pub subscriber: String,
    pub service_id: u64,
    pub price: i128,
    pub period_secs: u64,
    pub trial_period_secs: u64,
    pub trial_end_ts: u64,
    pub auto_renew: bool,
    pub service_end_ts: u64,
    pub next_charge_ts: u64,
    pub created_at: u64,
}

impl Subscription {
    /// A field-by-field copy.
    pub fn copy(&self) -> (r: Subscription)
        ensures
            r == *self,
    {
        Subscription {
            sub_id: self.sub_id,
            subscriber: self.subscriber.clone(),
            service_id: self.service_id,
            price: self.price,
            period_secs: self.period_secs,
            trial_period_secs: self.trial_period_secs,
            trial_end_ts: self.trial_end_ts,
            auto_renew: self.auto_renew,
            service_end_ts: self.service_end_ts,
            next_charge_ts: self.next_charge_ts,
            created_at: self.created_at,
        }
    }
}

/// Outcome counts of one billing batch.
#[derive(Clone, Copy, Debug, PartialEq, Eq, Structural)]
pub struct ProcessResult {
    pub charged: u32,
    pub failed: u32,
    pub skipped: u32,
    pub total: u32,
}

/// Reverse pointer of a subscription: the pages holding it in the service's
/// and in the subscriber's index.
#[derive(Clone, Copy, Debug, PartialEq, Eq, Structural)]
pub struct SubIndex {
    pub service_page: u32,
    pub subscriber_page: u32,
}

/// A queued code upgrade and the earliest time it may be applied.
#[derive(Clone, Copy, Debug, PartialEq, Eq)]
pub struct PendingUpgrade {
    pub wasm_hash: [u8; 32],
    pub apply_after_ts: u64,
}

/// Ledger facts read by the contract during one call.
#[derive(Clone, Copy, Debug, PartialEq, Eq, Structural)]
pub struct LedgerInfo {
    /// Close time of the current ledger, in seconds.
    pub timestamp: u64,
    /// Sequence number of the current ledger.
    pub sequence: u32,
    /// Largest TTL, in ledgers, that the network allows.
    pub max_ttl: u32,
}

/// A call the contract makes on the billing token, with the contract itself
/// as spender. The embedding application performs these in order.
#[derive(Clone, Debug, PartialEq)]
pub enum TokenCall {
    /// `approve(owner, contract, amount, expiration_ledger)`.
    Approve { owner: String, amount: i128, expiration_ledger: u32 },
    /// `transfer(from, to, amount)`.
    Transfer { from: String, to: String, amount: i128 },
}

} // verus!
