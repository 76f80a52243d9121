# subscription

Recurring payments on Soroban, with the billing rules proved in Verus.

A merchant registers a service (price, billing period, optional trial,
number of periods a subscriber pre-approves). Subscribers subscribe, get at
most one trial per service, pay the first period up front otherwise, and
approve the contract to charge later periods. The merchant bills due
subscriptions in batches. Each subscription keeps a record of the share of
the subscriber's token allowance it reserved, so cancelling one subscription
gives back exactly its share and leaves the others billable. Indexes of
services and subscriptions are split into pages of fixed size, with reverse
pointers so that a removal in the library touches a constant number of
pages. (The contracts in `app/` currently store the whole state as one
entry, so on chain every call reads and writes all of it.) The admin
role moves in two steps, and code upgrades wait out a seven-day timelock.

## Layout

- `src/` — the verified library.
  - `ttl.rs`: storage-lifetime windows and the allowance expiration ledger.
  - `types.rs`: errors, records, ledger facts, token calls.
  - `paging.rs`: the paged index with swap-with-tail removal.
  - `table.rs`: a table keyed by account address.
  - `contract.rs`: the subscription contract over an abstract model
    (`ContractModel`); every operation's contract is stated over that model.
  - `consistency.rs`: the storage invariant every operation keeps.
  - `laws.rs`: properties relating several operations.
  - `example.rs`: a minimal one-subscription-per-subscriber contract.
  - `nft.rs`: the per-owner list of minted token ids of an NFT collection.
- `tests/` — executable tests of the library.
- `app/` — the Soroban contracts: authorisation, storage, ledger facts,
  token calls (the library returns the calls to make and takes back their
  outcomes), events, TTL extension and code upgrades.
