# soroscope

Verified core of the SoroScope contracts and webhook service.

- `src/` is the library, written in Verus and verified:
  - `wide.rs`: `a * b / d` on 128-bit integers through a 256-bit product.
  - `fixed.rs`: 18-decimal fixed-point numbers (product, difference, `exp`).
  - `staking.rs`: staking with continuously compounding rewards whose rate
    decays per epoch; every entry point is specified over `spec_*` functions,
    with conservation laws for the total stake.
  - `oracle.rs`: median price aggregation with staleness and outlier rejection.
  - `cross_chain.rs`: Merkle-proof verification of domain-separated payloads
    with one-time nonces.
  - `webhooks.rs`: subscription validation and matching, HMAC-SHA256 request
    signatures, and the retry schedule and decisions of a delivery.
- `app/` holds what the library leaves to its host: the Soroban contract
  entry points (storage, authorization, token transfers, events, calls to
  other contracts) and the async webhook worker (queue, HTTP, sleeping).
- `tests/` runs the library on concrete scenarios.
