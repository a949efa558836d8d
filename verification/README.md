# dre

Decentralization analysis of Internet Computer subnets and node-provider reward computation,
verified with Verus.

- `src/` is the verified library. Among its parts:
  - `nakamoto.rs`, `score.rs`, `compare.rs`, `features.rs`: Nakamoto coefficients of node
    features and how scores compare.
  - `rules.rs`: the business rules of a subnet (penalties and messages).
  - `selection.rs`, `resize.rs`, `request.rs`, `change.rs`, `response.rs`: growing and shrinking
    subnets one best node at a time, and the changes that result.
  - `heal.rs`: healing and optimizing the subnets of a network.
  - `registry.rs`, `nodes_manager.rs`, `metrics_store.rs`, `node_metrics_store.rs`,
    `daily_metrics.rs`, `rewards_*.rs`, `provider_rewards.rs`, `reward_period.rs`, `dates.rs`:
    registry data, node metrics and the rewards computed from them.
  - `calculator.rs`: a node provider's rewards from its nodes' performance: daily failure rates
    relative to their subnets', extrapolated ones, performance multipliers and adjusted rewards.
  - `dec.rs`: fixed-point decimals computed by `rust_decimal`.
- `tests/` holds the tests of the library.
- `app/` holds what is not verified: the text rendering of scores with floating-point averages
  and tables.
