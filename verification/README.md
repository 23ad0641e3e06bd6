# tig_innovator

Verified core of a set of algorithms for The Innovation Game challenges.

- `src/knapsack_model.rs` — quadratic knapsack instances, selections and
  their values as spec functions, with the lemmas about them.
- `src/ironclad_swap.rs` — the `ironclad_swap` search: greedy start,
  steepest ascent over swaps and additions, weakest-first kicks with greedy
  refill, best-so-far tracking.
- `src/knapsack_laws.rs` — properties of the search stated over the model.
- `src/optigrid.rs` — the integer decisions of the `optigrid`
  energy-arbitrage policies (ensemble dispatch, forecast windows).
- `app/` — the challenge adapters and benchmark harness: conversion from
  `tig-challenges` types, floating-point ranking and policies, I/O.
