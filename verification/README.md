# Loopy

Loopy performs loopy belief propagation on factor graphs. The library in
`src/` is written in Verus: every executable function carries a contract,
and the contracts are proved.

## Layout

- `src/variable.rs`, `src/variable/` — variables, their domains and
  identifiers.
- `src/factor.rs`, `src/factor/` — dense, unary and scalar factors, their
  combination, reduction, normalization and distance. Dense tables are kept
  in row-major order; `layout.rs` holds the index arithmetic they rest on.
- `src/algebra.rs` — the value algebra of an inference regime, passed as
  closures (product, sum, quotient, unit) together with a residual measure.
- `src/factor_graph.rs` — the factor graph, with unique variable names and
  per-variable adjacency lists.
- `src/message.rs`, `src/message/` — directed edges, messages and the
  message store with its adjacency indices.
- `src/belief_state.rs` — a graph together with its messages, and beliefs.
- `src/schedule.rs`, `src/schedule/` — message updates and the synchronous
  schedule, one iteration at a time or until convergence.
- `app/` — floating-point log-space algebras (sum-product and max-product),
  conversions to and from `ndarray` arrays, and default run options.

## What is proved

Beyond the contracts of each function, the library states and proves, among
others:

- a synchronous iteration computes every message from the messages at the
  start of the iteration, and a run stops exactly when a residual is within
  the tolerance or the iteration limit is reached;
- the message store's adjacency lists follow the graph: the messages of a
  factor follow its scope, those of a variable follow its adjacency list;
- a belief, when present, is a unary factor over the queried variable;
- combining factors yields a factor over the union of their scopes, and
  eliminating variables outside a scope leaves a factor's table unchanged.
