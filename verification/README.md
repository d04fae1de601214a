# Spatter

An RDD engine in Verus: partitioned datasets that are derived lazily, aggregated by key through
shuffles, and computed on threads or on the ranks of a cluster.

- `src/` is the library, verified: datasets and their evaluation (`dataset`, `shuffled`, `rdd`,
  `keyed`, `grouping`), the shuffle (`combine`, `shuffle`, `chunks`, `spill`, `key`), stages
  (`dag`), contexts, text ranges (`source`), the rules of task execution and what is counted of it
  (`exec`, `jobs`, `metrics`), and the cluster's messages and decisions (`wire`, `cluster`,
  `exchange`, `dispatch`, `bootstrap`).
  Laws that span several functions stand in `laws`, `chains`, `folds`, `grouping`, `source`,
  `chunks`, `spill`, `dag`, `exec`, `cluster`, `exchange` and `dispatch`.
- `app/` is the engine around it: threads, sockets, files, processes, the environment.
- `tests/` exercise the library on concrete values.

What is not proved: the codec (`bincode`) writes and reads the byte layouts that `wire` states,
and `String::push` and `String::from_utf8` do what their documentation says. Of the clock nothing
is said but that it was read. Each of these stands behind an item whose comment says so.

Reducers for aggregation by key should be associative: then results do not depend on how the
input is partitioned or when a task spills (`laws::lemma_aggregate_by_key`,
`folds::lemma_limits_reduce_alike`).
