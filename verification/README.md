# fantoch

Pieces of a framework for evaluating geo-replicated consensus protocols,
written in Verus with their behaviour stated as contracts and proved.

- `src/id.rs`: identifiers and their generators.
- `src/executor.rs`: the bookkeeping of an executor that hands results back
  to the clients of its process.
- `src/search.rs` and `src/search/`: the search for deployments (sets of
  regions) on which Atlas improves most on FPaxos, its ranking of
  configurations of each size, and of evolving configurations of 3 to 13
  regions; `stored.rs` rebuilds a search from its saved parts, and `laws.rs`
  states properties that relate several searches or rankings.
- `src/stats.rs`, `src/region.rs`, `src/order.rs`, `src/text.rs`,
  `src/combination.rs`: latency statistics, regions and their order, text,
  and the enumeration of combinations (through the `permutator` crate).
- `src/exp_data.rs`: the precision in which experiment latencies are kept.
- `app/`: saving and loading searches as JSON and printing progress, around
  the library.
