# gcard

Cardinality estimation for graph queries. A query graph is cut into abstract edges, paths and
stars whose degree sequences a catalog knows; what the predicates leave of them is sampled from
the data; and the statistic behind the catalog is kept up to date by a log of changes.

- `src/` is the library. Its functions state in their contracts what they return, and Verus proves
  it. What is not proved is what the calls out of the library do: those into `rand` and `dashmap`
  stand in `src/chance.rs`, those of the standard library on text in `src/text.rs`, each behind a
  function that says what is taken for granted. Of what a random generator yields nothing is: the
  contracts hold for every outcome.
- `app/` holds the floating-point arithmetic on what the library counts and samples, the files
  that queries and statistics are kept in, and the entry points.
- `tests/` runs the library on concrete values.

Where to start reading:

| Topic | Modules |
| --- | --- |
| Query graphs and their predicates | `query`, `value` |
| Connection, spanning trees, ranked trees | `connect`, `union_find`, `spanning`, `optimal`, `trees`, `ranking` |
| Paths and abstract edges | `paths`, `abstraction`, `decompose`, `decompositions`, `assembly`, `filling`, `closing` |
| Stars | `stars`, `branches`, `matching`, `extraction`, `raw_stars`, `sampling` |
| Data and walks through it | `flat`, `path_query`, `walks`, `estimate` |
| Joins by wandering | `wander_join`, `wander_plans`, `wander_sampling` |
| Statistics and their upkeep | `pattern`, `statistic`, `updates`, `star_updates`, `sequences`, `catalog`, `update_log`, `compaction`, `catch_up` |
| Random changes and tables | `pending`, `random_insert`, `random_update`, `csv` |
| Checkpoints | `memory_graph`, `checkpoint` |

A floating-point decision inside an algorithm (whether walks differ too much, which plan to
follow, how large a share is) is a function that the caller hands in; the contracts say what holds
for every such function.
