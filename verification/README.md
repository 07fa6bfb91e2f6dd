# kyzo_query

The query core of a bitemporal Datalog engine, written in Verus: executable Rust
whose behaviour is stated in contracts and proved.

## What is where

| Part | Modules |
| --- | --- |
| Values, their total order, sets and maps | `order`, `value` |
| Versioned facts, reads at a coordinate, intervals, changes | `history`, `history_law`, `spans`, `delta`, `asof`, `instants` |
| Aggregations, the stores of rules, epochs | `aggr`, `temp_store`, `epoch` |
| Expressions, row by row and by column | `expr`, `vm`, `resolve`, `bounds`, `text` |
| Plans: building, compiling, rewriting, explaining | `names`, `plan`, `compile`, `pushdown`, `eliminate`, `explain` |
| Plans: what they mean and how they run | `meaning`, `answer`, `stream`, `steps`, `negate`, `probe`, `table_probe`, `run` |
| Plans in batches | `batch`, `groups`, `columns`, `segment`, `batch_join`, `batched` |
| Datalog programs, strata, preparation | `program`, `depend`, `strata`, `arity`, `prepare`, `fixed` |
| Rules: matching, derivations, proofs of facts | `unify`, `model_body`, `proof_tree`, `provenance`, `witness` |
| Standing queries | `standing` |
| The text of queries | `lex`, `script` |
| Drawn programs and histories | `rng`, `generate`, `gen_rules`, `reach` |

Laws that relate several functions are public proof functions whose names begin
with `law_`; many stand in modules whose names end in `_law`.

A plan has two descriptions: `meaning` gives the stream it yields, rows and
failures each in their place, and `answer` gives the set of rows it stands for. The
executable operators are proved against the first, and the laws connect both.
