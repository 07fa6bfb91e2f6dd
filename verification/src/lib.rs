//! The query core of a bitemporal Datalog engine: values and their total
//! order, epoch stores, temporal resolution and diffing, expression
//! evaluation, relational-algebra plans and the reference Datalog model.

pub mod aggr;
pub mod answer;
pub mod answer_law;
pub mod arity;
pub mod asof;
pub mod asof_law;
pub mod batch;
pub mod batch_join;
pub mod batched;
pub mod batched_law;
pub mod bounds;
pub mod columns;
pub mod compile;
pub mod delta;
pub mod delta_law;
pub mod depend;
pub mod derive_law;
pub mod drawn_facts;
pub mod drawn_law;
pub mod eliminate;
pub mod eliminate_law;
pub mod epoch;
pub mod epoch_law;
pub mod explain;
pub mod expr;
pub mod expr_law;
pub mod fixed;
pub mod fold_law;
pub mod gen_law;
pub mod gen_rules;
pub mod generate;
pub mod groups;
pub mod history;
pub mod history_law;
pub mod instants;
pub mod instants_law;
pub mod least;
pub mod lex;
pub mod lex_law;
pub mod meaning;
pub mod meet_law;
pub mod model_body;
pub mod names;
pub mod negate;
pub mod negate_law;
pub mod order;
pub mod order_law;
pub mod plan;
pub mod plan_law;
pub mod prepare;
pub mod prepare_law;
pub mod probe;
pub mod probe_law;
pub mod program;
pub mod proof_tree;
pub mod provenance;
pub mod provenance_law;
pub mod pushdown;
pub mod reach;
pub mod resolve;
pub mod rng;
pub mod run;
pub mod script;
pub mod script_law;
pub mod seam;
pub mod search_law;
pub mod segment;
pub mod spans;
pub mod standing;
pub mod standing_law;
pub mod steps;
pub mod strata;
pub mod strata_law;
pub mod stream;
pub mod table_probe;
pub mod tamper_law;
pub mod temp_store;
pub mod text;
pub mod unify;
pub mod value;
pub mod vm;
pub mod witness;
