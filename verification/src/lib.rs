//! The relational-algebra evaluator of a Datalog query engine.

pub mod bounds;
pub mod bounds_in_time;
pub mod bounds_sound;
pub mod bytecode;
pub mod elimination;
pub mod equivalences;
pub mod error;
pub mod eval;
pub mod expr;
pub mod imperative;
pub mod join;
pub mod join_members;
pub mod join_scan;
pub mod materialize;
pub mod passes;
pub mod path;
pub mod plan;
pub mod pushdown;
pub mod pushdown_left;
pub mod pushdown_right;
pub mod ra;
pub mod rows;
pub mod scan;
pub mod semantics;
pub mod skip_scan;
pub mod sorted;
pub mod sqlite;
pub mod store;
pub mod strategies;
pub mod symbol;
pub mod tuple;
pub mod unit_join;
pub mod validity;
pub mod value;
pub mod widths;
