//! Analysis and code generation for Alpha, a language of affine systems of equations.

pub mod agreement;
pub mod analyze;
pub mod ast_meaning;
pub mod binding;
pub mod calculator_meaning;
pub mod check_meaning;
pub mod completeness;
pub mod context_names;
pub mod dataflow;
pub mod demand_meaning;
pub mod denotation;
pub mod describe;
pub mod diagnostic;
pub mod domain;
pub mod domain_meaning;
pub mod driver;
pub mod emission;
pub mod error;
pub mod execution;
pub mod expr;
pub mod failure;
pub mod file_meaning;
pub mod function;
pub mod hugr_builder;
pub mod hugr_lowering;
pub mod hugr_primitives;
pub mod index_meaning;
pub mod ir;
pub mod layout;
pub mod legality;
pub mod linear_calls;
pub mod linear_checks;
pub mod linear_meaning;
pub mod linear_questions;
pub mod linear_reads;
pub mod linear_use_meaning;
pub mod linearity;
pub mod macros;
pub mod meaning;
pub mod multiplicity;
pub mod operation;
pub mod polyhedral;
pub mod print_meaning;
pub mod program;
pub mod questions;
pub mod realize;
pub mod realize_meaning;
pub mod reduction_meaning;
pub mod relation;
pub mod report_meaning;
pub mod resolve;
pub mod resolve_meaning;
pub mod scan;
pub mod schedule;
pub mod scheduled_ir;
pub mod scheduledc;
pub mod simplec;
pub mod specialize;
pub mod statement_meaning;
pub mod stmt;
pub mod syntax;
pub mod text;
pub mod text_meaning;
pub mod trace_meaning;
pub mod ty;
pub mod uniqueness;
pub mod use_outputs;
pub mod value;
pub mod walk;
pub mod wrapper;
pub mod wrapper_meaning;
pub mod writec;
