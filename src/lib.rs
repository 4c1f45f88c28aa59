pub mod backbone;
pub mod cnf;
pub mod dimacs;
pub mod laws;
pub mod problem;
pub mod reader;
pub mod solvers;

pub use backbone::{BackboneError, BackboneSearch, EvaluationResult, SearchState, VariableValue};
pub use cnf::{CnfClause, CnfSat, SatModel, SatVariable};
pub use reader::AnswerError;
pub use solvers::{parse_solver, Solver};
