pub mod ast;
pub mod chain;
pub mod chaining_laws;
pub mod useless_chaining;
pub mod chaining_causes;
