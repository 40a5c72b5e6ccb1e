pub mod json;
pub mod middle;
pub mod multiple_and;
pub mod useless_chaining;
pub mod useless_chaining_laws;
pub mod useless_chaining_causes;
