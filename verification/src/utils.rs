//! Board geometry shared by the rules: bounds and orthogonal neighbours.

pub mod adjacencies;
pub mod bounds;
