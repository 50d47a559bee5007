//! Template substitution: `${name}` placeholders resolved against two
//! layers of variables, `#{expression}` markers evaluated as arithmetic,
//! and `!{directive}` markers filled by generators.

pub mod arithmetic;
pub mod error;
pub mod generator;
pub mod independence;
pub mod layer;
pub mod pipeline;
pub mod resolver;
pub mod scanner;
pub mod text;

pub use arithmetic::OnExpressionError;
pub use error::SubstituteError;
pub use generator::evaluate_expression;
pub use layer::VariableLayer;
pub use pipeline::{substitute, substitute_with, Options};
pub use resolver::manual_substitute;
pub use scanner::substitute_expressions;
