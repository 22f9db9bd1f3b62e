pub use crate::compiler::{FilterError, RuleError};
pub use crate::parser::{ParseError, SyntaxError};
