// An evaluator of arithmetic expressions over `+ - * / % ^` and parentheses:
// the text is read into operands and operators, and these are grouped by
// precedence into the shape of the evaluation.

pub mod command;
pub mod expr;
pub mod graph;
pub mod scan;

pub use command::is_quit;
pub use expr::{check_priority, evaluate, Expr};
pub use graph::{substitute, GraphInput};
pub use scan::{check_paren_count, is_sym, ParseError, Reduction, Scanner};
