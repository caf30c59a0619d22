pub mod ast;
pub mod environment;
pub mod interpreter;
pub mod laws;
pub mod parser;
pub mod pipeline;
pub mod scanner;
pub mod syntax;
pub mod text;
pub mod token;
pub mod value;

pub use ast::{Expr, Stmt};
pub use environment::Environment;
pub use interpreter::Interpreter;
pub use parser::Parser;
pub use pipeline::run;
pub use scanner::{is_alpha, is_alpha_numeric, is_digit, Scanner};
pub use token::{Token, Tokentype};
pub use value::{bool, is_truthy, FloatArith, Object};
