pub mod errors;
pub mod helpers;
pub mod lexer;
pub mod parser;
pub mod scan;
pub mod tokens;

pub use parser::Parser;
pub use scan::Scanner;
