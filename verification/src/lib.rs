mod text;
pub mod lexer;
pub mod parser;
pub mod earlier;
pub mod prefix;
pub mod spacing;
pub mod spelling;
pub mod lexing_laws;
pub mod parsing_laws;
pub mod vm;
pub mod evaluation;
pub mod loops;
pub mod statements;
