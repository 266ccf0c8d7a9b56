//! Loader for `.env`-style configuration files.

mod exception;
mod parser;
mod envmap;
mod lexer;
mod text;

pub use envmap::EnvMap;
pub use exception::Exception;
pub use parser::resolve_environment;
pub use parser::Dotenv;
