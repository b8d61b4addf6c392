//! Loads `sysctl.conf(5)`-style files into nested namespaces, and checks them
//! against a type schema written in the same syntax.

pub mod config;
pub mod error;
pub mod literal;
pub mod parser;
pub mod report;
pub mod schema;
pub mod text;
pub mod value;

pub use config::Config;
pub use error::ParseError;
pub use parser::parse_str;
pub use schema::{Schema, SchemaParseError, Type, ValidationError};
pub use value::{Value, ValueMap};
