//! Runtime assertions for environment variables.
//!
//! The library parses a line-oriented config that declares which environment
//! variables a command needs (`[required]`) or may use (`[optional]`), together
//! with a type for each (`str`, `int`, `float`, `bool`, `any`), checks a given
//! environment against that schema collecting every violation, and splits a
//! single shell-like command string into an argument vector.

pub mod numlit;
pub mod schema;
pub mod strmap;
pub mod text;
pub mod tokenize;
pub mod validate;
pub mod vartype;
