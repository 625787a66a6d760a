//! A minimal, dependency-free JSON value model with a recursive-descent
//! parser and a matching serializer.
//!
//! The tree type [`Json`] is built either programmatically (`Json::new`
//! plus `Json::add`) or by `Json::parse` over raw input bytes; it is
//! queried with `Json::get` / `Json::get_mut` and rendered back to text
//! with `Json::print`.

pub mod laws;
pub mod model;
pub mod parser;
pub mod printer;

pub use model::Json;
pub use model::JsonView;
