//! COSY: Comfortable Object Syntax, Yay!
//!
//! A human-friendly configuration format: comments, unquoted keys, optional
//! commas, key order preservation, deep merging, file composition through
//! `extends` and `include` directives, and schema checks.
pub mod error;
pub mod text;
pub mod value;
pub mod equality;
pub mod inclusion;
pub mod load;
pub mod merge;
pub mod schema;
pub mod serde;
pub mod syntax;
pub mod roundtrip;

pub use error::CosynError;
pub use value::Value;
pub use syntax::parser::{ParseError, from_str};
pub use load::load_and_merge;
pub use serde::serializer::{SerializeOptions, to_string, to_string_with_options};
pub use inclusion::resolve as resolve_includes;
pub use merge::merge;
pub use schema::validate;
