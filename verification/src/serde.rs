//! Writing values back as COSY text, and the value side of the Serde data model.
pub mod serializer;
pub mod data;
