//! Test feedstock: templates parsed from JSON Schemas, and documents drawn
//! from them.
pub mod chaos;
pub mod corpus;
pub mod draft;
pub mod instantiate;
pub mod random;
pub mod schema;
pub mod shape;
pub mod templates;
pub mod words;
