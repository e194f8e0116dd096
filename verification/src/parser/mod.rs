//! The markup parser: values, traits, attributes and tags.

pub mod attributes;
pub mod errors;
pub mod ordered;
pub mod scan;
pub mod tags;
pub mod traits;
pub mod values;
