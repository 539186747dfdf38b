//! Schema-driven editing of structured configuration documents.
pub mod navigator;
pub mod plugin;
pub mod scheme;
pub mod text;
pub mod validate;
pub mod value;
