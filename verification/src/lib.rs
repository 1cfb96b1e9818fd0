pub mod assoc;
pub mod json;
pub mod laws;
pub mod store;
pub mod text;
