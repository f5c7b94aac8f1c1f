pub mod reader;
pub mod types;
