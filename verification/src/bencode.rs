pub mod character_processor;
pub mod compose;
pub mod decoder;
pub mod encoding;
pub mod handlers;
pub mod json;
pub mod number;
pub mod paths;
pub mod shape;
pub mod types;
