pub mod text;
pub mod templates;
pub mod logger;
