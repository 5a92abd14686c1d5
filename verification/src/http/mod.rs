pub mod error;
pub mod request;
pub mod response;
