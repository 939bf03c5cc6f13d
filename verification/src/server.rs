pub mod config;
pub mod request;
pub mod request_handler;
pub mod response;
pub mod status_code;
