pub mod db;
pub mod json;
pub mod server;
