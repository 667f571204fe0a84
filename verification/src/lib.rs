//! Lucifer: a small web server library with its own HTTP handling, routing and middleware.
pub mod http;
pub mod str_map;
pub mod text;
pub mod router;
pub mod middleware;
pub mod handler;
