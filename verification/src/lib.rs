pub mod text;
pub mod combos;
pub mod engine;
pub mod writer;
pub mod cleaning;
pub mod loader;
pub mod matcher;
pub mod config;
pub mod storage;
pub mod output_index;
pub mod error;
pub mod xlsx_guard;
pub mod upstream;
pub mod auth;
pub mod turnstile;
pub mod routes;
