pub mod ewmh;
pub mod connection;
