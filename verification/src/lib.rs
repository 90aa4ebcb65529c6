//! A small DNS server for a home network: it reads the question of a query,
//! answers local hosts itself, refuses blocked names and forwards the rest.
pub mod dns;
pub mod text;
pub mod wifi;
pub mod wire;
