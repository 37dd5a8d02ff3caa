//! Gradient synchronisation for distributed data parallel training.

pub mod channel;
pub mod collective;
pub mod laws;
pub mod model;
pub mod rounds;
pub mod server;
pub mod team;
pub mod types;
pub mod worker;
pub mod worker_laws;
