pub mod connection_type;
pub mod service;
pub mod service_repository;
pub mod service_state;
