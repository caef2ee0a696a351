//! A single view over the units of a service supervisor.
//!
//! A [`usecases::services_manager::ServicesManager`] owns one backend, the
//! [`domain::service_repository::ServiceRepository`], passes lifecycle requests
//! through to it, reloads the supervisor after enabling or disabling a unit,
//! and merges the backend's two enumerations into one listing without
//! duplicates, in a fixed order.
pub mod domain;
pub mod text;
pub mod usecases;
