//! The routing configuration and the structures built from it.

pub mod app_config;
pub mod prefix;
pub mod redirection_reader;
pub mod rotation;
pub mod routes;
