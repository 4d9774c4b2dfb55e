//! Nebula: the verified core of a small chat client and server.

pub mod packet;
pub mod packet_laws;
pub mod kvp;
pub mod text;
pub mod bytes;
pub mod user_interface;
pub mod data_types;
pub mod postgres_commands;
pub mod server_commands;
pub mod credentials_authenticator;
pub mod server_networking;
pub mod client_networking;
pub mod server_config;
pub mod network_manager;
