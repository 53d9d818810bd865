pub mod server_actor;
