pub mod byte_map;
pub mod egress;
pub mod handle_connection;
pub mod memory_database;
pub mod temple;
pub mod wish;
