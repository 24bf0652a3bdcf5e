pub mod config;
pub mod contact_search;
pub mod dem;
pub mod equations;
pub mod fixed;
pub mod history;
pub mod integrator;
pub mod particle;
pub mod save_data;
