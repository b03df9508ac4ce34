pub mod monitor;
pub mod monitor_laws;
