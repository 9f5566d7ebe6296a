//! The core of a dashboard for a fleet of hosts: where a host is, what the
//! snapshot of the fleet holds, which disks call for an alert, and what the
//! server does to its state, all with their contracts. Reaching the hosts,
//! serving the dashboard and delivering the alerts is left to the program
//! around this library.

pub mod alert;
pub mod clock;
pub mod config;
pub mod data;
pub mod fetch;
pub mod ips;
pub mod server;
