pub mod balances;
pub mod chains;
pub mod controllers;
pub mod daemons;
