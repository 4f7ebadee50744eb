pub mod jobs;
pub mod methods;
pub mod migrations;
pub mod natural;
pub mod types;
pub mod utils;
