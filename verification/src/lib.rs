pub mod calendar;
pub mod clock;
pub mod config;
pub mod interval;
pub mod loader;
pub mod model;
pub mod parser;
pub mod state;
pub mod summary;
pub mod text;
