pub mod error;
pub mod filter;
pub mod timesheet;
pub mod token;
