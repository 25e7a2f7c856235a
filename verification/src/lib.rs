pub mod cfg;
pub mod composition;
pub mod schedule;
pub mod time;
