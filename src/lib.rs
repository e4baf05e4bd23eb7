pub mod branch;
pub mod report;
pub mod time_format;
