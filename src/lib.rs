pub mod counts;
pub mod errors;
pub mod message;
pub mod parser;
pub mod report;
pub mod stats;
pub mod text;
pub mod time_utils;
