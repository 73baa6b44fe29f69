pub mod hashing;
pub mod parser;
pub mod stats;
pub mod table;
pub mod laws;
pub mod report;
