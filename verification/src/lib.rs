pub mod text;
pub mod codes;
pub mod address;
pub mod report;
pub mod laws;
