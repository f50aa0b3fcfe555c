pub mod header;
pub mod processing;
pub mod response;
pub mod strutil;
