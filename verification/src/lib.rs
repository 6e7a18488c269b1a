pub mod cache;
pub mod coord;
pub mod index;
pub mod scanner;
pub mod versions;
pub mod strutil;
