//! What the operations of the library are for, stated over their inputs and results.
pub mod contexts;
pub mod crates;
pub mod features;
pub mod lines;
pub mod offers;
pub mod scanning;
pub mod tables;
pub mod texts;
