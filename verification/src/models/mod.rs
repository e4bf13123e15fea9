//! The records the application stores and shows.
pub mod class;
pub mod homework;
pub mod hw_progress;
pub mod user;
