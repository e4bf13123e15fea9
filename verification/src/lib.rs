//! Planning homework over the days before it is due.
pub mod actions;
pub mod auth;
pub mod dates;
pub mod distribute;
pub mod endpoints;
pub mod handlebars_helpers;
pub mod models;
pub mod schedule;
pub mod text;
pub mod wrapper_types;
