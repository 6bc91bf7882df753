//! Sorts photos into dated folders.

pub mod adaptive;
pub mod calendar;
pub mod cities;
pub mod cli;
pub mod companion;
pub mod components;
pub mod config;
pub mod dates;
pub mod dedup;
pub mod error;
pub mod execute;
pub mod folders;
pub mod formats;
pub mod geocode;
pub mod guarantees;
pub mod journal;
pub mod metadata;
pub mod nearest;
pub mod paths;
pub mod plan;
pub mod presets;
pub mod questions;
pub mod report;
pub mod safety;
pub mod sanitize;
pub mod scan;
pub mod spill;
pub mod tables;
pub mod tags;
pub mod template;
pub mod text;
pub mod transfer;
pub mod twins;

pub use config::Options;
pub use error::{FatalError, FileError, Result, TemplateError};
