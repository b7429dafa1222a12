pub mod commands;
pub mod date;
pub mod format;
pub mod handle;
pub mod list;
pub mod media;
pub mod parser;
pub mod repo;
pub mod round_trip;
pub mod text;
