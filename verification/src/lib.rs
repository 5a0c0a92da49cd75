//! The logic of a downloader of media files with a local search index:
//! normalisation of names and queries, an index of roots and files with its
//! mutation commands, ranked substring search with metadata filters, the
//! decisions of the scanner and the watcher that keep the index in step with
//! the file system, and the rules of the program's settings, paths and log.

pub mod animethemes;
pub mod app_logger;
pub mod app_state;
pub mod consistency;
pub mod db;
pub mod decimal;
pub mod download;
pub mod engine;
pub mod index;
pub mod json;
pub mod links;
pub mod normalize;
pub mod pathkey;
pub mod paths;
pub mod query;
pub mod query_sql;
pub mod records;
pub mod scanner;
pub mod settings;
pub mod settings_ui;
pub mod text;
pub mod theme_api;
pub mod watcher;
