//! A small relational store: a command language for schemas and rows, and a
//! compact binary encoding in which catalogs and table contents are kept.

pub mod column_definition;
pub mod command_parser;
pub mod database;
pub mod database_manager;
pub mod file_manager;
pub mod parser;
pub mod semantic_processor;
pub mod table_definition;
pub mod table_manager;
pub mod text;
pub mod token;
pub mod wire;
