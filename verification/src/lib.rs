pub mod text;
pub mod html;
pub mod mime;
pub mod models;
pub mod query;
pub mod order;
pub mod config;
pub mod connection;
pub mod smtp;
pub mod ui;
pub mod session;
