//! The logic of a desktop study assistant: reading course documents, cutting texts into
//! questions, asking models about them, reading their replies, and writing the answers down.
//! What is read from the network, the disk, the clipboard and the database comes in as plain
//! values, and what is to be written there goes out as plain values.

pub mod ai;
pub mod answers;
pub mod capture;
pub mod db;
pub mod documents;
pub mod error;
pub mod exporter;
pub mod models;
pub mod parser;
pub mod patterns;
pub mod payload;
pub mod questions;
pub mod service;
pub mod settings;
pub mod solving;
pub mod stamp;
pub mod text;
