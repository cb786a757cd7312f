//! A private, encrypted journal that is read and written over SSH.

pub mod agent;
pub mod allowlist;
pub mod blackbox;
pub mod bytes;
pub mod chat;
pub mod clock;
pub mod config;
pub mod crypto;
pub mod editor;
pub mod hostkey;
pub mod input;
pub mod lines;
pub mod plain;
pub mod server;
pub mod slices;
pub mod text;
pub mod view;

