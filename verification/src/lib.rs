//! Verified core of Sheaf, an open-source PDF reader and editor.
//!
//! The library holds the decisions that the desktop application makes around
//! its PDF engine: which installation a running copy belongs to, which
//! directories may be deleted and in what order, how identities, signatures
//! and encryption settings are described, how XFDF form data is read and
//! written, and how the undo history of an open document evolves.
pub mod text;
pub mod paths;
pub mod error;
pub mod windows_install;
pub mod local_data;
pub mod macos_uninstall;
pub mod desktop_integration;
pub mod security;
pub mod engine;
pub mod edit;
pub mod tools;
pub mod xfdf;
pub mod forms;
