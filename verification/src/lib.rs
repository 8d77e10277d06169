//! Screen translator core: caches, text normalization, translation response
//! parsing, frame-change detection and the per-region session logic.
pub mod cache;
pub mod clock;
pub mod text;
pub mod translation;
pub mod types;
pub mod config;
pub mod session;
pub mod image;
pub mod diff;
pub mod capture;
pub mod layout;
pub mod ocr;
pub mod ui;
