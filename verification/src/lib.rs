//! Flattening of PDF annotations into page content.
pub mod model;
pub mod text;
pub mod i18n;
pub mod pdf;
pub mod app;
pub mod ui;
