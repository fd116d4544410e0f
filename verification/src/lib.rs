//! The logic of the `argand` signal viewer that does not need a window:
//! menu navigation, compute budgets, numeric presentation, the recent-file
//! list and the rest of what the front end decides rather than draws.

pub mod analysis;
pub mod app_menu;
pub mod execution;
pub mod orientation;
pub mod cpu;
pub mod text;
pub mod document;
pub mod numeric_locale;
pub mod recent;
pub mod navigation;
pub mod keys;
pub mod settings;
pub mod settings_editor;
pub mod session;
pub mod config;
pub mod icu;
pub mod numbers;
