//! The verified core of the studio: the pure state, projections and rules
//! behind the plugin/agent admin panel.

pub mod text;
pub mod error;
pub mod json;
pub mod llm;
pub mod ui;
pub mod windows;
pub mod chat;
pub mod sort;
pub mod plugins;
pub mod studio;
pub mod commands;
