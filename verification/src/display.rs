//! Display rendering utilities

pub mod commands;
pub mod area;
pub mod field;
pub mod text;
pub mod static_text;
pub mod dynamic_text;
pub mod input;
pub mod scores;
