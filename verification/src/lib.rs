pub mod text;
pub mod pdf;
pub mod error;
pub mod types;
pub mod gemini;
pub mod json;
pub mod job;
pub mod html;
pub mod epub;
pub mod usage;
pub mod cache;
pub mod settings;
pub mod commands;
pub mod book;
pub mod package;
pub mod output;
pub mod markup;
