//! Turns JSONL session logs into Markdown notes.

pub mod calendar;
pub mod clock;
pub mod entry;
pub mod index;
pub mod json;
pub mod json_text;
pub mod laws;
pub mod laws_of_display;
pub mod laws_of_notes;
pub mod laws_of_properties;
pub mod laws_of_selection;
pub mod laws_of_text;
pub mod markdown;
pub mod merge;
pub mod note;
pub mod order;
pub mod paths;
pub mod project;
pub mod select;
pub mod summary;
pub mod sync;
pub mod text;
