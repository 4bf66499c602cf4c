pub mod text;
pub mod merge;
pub mod speakers;
pub mod types;
pub mod labels;
pub mod order;
pub mod pieces;
pub mod transcript;
pub mod sessions;
pub mod filters;
pub mod repair;
pub mod hints;
pub mod chat;
pub mod cloud;
pub mod timeline;
pub mod diarize;
pub mod renames;
pub mod notes;
pub mod edits;
pub mod unify;
pub mod intake;
pub mod locks;
pub mod roles;
pub mod numbering;
pub mod diagnostics;
pub mod capture;
pub mod rerun;
