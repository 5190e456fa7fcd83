//! Verified core of GMod Manager: presets and their validation, Workshop parsing, the mod
//! library plan, addon archive parsing, the config preview, shared preset files, and the backup
//! an undo restores.

pub mod apply;
pub mod config;
pub mod details;
pub mod game;
pub mod gma;
pub mod idmap;
pub mod json;
pub mod library;
pub mod model;
pub mod order;
pub mod presets;
pub mod preview;
pub mod reapply;
pub mod scan;
pub mod share;
pub mod status;
pub mod text;
pub mod update;
pub mod utf8;
pub mod validate;
pub mod workshop;
