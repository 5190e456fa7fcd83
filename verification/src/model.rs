//! The preset data model: Workshop items, binds, console settings and mapped config files.

use crate::text::{is_blank, trim};
use vstd::prelude::*;

verus! {

/// Where a preset came from.
#[derive(Clone, Debug, Default)]
pub struct Source {
    pub video_url: String,
    pub collection_url: String,
    pub captured_on: String,
}

/// One Workshop item of a preset.
#[derive(Clone, Debug, Default)]
pub struct WorkshopItem {
    pub id: String,
    pub title: Option<String>,
    pub available: bool,
    pub manually_added: bool,
}

/// The Workshop side of a preset: an optional collection and its items.
#[derive(Clone, Debug, Default)]
pub struct Workshop {
    pub collection_id: String,
    pub items: Vec<WorkshopItem>,
}

/// Where optional edited addons can be found.
#[derive(Clone, Debug, Default)]
pub struct OptionalCustomFiles {
    pub source_url: String,
    pub install_mode: String,
}

/// Which parts of a preset an apply writes.
#[derive(Clone, Debug)]
pub struct SyncOptions {
    pub addons: bool,
    pub binds: bool,
    pub settings: bool,
}

impl Default for SyncOptions {
    fn default() -> (r: Self)
        ensures
            r.addons && !r.binds && !r.settings,
    {
        SyncOptions { addons: true, binds: false, settings: false }
    }
}

/// A key bind: `bind "key" "command"`.
#[derive(Clone, Debug, Default)]
pub struct Bind {
    pub key: String,
    pub command: String,
    pub sync: bool,
}

/// A console variable: `name "value"`.
#[derive(Clone, Debug, Default)]
pub struct Setting {
    pub name: String,
    pub value: String,
    pub sync: bool,
}

/// A config file the preset writes in full.
#[derive(Clone, Debug, Default)]
pub struct FileMapping {
    pub path: String,
    pub content: String,
    pub sync: bool,
}

/// A ticked row counts unless it is still completely blank (a row the user just added).
pub open spec fn bind_active(b: Bind) -> bool {
    b.sync && !(trim(b.key@).len() == 0 && trim(b.command@).len() == 0)
}

pub open spec fn setting_active(s: Setting) -> bool {
    s.sync && !(trim(s.name@).len() == 0 && trim(s.value@).len() == 0)
}

pub open spec fn mapping_active(f: FileMapping) -> bool {
    f.sync && !(trim(f.path@).len() == 0 && f.content@.len() == 0)
}

impl Bind {
    pub fn active(&self) -> (r: bool)
        ensures
            r == bind_active(*self),
    {
        self.sync && !(is_blank(&self.key) && is_blank(&self.command))
    }
}

impl Setting {
    pub fn active(&self) -> (r: bool)
        ensures
            r == setting_active(*self),
    {
        self.sync && !(is_blank(&self.name) && is_blank(&self.value))
    }
}

impl FileMapping {
    pub fn active(&self) -> (r: bool)
        ensures
            r == mapping_active(*self),
    {
        self.sync && !(is_blank(&self.path) && self.content.as_str().is_empty())
    }
}

/// A preset.
#[derive(Clone, Debug)]
pub struct Profile {
    pub schema_version: u32,
    pub id: String,
    pub name: String,
    pub description: String,
    pub source: Source,
    pub workshop: Workshop,
    pub optional_custom_files: OptionalCustomFiles,
    pub sync: SyncOptions,
    pub binds: Vec<Bind>,
    pub convars: Vec<Setting>,
    pub file_mappings: Vec<FileMapping>,
}

impl Profile {
    /// A new, empty preset: schema 1, only addons synced.
    pub fn blank(name: &str, id: &str) -> (p: Self)
        ensures
            p.schema_version == 1,
            p.id@ == id@,
            p.name@ == name@,
            p.description@.len() == 0,
            p.source.video_url@.len() == 0,
            p.source.collection_url@.len() == 0,
            p.source.captured_on@.len() == 0,
            p.workshop.collection_id@.len() == 0,
            p.workshop.items@.len() == 0,
            p.optional_custom_files.source_url@.len() == 0,
            p.optional_custom_files.install_mode@.len() == 0,
            p.sync.addons && !p.sync.binds && !p.sync.settings,
            p.binds@.len() == 0,
            p.convars@.len() == 0,
            p.file_mappings@.len() == 0,
    {
        Profile {
            schema_version: 1,
            id: id.to_owned(),
            name: name.to_owned(),
            description: String::new(),
            source: Source {
                video_url: String::new(),
                collection_url: String::new(),
                captured_on: String::new(),
            },
            workshop: Workshop { collection_id: String::new(), items: Vec::new() },
            optional_custom_files: OptionalCustomFiles {
                source_url: String::new(),
                install_mode: String::new(),
            },
            sync: SyncOptions { addons: true, binds: false, settings: false },
            binds: Vec::new(),
            convars: Vec::new(),
            file_mappings: Vec::new(),
        }
    }
}

/// What the app remembers between runs.
#[derive(Clone, Debug, Default)]
pub struct LocalState {
    pub game_path: String,
    pub selected_profile: String,
    /// Keep mods in the compressed library and let Steam drop inactive ones.
    pub library_enabled: bool,
    /// Empty means `library/` beside the app.
    pub library_path: String,
    /// Show the Mods tab as thumbnail cards instead of a list.
    pub mods_grid: bool,
}

} // verus!
