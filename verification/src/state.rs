//! The process-wide store of the last snapshot and the current settings. The
//! mutual-exclusion guard around it belongs to the embedding application,
//! which takes it only for the duration of one get or replace, never across a
//! traversal or a watch-loop iteration.

use vstd::prelude::*;

verus! {

use crate::files::{initial_settings, FileEntry, Settings};

/// Owns the last known entry snapshot and the current settings.
pub struct AppState {
    pub files: Vec<FileEntry>,
    pub settings: Settings,
}

impl Default for AppState {
    /// An empty snapshot and the initial settings.
    fn default() -> (s: Self)
        ensures
            s.files@.len() == 0,
            s.settings.sources@.len() == 0,
            s.settings.exclusions.deep_view() == crate::files::default_settings_exclusions(),
            s.settings.theme@ == "system"@,
            s.settings.last_opened_file is None,
    {
        AppState { files: Vec::new(), settings: initial_settings() }
    }
}

impl AppState {
    /// The last snapshot, whole.
    pub fn get_snapshot(&self) -> (r: &Vec<FileEntry>)
        ensures
            r@ == self.files@,
    {
        &self.files
    }

    /// Replaces the snapshot whole — no incremental merge; the scan that
    /// finishes last wins. Settings stay untouched.
    pub fn replace_snapshot(&mut self, files: Vec<FileEntry>)
        ensures
            final(self).files == files,
            final(self).settings == old(self).settings,
    {
        self.files = files;
    }

    /// The current configuration, whole.
    pub fn get_config(&self) -> (r: &Settings)
        ensures
            r == &self.settings,
    {
        &self.settings
    }

    /// Replaces the configuration whole; the snapshot stays untouched. A
    /// running watch session keeps the roots it started with.
    pub fn replace_config(&mut self, settings: Settings)
        ensures
            final(self).settings == settings,
            final(self).files == old(self).files,
    {
        self.settings = settings;
    }
}

} // verus!
