//! Per-run and per-container settings consumed by the reconciliation
//! engine.  Reading and writing them from disk belongs to the surrounding
//! program; the engine only works on the loaded values.

use vstd::prelude::*;

verus! {

/// The one global preference: where the local install root lives.
#[derive(Clone, Debug)]
pub struct GeneralConfig {
    pub steam_path: String,
}

impl Default for GeneralConfig {
    /// An empty root path, meaning "not chosen yet".
    fn default() -> (r: Self)
        ensures
            r.steam_path@.len() == 0,
    {
        GeneralConfig { steam_path: String::new() }
    }
}

/// Per-container overlay settings: where the tabular data comes from and
/// which columns carry the id, the status and the optional display name.
/// The column choices are only meaningful relative to a chosen header row.
#[derive(Clone, Debug)]
pub struct SpreadsheetConfig {
    pub sheet_url: String,
    pub sheet_file: Option<String>,
    pub header_row_index: Option<usize>,
    pub id_col: Option<usize>,
    pub status_col: Option<usize>,
    pub name_col: Option<usize>,
}

impl SpreadsheetConfig {
    /// Nothing chosen at all: no source and no column mapping.
    pub open spec fn spec_is_default(&self) -> bool {
        &&& self.sheet_url@.len() == 0
        &&& self.sheet_file is None
        &&& self.header_row_index is None
        &&& self.id_col is None
        &&& self.status_col is None
        &&& self.name_col is None
    }

    /// True exactly when no field of the configuration has been set.
    pub fn is_default(&self) -> (r: bool)
        ensures
            r == self.spec_is_default(),
    {
        self.sheet_url.as_str().is_empty() && self.sheet_file.is_none()
            && self.header_row_index.is_none() && self.id_col.is_none()
            && self.status_col.is_none() && self.name_col.is_none()
    }

    /// After a new data source is chosen without an explicit header-row
    /// choice, the previously chosen column indices belong to another
    /// table shape and are dropped; with a header row chosen, everything
    /// is kept.
    pub fn clear_columns_without_header(&mut self)
        ensures
            final(self).sheet_url == old(self).sheet_url,
            final(self).sheet_file == old(self).sheet_file,
            final(self).header_row_index == old(self).header_row_index,
            old(self).header_row_index is Some ==> *final(self) == *old(self),
            old(self).header_row_index is None ==> {
                &&& final(self).id_col is None
                &&& final(self).status_col is None
                &&& final(self).name_col is None
            },
    {
        if self.header_row_index.is_none() {
            self.id_col = None;
            self.status_col = None;
            self.name_col = None;
        }
    }
}

impl Default for SpreadsheetConfig {
    /// No source and no column mapping.
    fn default() -> (r: Self)
        ensures
            r.spec_is_default(),
    {
        SpreadsheetConfig {
            sheet_url: String::new(),
            sheet_file: None,
            header_row_index: None,
            id_col: None,
            status_col: None,
            name_col: None,
        }
    }
}

} // verus!
