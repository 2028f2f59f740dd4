//! Plain data shared by the modules and the application.
use vstd::prelude::*;

verus! {

/// Normalized representation of a content-list item.
#[derive(Debug, Clone)]
pub struct NormalizedItem {
    pub item_id: String,
    pub asset_id: String,
    pub url: String,
    pub size: String,
    pub title: String,
    pub has_sub_tag: bool,
    pub size_bytes: u64,
}

/// What a normalized item holds, as text and numbers.
pub struct NormalizedView {
    pub item_id: Seq<char>,
    pub asset_id: Seq<char>,
    pub url: Seq<char>,
    pub size: Seq<char>,
    pub title: Seq<char>,
    pub has_sub_tag: bool,
    pub size_bytes: u64,
}

impl View for NormalizedItem {
    type V = NormalizedView;

    open spec fn view(&self) -> NormalizedView {
        NormalizedView {
            item_id: self.item_id@,
            asset_id: self.asset_id@,
            url: self.url@,
            size: self.size@,
            title: self.title@,
            has_sub_tag: self.has_sub_tag,
            size_bytes: self.size_bytes,
        }
    }
}

/// Simple zip entry metadata used by archive helpers.
#[derive(Debug, Clone)]
pub struct ArchiveEntry {
    pub path: String,
    pub size: u64,
}

/// File outputs produced by a workflow execution; paths are kept as text.
#[derive(Debug, Clone)]
pub struct WorkflowResult {
    pub item: Option<NormalizedItem>,
    pub encrypted_zip_path: Option<String>,
    pub decrypted_zip_path: Option<String>,
    pub extract_dir: Option<String>,
    pub subtitle_outputs: Vec<String>,
    pub db_reports: Vec<String>,
}

} // verus!
