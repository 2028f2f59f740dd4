//! Domain-specific failures that can occur while handling UDCast data.
use crate::text::{push_decimal, push_str};
use vstd::prelude::*;

verus! {

/// Domain-specific failures that can occur while handling UDCast data.
#[derive(Debug)]
pub enum BuddyCastError {
    MissingDeliveryContents,
    DeliveryContentsNotList,
    MissingItemContents,
    MissingItemId,
    MissingAssetId,
    MissingItemUrl,
    ItemNotFound(String),
    InvalidDecryptedZip,
    SubtitleParse(String),
    DbTooSmall { path: String },
    DbTruncated { field: String, offset: usize },
    OfflineListMissing(String),
    OfflinePackageMissing(String),
}

/// The human-readable text of an error.
pub open spec fn error_message(e: BuddyCastError) -> Seq<char> {
    match e {
        BuddyCastError::MissingDeliveryContents => "expected JSON path contents.deliveryContents"@,
        BuddyCastError::DeliveryContentsNotList => "contents.deliveryContents is not a list"@,
        BuddyCastError::MissingItemContents => "missing item.contents object"@,
        BuddyCastError::MissingItemId => "missing item.id"@,
        BuddyCastError::MissingAssetId => "missing item.contents.eTags"@,
        BuddyCastError::MissingItemUrl => "missing item.contents.url"@,
        BuddyCastError::ItemNotFound(id) => "item id not found: "@ + id@,
        BuddyCastError::InvalidDecryptedZip => "decrypted bytes are not a zip archive"@,
        BuddyCastError::SubtitleParse(m) => "subtitle xml parse failed: "@ + m@,
        BuddyCastError::DbTooSmall { path } =>
            "database file is too small to be a UDCast MFCC db: "@ + path@,
        BuddyCastError::DbTruncated { field, offset } => "database file ended while reading "@
            + field@ + " at offset "@ + crate::text::decimal(offset as nat),
        BuddyCastError::OfflineListMissing(p) =>
            "offline fetch failed: contents json not found: "@ + p@,
        BuddyCastError::OfflinePackageMissing(p) =>
            "offline fetch failed: encrypted package not found: "@ + p@,
    }
}

impl BuddyCastError {
    /// The human-readable text of the error.
    pub fn message(&self) -> (r: String)
        ensures
            r@ == error_message(*self),
    {
        let mut r = String::new();
        match self {
            BuddyCastError::MissingDeliveryContents => {
                push_str(&mut r, "expected JSON path contents.deliveryContents");
            },
            BuddyCastError::DeliveryContentsNotList => {
                push_str(&mut r, "contents.deliveryContents is not a list");
            },
            BuddyCastError::MissingItemContents => {
                push_str(&mut r, "missing item.contents object");
            },
            BuddyCastError::MissingItemId => {
                push_str(&mut r, "missing item.id");
            },
            BuddyCastError::MissingAssetId => {
                push_str(&mut r, "missing item.contents.eTags");
            },
            BuddyCastError::MissingItemUrl => {
                push_str(&mut r, "missing item.contents.url");
            },
            BuddyCastError::ItemNotFound(id) => {
                push_str(&mut r, "item id not found: ");
                push_str(&mut r, id.as_str());
            },
            BuddyCastError::InvalidDecryptedZip => {
                push_str(&mut r, "decrypted bytes are not a zip archive");
            },
            BuddyCastError::SubtitleParse(m) => {
                push_str(&mut r, "subtitle xml parse failed: ");
                push_str(&mut r, m.as_str());
            },
            BuddyCastError::DbTooSmall { path } => {
                push_str(&mut r, "database file is too small to be a UDCast MFCC db: ");
                push_str(&mut r, path.as_str());
            },
            BuddyCastError::DbTruncated { field, offset } => {
                push_str(&mut r, "database file ended while reading ");
                push_str(&mut r, field.as_str());
                push_str(&mut r, " at offset ");
                push_decimal(&mut r, *offset as u64);
            },
            BuddyCastError::OfflineListMissing(p) => {
                push_str(&mut r, "offline fetch failed: contents json not found: ");
                push_str(&mut r, p.as_str());
            },
            BuddyCastError::OfflinePackageMissing(p) => {
                push_str(&mut r, "offline fetch failed: encrypted package not found: ");
                push_str(&mut r, p.as_str());
            },
        }
        assert(r@ =~= error_message(*self));
        r
    }
}

} // verus!
