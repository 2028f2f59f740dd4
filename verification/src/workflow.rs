//! The decisions of the package workflow: which extracted files are
//! encrypted assets and how to recognize their plaintext, and how the files
//! the workflow writes are named.
use crate::db::{db_lengths_fit, parse_db_bytes, PAYLOAD_OFFSET};
use crate::decrypt::{decrypt_bytes, decrypted};
use crate::text::{decimal, push_decimal};
use crate::text::{
    ascii_lowercase, chars_eq, chars_of, ends_with, ends_with_exec, is_whitespace,
    is_whitespace_exec, push_char, push_chars, push_str, replace_all, replace_exec, string_of,
    ascii_lower_exec, is_lowercase_word, lemma_lowercase_is_any_case_spelling, spells_in_any_case,
};
use vstd::prelude::*;
use vstd::string::StringExecFns;
use vstd::utf8::{
    is_leading_byte_width_1, length_of_first_scalar, partial_valid_partial_invalid_utf8,
    partial_valid_utf8, partial_valid_utf8_extend, valid_first_scalar, valid_utf8,
};

verus! {

/// Output toggles and retention settings shared by all workflow entry points.
#[derive(Debug, Clone, Copy, PartialEq, Eq, Structural)]
pub struct WorkflowOptions {
    pub export_ass: bool,
    pub export_srt: bool,
    pub parse_db_files: bool,
    /// When true, keep the copied encrypted zip package in the output directory.
    pub keep_encrypted_zip: bool,
}

/// Offline input paths resolved by the caller or CLI layer.
#[derive(Debug, Clone)]
pub struct OfflineRequest {
    pub asset_id: String,
    pub list_json_path: String,
    pub encrypted_zip_path: String,
}

/// The kinds of embedded asset that a package may hold encrypted.
#[derive(Debug, Clone, Copy, PartialEq, Eq, Structural)]
pub enum EmbeddedAssetKind {
    Oxk,
    Csv,
    Db,
    Image,
}

/// What to do with an extracted file.
#[derive(Debug, Clone, Copy, PartialEq, Eq, Structural)]
pub enum EmbeddedAssetState {
    AlreadyPlaintext,
    NeedsDecrypt,
    SkipUnknown,
}

// ---------------------------------------------------------------------------
// Asset kinds
// ---------------------------------------------------------------------------

/// The kind an extension (already in lowercase) names.
pub open spec fn extension_kind(ext: Seq<char>) -> Option<EmbeddedAssetKind> {
    if ext == "oxk"@ {
        Some(EmbeddedAssetKind::Oxk)
    } else if ext == "csv"@ {
        Some(EmbeddedAssetKind::Csv)
    } else if ext == "db"@ {
        Some(EmbeddedAssetKind::Db)
    } else if ext == "png"@ || ext == "jpg"@ || ext == "jpeg"@ || ext == "gif"@ || ext == "bmp"@
        || ext == "tif"@ || ext == "tiff"@ || ext == "webp"@ {
        Some(EmbeddedAssetKind::Image)
    } else {
        None
    }
}

/// The kind a directory name (already in lowercase) names.
pub open spec fn directory_kind(name: Seq<char>) -> Option<EmbeddedAssetKind> {
    if name == "img"@ || name == "pict"@ {
        Some(EmbeddedAssetKind::Image)
    } else if name == "oxk"@ {
        Some(EmbeddedAssetKind::Oxk)
    } else if name == "csv"@ {
        Some(EmbeddedAssetKind::Csv)
    } else if name == "db"@ {
        Some(EmbeddedAssetKind::Db)
    } else {
        None
    }
}

/// The kind that the first of the first `n` path components with a known name gives.
pub open spec fn components_kind(components: Seq<Seq<char>>, n: int) -> Option<EmbeddedAssetKind>
    decreases n,
{
    if n <= 0 {
        None
    } else {
        match components_kind(components, n - 1) {
            Some(k) => Some(k),
            None => directory_kind(ascii_lowercase(components[n - 1])),
        }
    }
}

/// The kind of an extracted file: by its extension, else by the first
/// component of its path below the extraction root that names a kind.
pub open spec fn embedded_kind(extension: Seq<char>, components: Seq<Seq<char>>) -> Option<
    EmbeddedAssetKind,
> {
    match extension_kind(ascii_lowercase(extension)) {
        Some(k) => Some(k),
        None => components_kind(components, components.len() as int),
    }
}

fn lowercase_of(s: &str) -> (r: Vec<char>)
    ensures
        r@ == ascii_lowercase(s@),
{
    let cs = chars_of(s);
    let mut r: Vec<char> = Vec::new();
    for i in 0..cs.len()
        invariant
            cs@ == s@,
            r@ == ascii_lowercase(s@).take(i as int),
    {
        r.push(ascii_lower_exec(cs[i]));
        assert(r@ =~= ascii_lowercase(s@).take(i + 1));
    }
    assert(ascii_lowercase(s@).take(cs.len() as int) =~= ascii_lowercase(s@));
    r
}

fn is_name(cs: &[char], name: &str) -> (r: bool)
    ensures
        r == (cs@ == name@),
{
    let n = chars_of(name);
    chars_eq(cs, n.as_slice())
}

fn extension_kind_exec(ext: &[char]) -> (r: Option<EmbeddedAssetKind>)
    ensures
        r == extension_kind(ext@),
{
    if is_name(ext, "oxk") {
        Some(EmbeddedAssetKind::Oxk)
    } else if is_name(ext, "csv") {
        Some(EmbeddedAssetKind::Csv)
    } else if is_name(ext, "db") {
        Some(EmbeddedAssetKind::Db)
    } else if is_name(ext, "png") || is_name(ext, "jpg") || is_name(ext, "jpeg") || is_name(
        ext,
        "gif",
    ) || is_name(ext, "bmp") || is_name(ext, "tif") || is_name(ext, "tiff") || is_name(
        ext,
        "webp",
    ) {
        Some(EmbeddedAssetKind::Image)
    } else {
        None
    }
}

fn directory_kind_exec(name: &[char]) -> (r: Option<EmbeddedAssetKind>)
    ensures
        r == directory_kind(name@),
{
    if is_name(name, "img") || is_name(name, "pict") {
        Some(EmbeddedAssetKind::Image)
    } else if is_name(name, "oxk") {
        Some(EmbeddedAssetKind::Oxk)
    } else if is_name(name, "csv") {
        Some(EmbeddedAssetKind::Csv)
    } else if is_name(name, "db") {
        Some(EmbeddedAssetKind::Db)
    } else {
        None
    }
}

/// The views of a list of strings.
pub open spec fn string_views(v: Seq<String>) -> Seq<Seq<char>> {
    Seq::new(v.len(), |i: int| v[i]@)
}

/// The kind of embedded asset an extracted file is, from its extension and
/// the components of its path below the extraction root (none when the path
/// is not below it).
pub fn embedded_asset_kind(extension: &str, relative_components: &[String]) -> (r: Option<
    EmbeddedAssetKind,
>)
    ensures
        r == embedded_kind(extension@, string_views(relative_components@)),
{
    let ext = lowercase_of(extension);
    match extension_kind_exec(ext.as_slice()) {
        Some(k) => {
            return Some(k);
        },
        None => {},
    }
    let ghost comps = string_views(relative_components@);
    let mut i: usize = 0;
    while i < relative_components.len()
        invariant
            i <= relative_components.len(),
            comps == string_views(relative_components@),
            components_kind(comps, i as int) is None,
            embedded_kind(extension@, comps) == components_kind(comps, comps.len() as int),
        decreases relative_components.len() - i,
    {
        let lower = lowercase_of(relative_components[i].as_str());
        assert(comps[i as int] == relative_components@[i as int]@);
        match directory_kind_exec(lower.as_slice()) {
            Some(k) => {
                proof {
                    lemma_components_kind_stops(comps, i as int + 1, comps.len() as int);
                }
                return Some(k);
            },
            None => {},
        }
        i = i + 1;
    }
    None
}

proof fn lemma_components_kind_stops(components: Seq<Seq<char>>, n: int, m: int)
    requires
        0 < n <= m,
        components_kind(components, n) is Some,
    ensures
        components_kind(components, m) == components_kind(components, n),
    decreases m - n,
{
    if m > n {
        lemma_components_kind_stops(components, n, m - 1);
    }
}

/// Whether an extracted file is one that the workflow may need to decrypt.
pub fn should_try_embedded_decrypt(extension: &str, relative_components: &[String]) -> (r: bool)
    ensures
        r == embedded_kind(extension@, string_views(relative_components@)) is Some,
{
    embedded_asset_kind(extension, relative_components).is_some()
}

/// The extension decides first, in any letter case and whatever the
/// directories: `oxk`, `csv` and `db` files are assets of those kinds, and
/// `png`, `jpg`, `jpeg`, `gif`, `bmp`, `tif`, `tiff` and `webp` files are
/// images.
pub proof fn lemma_extension_decides_kind(extension: Seq<char>, components: Seq<Seq<char>>)
    ensures
        spells_in_any_case(extension, "oxk"@) ==> embedded_kind(extension, components) == Some(
            EmbeddedAssetKind::Oxk,
        ),
        spells_in_any_case(extension, "csv"@) ==> embedded_kind(extension, components) == Some(
            EmbeddedAssetKind::Csv,
        ),
        spells_in_any_case(extension, "db"@) ==> embedded_kind(extension, components) == Some(
            EmbeddedAssetKind::Db,
        ),
        spells_in_any_case(extension, "png"@) || spells_in_any_case(extension, "jpg"@)
            || spells_in_any_case(extension, "jpeg"@) || spells_in_any_case(extension, "gif"@)
            || spells_in_any_case(extension, "bmp"@) || spells_in_any_case(extension, "tif"@)
            || spells_in_any_case(extension, "tiff"@) || spells_in_any_case(extension, "webp"@)
            ==> embedded_kind(extension, components) == Some(EmbeddedAssetKind::Image),
{
    reveal_strlit("oxk");
    reveal_strlit("csv");
    reveal_strlit("db");
    reveal_strlit("png");
    reveal_strlit("jpg");
    reveal_strlit("jpeg");
    reveal_strlit("gif");
    reveal_strlit("bmp");
    reveal_strlit("tif");
    reveal_strlit("tiff");
    reveal_strlit("webp");
    let words = seq!["oxk"@, "csv"@, "db"@, "png"@, "jpg"@, "jpeg"@, "gif"@, "bmp"@, "tif"@, "tiff"@, "webp"@];
    assert forall|w: int| 0 <= w < words.len() implies spells_in_any_case(extension, #[trigger] words[w])
        ==> ascii_lowercase(extension) == words[w] by {
        assert(is_lowercase_word(words[w]));
        lemma_lowercase_is_any_case_spelling(extension, words[w]);
    }
    let low = ascii_lowercase(extension);
    assert(words[0] == "oxk"@ && words[1] == "csv"@ && words[2] == "db"@ && words[3] == "png"@);
    assert(words[4] == "jpg"@ && words[5] == "jpeg"@ && words[6] == "gif"@ && words[7] == "bmp"@);
    assert(words[8] == "tif"@ && words[9] == "tiff"@ && words[10] == "webp"@);
    if low == "oxk"@ || low == "csv"@ || low == "db"@ || low == "png"@ || low == "jpg"@ || low
        == "jpeg"@ || low == "gif"@ || low == "bmp"@ || low == "tif"@ || low == "tiff"@ || low
        == "webp"@ {
        assert(low[0] == 'o' ==> low == "oxk"@);
        assert(low[0] == 'c' ==> low == "csv"@);
        assert(low[0] == 'd' ==> low == "db"@);
    }
}

// ---------------------------------------------------------------------------
// Recognizing plaintext
// ---------------------------------------------------------------------------

/// The byte length of a whitespace character (`char::is_whitespace`) encoded in
/// UTF-8 at the start of `p`, or 0 when `p` starts with no such character.
pub open spec fn utf8_whitespace_len(p: Seq<u8>) -> int {
    if p.len() >= 1 && ((0x09 <= p[0] <= 0x0d) || p[0] == 0x20) {
        1
    } else if p.len() >= 2 && p[0] == 0xc2 && (p[1] == 0x85 || p[1] == 0xa0) {
        2
    } else if p.len() >= 3 && p[0] == 0xe1 && p[1] == 0x9a && p[2] == 0x80 {
        3
    } else if p.len() >= 3 && p[0] == 0xe2 && p[1] == 0x80 && ((0x80 <= p[2] <= 0x8a) || p[2]
        == 0xa8 || p[2] == 0xa9 || p[2] == 0xaf) {
        3
    } else if p.len() >= 3 && p[0] == 0xe2 && p[1] == 0x81 && p[2] == 0x9f {
        3
    } else if p.len() >= 3 && p[0] == 0xe3 && p[1] == 0x80 && p[2] == 0x80 {
        3
    } else {
        0
    }
}

/// `p` starts with the UTF-8 byte order mark.
pub open spec fn starts_with_bom(p: Seq<u8>) -> bool {
    p.len() >= 3 && p[0] == 0xef && p[1] == 0xbb && p[2] == 0xbf
}

/// After any leading byte order marks (while `in_bom`) and then any
/// whitespace, the first character of `p` is `<`.
pub open spec fn xml_head(p: Seq<u8>, in_bom: bool) -> bool
    decreases p.len(),
{
    if in_bom && starts_with_bom(p) {
        xml_head(p.skip(3), true)
    } else if utf8_whitespace_len(p) > 0 {
        xml_head(p.skip(utf8_whitespace_len(p)), false)
    } else {
        p.len() > 0 && p[0] == 0x3c
    }
}

/// The bytes look like XML: in (at most) their first 128 bytes, read as text,
/// the first character after leading byte order marks and whitespace is `<`.
pub open spec fn looks_like_xml_spec(bytes: Seq<u8>) -> bool {
    xml_head(bytes.take(if bytes.len() < 128 { bytes.len() as int } else { 128 }), true)
}

/// Whether the bytes look like an XML document.
pub fn looks_like_xml(bytes: &[u8]) -> (r: bool)
    ensures
        r == looks_like_xml_spec(bytes@),
{
    let n = if bytes.len() < 128 {
        bytes.len()
    } else {
        128
    };
    let p = &bytes[0..n];
    assert(p@ =~= bytes@.take(n as int));
    let mut pos: usize = 0;
    let mut in_bom = true;
    assert(p@.skip(0) =~= p@);
    loop
        invariant
            pos <= p.len(),
            looks_like_xml_spec(bytes@) == xml_head(p@.skip(pos as int), in_bom),
        decreases p.len() - pos,
    {
        let ghost q = p@.skip(pos as int);
        let rest = p.len() - pos;
        if in_bom && rest >= 3 && p[pos] == 0xef && p[pos + 1] == 0xbb && p[pos + 2] == 0xbf {
            assert(q.skip(3) =~= p@.skip(pos + 3));
            pos = pos + 3;
        } else {
            let w = whitespace_len_at(p, pos);
            if w > 0 {
                assert(q.skip(w as int) =~= p@.skip(pos + w));
                pos = pos + w;
                in_bom = false;
            } else {
                assert(pos < p.len() ==> q[0] == p@[pos as int]);
                return pos < p.len() && p[pos] == 0x3c;
            }
        }
    }
}

fn whitespace_len_at(p: &[u8], pos: usize) -> (w: usize)
    requires
        pos <= p.len(),
    ensures
        w == utf8_whitespace_len(p@.skip(pos as int)),
        pos + w <= p.len(),
{
    let ghost q = p@.skip(pos as int);
    let rest = p.len() - pos;
    if rest >= 1 && ((0x09 <= p[pos] && p[pos] <= 0x0d) || p[pos] == 0x20) {
        1
    } else if rest >= 2 && p[pos] == 0xc2 && (p[pos + 1] == 0x85 || p[pos + 1] == 0xa0) {
        2
    } else if rest >= 3 && p[pos] == 0xe1 && p[pos + 1] == 0x9a && p[pos + 2] == 0x80 {
        3
    } else if rest >= 3 && p[pos] == 0xe2 && p[pos + 1] == 0x80 && ((0x80 <= p[pos + 2] && p[pos
        + 2] <= 0x8a) || p[pos + 2] == 0xa8 || p[pos + 2] == 0xa9 || p[pos + 2] == 0xaf) {
        3
    } else if rest >= 3 && p[pos] == 0xe2 && p[pos + 1] == 0x81 && p[pos + 2] == 0x9f {
        3
    } else if rest >= 3 && p[pos] == 0xe3 && p[pos + 1] == 0x80 && p[pos + 2] == 0x80 {
        3
    } else {
        0
    }
}

/// The length of the well-formed UTF-8 encoding of one scalar that starts at
/// `i`, or nothing when the bytes there are no such encoding.
fn first_scalar_len(b: &[u8], i: usize) -> (r: Option<usize>)
    requires
        i < b.len(),
    ensures
        ({
            let s = b@.subrange(i as int, b@.len() as int);
            match r {
                Some(k) => valid_first_scalar(s) && k == length_of_first_scalar(s),
                None => !valid_first_scalar(s),
            }
        }),
{
    let ghost s = b@.subrange(i as int, b@.len() as int);
    let rest = b.len() - i;
    let b0 = b[i];
    assert(s[0] == b0);
    if b0 <= 0x7f {
        return Some(1);
    }
    if 0xc0 <= b0 && b0 <= 0xdf {
        if rest < 2 {
            return None;
        }
        let b1 = b[i + 1];
        assert(s[1] == b1);
        if !(0x80 <= b1 && b1 <= 0xbf) {
            return None;
        }
        let cp: u32 = (((b0 & 0x1F) as u32) << 6) | ((b1 & 0x3f) as u32);
        assert((((b0 & 0x1F) as u32) << 6) | ((b1 & 0x3f) as u32) <= 0x7ff) by (bit_vector);
        if cp >= 0x80 {
            return Some(2);
        } else {
            return None;
        }
    }
    if 0xe0 <= b0 && b0 <= 0xef {
        if rest < 3 {
            return None;
        }
        let b1 = b[i + 1];
        let b2 = b[i + 2];
        assert(s[1] == b1 && s[2] == b2);
        if !(0x80 <= b1 && b1 <= 0xbf && 0x80 <= b2 && b2 <= 0xbf) {
            return None;
        }
        let cp: u32 = (((b0 & 0x0F) as u32) << 12) | (((b1 & 0x3f) as u32) << 6) | ((b2 & 0x3f) as u32);
        if cp >= 0x800 && !(0xD800 <= cp && cp <= 0xDFFF) {
            return Some(3);
        } else {
            return None;
        }
    }
    if 0xf0 <= b0 && b0 <= 0xf7 {
        if rest < 4 {
            return None;
        }
        let b1 = b[i + 1];
        let b2 = b[i + 2];
        let b3 = b[i + 3];
        assert(s[1] == b1 && s[2] == b2 && s[3] == b3);
        if !(0x80 <= b1 && b1 <= 0xbf && 0x80 <= b2 && b2 <= 0xbf && 0x80 <= b3 && b3 <= 0xbf) {
            return None;
        }
        let cp: u32 = (((b0 & 0x07) as u32) << 18) | (((b1 & 0x3f) as u32) << 12) | (((b2
            & 0x3f) as u32) << 6) | ((b3 & 0x3f) as u32);
        if 0x10000 <= cp && cp <= 0x10ffff && !(0xD800 <= cp && cp <= 0xDFFF) {
            return Some(4);
        } else {
            return None;
        }
    }
    None
}

/// Whether the bytes are well-formed UTF-8 text.
pub fn looks_like_text(bytes: &[u8]) -> (r: bool)
    ensures
        r == valid_utf8(bytes@),
{
    let mut i: usize = 0;
    assert(bytes@.subrange(0, 0) =~= Seq::<u8>::empty());
    while i < bytes.len()
        invariant
            i <= bytes.len(),
            partial_valid_utf8(bytes@, i as int),
        decreases bytes.len() - i,
    {
        let ghost s = bytes@.subrange(i as int, bytes@.len() as int);
        match first_scalar_len(bytes, i) {
            Some(k) => {
                proof {
                    partial_valid_utf8_extend(bytes@, i as int);
                }
                i = i + k;
            },
            None => {
                proof {
                    assert(!valid_utf8(s));
                    partial_valid_partial_invalid_utf8(bytes@, i as int);
                }
                return false;
            },
        }
    }
    assert(bytes@.subrange(0, bytes@.len() as int) =~= bytes@);
    true
}

/// `bytes` starts with the byte string `prefix`.
pub open spec fn has_prefix(bytes: Seq<u8>, prefix: Seq<u8>) -> bool {
    prefix.len() <= bytes.len() && bytes.take(prefix.len() as int) == prefix
}

/// The bytes start with the header of a PNG, GIF, JPEG, BMP, TIFF or WebP image.
pub open spec fn image_header_spec(b: Seq<u8>) -> bool {
    ||| has_prefix(b, seq![0x89u8, 0x50, 0x4e, 0x47, 0x0d, 0x0a, 0x1a, 0x0a])
    ||| has_prefix(b, seq![0x47u8, 0x49, 0x46, 0x38, 0x37, 0x61])
    ||| has_prefix(b, seq![0x47u8, 0x49, 0x46, 0x38, 0x39, 0x61])
    ||| has_prefix(b, seq![0xffu8, 0xd8, 0xff])
    ||| has_prefix(b, seq![0x42u8, 0x4d])
    ||| has_prefix(b, seq![0x49u8, 0x49, 0x2a, 0x00])
    ||| has_prefix(b, seq![0x4du8, 0x4d, 0x00, 0x2a])
    ||| (has_prefix(b, seq![0x52u8, 0x49, 0x46, 0x46]) && b.len() >= 12 && b.subrange(8, 12)
        == seq![0x57u8, 0x45, 0x42, 0x50])
}

fn has_prefix_exec(b: &[u8], prefix: &[u8]) -> (r: bool)
    ensures
        r == has_prefix(b@, prefix@),
{
    if prefix.len() > b.len() {
        return false;
    }
    let mut i: usize = 0;
    while i < prefix.len()
        invariant
            prefix.len() <= b.len(),
            i <= prefix.len(),
            forall|j: int| 0 <= j < i ==> b@[j] == prefix@[j],
        decreases prefix.len() - i,
    {
        if b[i] != prefix[i] {
            assert(b@.take(prefix.len() as int)[i as int] != prefix@[i as int]);
            return false;
        }
        i = i + 1;
    }
    assert(b@.take(prefix.len() as int) =~= prefix@);
    true
}

/// Whether the bytes start like an image file of a supported format.
pub fn looks_like_supported_image_header(bytes: &[u8]) -> (r: bool)
    ensures
        r == image_header_spec(bytes@),
{
    let png: [u8; 8] = [0x89, 0x50, 0x4e, 0x47, 0x0d, 0x0a, 0x1a, 0x0a];
    let gif87: [u8; 6] = [0x47, 0x49, 0x46, 0x38, 0x37, 0x61];
    let gif89: [u8; 6] = [0x47, 0x49, 0x46, 0x38, 0x39, 0x61];
    let jpeg: [u8; 3] = [0xff, 0xd8, 0xff];
    let bmp: [u8; 2] = [0x42, 0x4d];
    let tiff_le: [u8; 4] = [0x49, 0x49, 0x2a, 0x00];
    let tiff_be: [u8; 4] = [0x4d, 0x4d, 0x00, 0x2a];
    let riff: [u8; 4] = [0x52, 0x49, 0x46, 0x46];
    let webp: [u8; 4] = [0x57, 0x45, 0x42, 0x50];
    assert(png@ =~= seq![0x89u8, 0x50, 0x4e, 0x47, 0x0d, 0x0a, 0x1a, 0x0a]);
    assert(gif87@ =~= seq![0x47u8, 0x49, 0x46, 0x38, 0x37, 0x61]);
    assert(gif89@ =~= seq![0x47u8, 0x49, 0x46, 0x38, 0x39, 0x61]);
    assert(jpeg@ =~= seq![0xffu8, 0xd8, 0xff]);
    assert(bmp@ =~= seq![0x42u8, 0x4d]);
    assert(tiff_le@ =~= seq![0x49u8, 0x49, 0x2a, 0x00]);
    assert(tiff_be@ =~= seq![0x4du8, 0x4d, 0x00, 0x2a]);
    assert(riff@ =~= seq![0x52u8, 0x49, 0x46, 0x46]);
    assert(webp@ =~= seq![0x57u8, 0x45, 0x42, 0x50]);
    let webp_tail = if bytes.len() >= 12 {
        let tail = &bytes[8..12];
        has_prefix_exec(tail, &webp)
    } else {
        false
    };
    proof {
        if bytes.len() >= 12 {
            assert(bytes@.subrange(8, 12).take(4) =~= bytes@.subrange(8, 12));
        }
    }
    has_prefix_exec(bytes, &png) || has_prefix_exec(bytes, &gif87) || has_prefix_exec(
        bytes,
        &gif89,
    ) || has_prefix_exec(bytes, &jpeg) || has_prefix_exec(bytes, &bmp) || has_prefix_exec(
        bytes,
        &tiff_le,
    ) || has_prefix_exec(bytes, &tiff_be) || (has_prefix_exec(bytes, &riff) && webp_tail)
}

/// The image signatures that count as plaintext images: bytes of an image
/// asset are plaintext exactly when they start with the PNG signature
/// `89 50 4E 47 0D 0A 1A 0A`, `GIF87a`, `GIF89a`, the JPEG start `FF D8 FF`,
/// the BMP `BM`, the TIFF `II*\0` or `MM\0*`, or `RIFF` with `WEBP` at
/// offset 8.
pub proof fn lemma_image_signatures(b: Seq<u8>)
    ensures
        plaintext_of_kind(EmbeddedAssetKind::Image, b) <==> {
            ||| (b.len() >= 8 && b[0] == 0x89 && b[1] == 0x50 && b[2] == 0x4e && b[3] == 0x47 && b[4]
                == 0x0d && b[5] == 0x0a && b[6] == 0x1a && b[7] == 0x0a)
            ||| (b.len() >= 6 && b[0] == 0x47 && b[1] == 0x49 && b[2] == 0x46 && b[3] == 0x38 && (
            b[4] == 0x37 || b[4] == 0x39) && b[5] == 0x61)
            ||| (b.len() >= 3 && b[0] == 0xff && b[1] == 0xd8 && b[2] == 0xff)
            ||| (b.len() >= 2 && b[0] == 0x42 && b[1] == 0x4d)
            ||| (b.len() >= 4 && b[0] == 0x49 && b[1] == 0x49 && b[2] == 0x2a && b[3] == 0x00)
            ||| (b.len() >= 4 && b[0] == 0x4d && b[1] == 0x4d && b[2] == 0x00 && b[3] == 0x2a)
            ||| (b.len() >= 12 && b[0] == 0x52 && b[1] == 0x49 && b[2] == 0x46 && b[3] == 0x46 && b[8]
                == 0x57 && b[9] == 0x45 && b[10] == 0x42 && b[11] == 0x50)
        },
{
    if b.len() >= 2 {
        assert(b.take(2)[0] == b[0] && b.take(2)[1] == b[1]);
        if b[0] == 0x42 && b[1] == 0x4d {
            assert(b.take(2) =~= seq![0x42u8, 0x4d]);
        }
    }
    if b.len() >= 3 {
        if b[0] == 0xff && b[1] == 0xd8 && b[2] == 0xff {
            assert(b.take(3) =~= seq![0xffu8, 0xd8, 0xff]);
        }
    }
    if b.len() >= 4 {
        if b[0] == 0x49 && b[1] == 0x49 && b[2] == 0x2a && b[3] == 0x00 {
            assert(b.take(4) =~= seq![0x49u8, 0x49, 0x2a, 0x00]);
        }
        if b[0] == 0x4d && b[1] == 0x4d && b[2] == 0x00 && b[3] == 0x2a {
            assert(b.take(4) =~= seq![0x4du8, 0x4d, 0x00, 0x2a]);
        }
        if b[0] == 0x52 && b[1] == 0x49 && b[2] == 0x46 && b[3] == 0x46 {
            assert(b.take(4) =~= seq![0x52u8, 0x49, 0x46, 0x46]);
        }
    }
    if b.len() >= 6 {
        if b[0] == 0x47 && b[1] == 0x49 && b[2] == 0x46 && b[3] == 0x38 && b[4] == 0x37 && b[5]
            == 0x61 {
            assert(b.take(6) =~= seq![0x47u8, 0x49, 0x46, 0x38, 0x37, 0x61]);
        }
        if b[0] == 0x47 && b[1] == 0x49 && b[2] == 0x46 && b[3] == 0x38 && b[4] == 0x39 && b[5]
            == 0x61 {
            assert(b.take(6) =~= seq![0x47u8, 0x49, 0x46, 0x38, 0x39, 0x61]);
        }
    }
    if b.len() >= 8 {
        if b[0] == 0x89 && b[1] == 0x50 && b[2] == 0x4e && b[3] == 0x47 && b[4] == 0x0d && b[5]
            == 0x0a && b[6] == 0x1a && b[7] == 0x0a {
            assert(b.take(8) =~= seq![0x89u8, 0x50, 0x4e, 0x47, 0x0d, 0x0a, 0x1a, 0x0a]);
        }
    }
    if b.len() >= 12 {
        if b[8] == 0x57 && b[9] == 0x45 && b[10] == 0x42 && b[11] == 0x50 {
            assert(b.subrange(8, 12) =~= seq![0x57u8, 0x45, 0x42, 0x50]);
        }
    }
    if plaintext_of_kind(EmbeddedAssetKind::Image, b) {
        lemma_prefix_bytes(b, seq![0x89u8, 0x50, 0x4e, 0x47, 0x0d, 0x0a, 0x1a, 0x0a]);
        lemma_prefix_bytes(b, seq![0x47u8, 0x49, 0x46, 0x38, 0x37, 0x61]);
        lemma_prefix_bytes(b, seq![0x47u8, 0x49, 0x46, 0x38, 0x39, 0x61]);
        lemma_prefix_bytes(b, seq![0xffu8, 0xd8, 0xff]);
        lemma_prefix_bytes(b, seq![0x42u8, 0x4d]);
        lemma_prefix_bytes(b, seq![0x49u8, 0x49, 0x2a, 0x00]);
        lemma_prefix_bytes(b, seq![0x4du8, 0x4d, 0x00, 0x2a]);
        lemma_prefix_bytes(b, seq![0x52u8, 0x49, 0x46, 0x46]);
        if b.len() >= 12 && b.subrange(8, 12) == seq![0x57u8, 0x45, 0x42, 0x50] {
            assert(b.subrange(8, 12)[0] == b[8] && b.subrange(8, 12)[1] == b[9]);
            assert(b.subrange(8, 12)[2] == b[10] && b.subrange(8, 12)[3] == b[11]);
        }
    }
}

/// Bytes that start with a prefix hold its bytes at its positions.
proof fn lemma_prefix_bytes(b: Seq<u8>, prefix: Seq<u8>)
    ensures
        has_prefix(b, prefix) ==> forall|i: int| 0 <= i < prefix.len() ==> b[i] == #[trigger] prefix[i],
{
    if has_prefix(b, prefix) {
        assert forall|i: int| 0 <= i < prefix.len() implies b[i] == #[trigger] prefix[i] by {
            assert(b.take(prefix.len() as int)[i] == b[i]);
        }
    }
}

/// The bytes would be accepted as a database: the parser accepts exactly the
/// files of at least its header size.
pub open spec fn db_parses(bytes: Seq<u8>) -> bool {
    bytes.len() >= PAYLOAD_OFFSET
}

/// The bytes are the plaintext of an asset of this kind.
pub open spec fn plaintext_of_kind(kind: EmbeddedAssetKind, bytes: Seq<u8>) -> bool {
    match kind {
        EmbeddedAssetKind::Oxk => looks_like_xml_spec(bytes),
        EmbeddedAssetKind::Csv => valid_utf8(bytes),
        EmbeddedAssetKind::Db => db_parses(bytes),
        EmbeddedAssetKind::Image => image_header_spec(bytes),
    }
}

/// The database parser may be run on these bytes without its length
/// arithmetic overflowing.
pub open spec fn db_parse_safe(kind: Option<EmbeddedAssetKind>, bytes: Seq<u8>) -> bool {
    kind == Some(EmbeddedAssetKind::Db) && bytes.len() >= PAYLOAD_OFFSET ==> db_lengths_fit(bytes)
}

fn plaintext_of_kind_exec(kind: EmbeddedAssetKind, bytes: &[u8]) -> (r: bool)
    requires
        db_parse_safe(Some(kind), bytes@),
    ensures
        r == plaintext_of_kind(kind, bytes@),
{
    match kind {
        EmbeddedAssetKind::Oxk => looks_like_xml(bytes),
        EmbeddedAssetKind::Csv => looks_like_text(bytes),
        EmbeddedAssetKind::Db => parse_db_bytes(bytes, "").is_ok(),
        EmbeddedAssetKind::Image => looks_like_supported_image_header(bytes),
    }
}

/// What the workflow does with an extracted file of this kind and content:
/// skip it when it is of no known kind, keep it when it is plaintext already,
/// else decrypt it.
pub fn classify_embedded_asset(kind: Option<EmbeddedAssetKind>, bytes: &[u8]) -> (r: EmbeddedAssetState)
    requires
        db_parse_safe(kind, bytes@),
    ensures
        r == match kind {
            None => EmbeddedAssetState::SkipUnknown,
            Some(k) => if plaintext_of_kind(k, bytes@) {
                EmbeddedAssetState::AlreadyPlaintext
            } else {
                EmbeddedAssetState::NeedsDecrypt
            },
        },
{
    match kind {
        None => EmbeddedAssetState::SkipUnknown,
        Some(k) => if plaintext_of_kind_exec(k, bytes) {
            EmbeddedAssetState::AlreadyPlaintext
        } else {
            EmbeddedAssetState::NeedsDecrypt
        },
    }
}

/// Whether decrypted bytes are a plausible plaintext for a file of this kind.
pub fn is_valid_decrypted_candidate(kind: Option<EmbeddedAssetKind>, bytes: &[u8]) -> (r: bool)
    requires
        db_parse_safe(kind, bytes@),
    ensures
        r == match kind {
            None => false,
            Some(k) => plaintext_of_kind(k, bytes@),
        },
{
    match kind {
        None => false,
        Some(k) => plaintext_of_kind_exec(k, bytes),
    }
}

// ---------------------------------------------------------------------------
// File names
// ---------------------------------------------------------------------------

/// The index of the last `.` in a name.
pub open spec fn last_dot(name: Seq<char>) -> Option<int>
    decreases name.len(),
{
    if name.len() == 0 {
        None
    } else if name.last() == '.' {
        Some(name.len() - 1)
    } else {
        last_dot(name.drop_last())
    }
}

/// The stem of a file name (`Path::file_stem`): the name without its
/// extension; a name whose only dot leads it has no extension.
pub open spec fn file_stem(name: Seq<char>) -> Seq<char> {
    if name == ".."@ {
        name
    } else {
        match last_dot(name) {
            None => name,
            Some(i) => if i == 0 {
                name
            } else {
                name.take(i)
            },
        }
    }
}

/// The extension of a file name (`Path::extension`).
pub open spec fn file_extension(name: Seq<char>) -> Option<Seq<char>> {
    if name == ".."@ {
        None
    } else {
        match last_dot(name) {
            None => None,
            Some(i) => if i == 0 {
                None
            } else {
                Some(name.skip(i + 1))
            },
        }
    }
}

/// A file name with its extension replaced (`Path::with_extension`); an empty
/// extension removes it.
pub open spec fn with_extension(name: Seq<char>, ext: Seq<char>) -> Seq<char> {
    if ext.len() == 0 {
        file_stem(name)
    } else {
        file_stem(name) + seq!['.'] + ext
    }
}

fn last_dot_exec(name: &[char]) -> (r: Option<usize>)
    ensures
        r matches Some(j) ==> last_dot(name@) == Some(j as int) && j < name@.len(),
        r is None ==> last_dot(name@) is None,
{
    let mut k: usize = name.len();
    assert(name@.take(name.len() as int) =~= name@);
    while k > 0
        invariant
            k <= name.len(),
            last_dot(name@) == last_dot(name@.take(k as int)),
        decreases k,
    {
        let ghost t = name@.take(k as int);
        assert(t.drop_last() =~= name@.take(k - 1));
        if name[k - 1] == '.' {
            return Some(k - 1);
        }
        k = k - 1;
    }
    None
}

fn is_dot_dot(name: &[char]) -> (r: bool)
    ensures
        r == (name@ == ".."@),
{
    let dd = chars_of("..");
    chars_eq(name, dd.as_slice())
}

/// The stem of a file name.
pub fn file_stem_of(name: &[char]) -> (r: Vec<char>)
    ensures
        r@ == file_stem(name@),
{
    if is_dot_dot(name) {
        return vstd::slice::slice_to_vec(name);
    }
    match last_dot_exec(name) {
        None => vstd::slice::slice_to_vec(name),
        Some(i) => if i == 0 {
            vstd::slice::slice_to_vec(name)
        } else {
            let r = vstd::slice::slice_to_vec(&name[0..i]);
            assert(r@ =~= name@.take(i as int));
            r
        },
    }
}

/// The extension of a file name.
pub fn file_extension_of(name: &[char]) -> (r: Option<Vec<char>>)
    ensures
        match file_extension(name@) {
            Some(e) => r matches Some(v) && v@ == e,
            None => r is None,
        },
{
    if is_dot_dot(name) {
        return None;
    }
    match last_dot_exec(name) {
        None => None,
        Some(i) => if i == 0 {
            None
        } else {
            let n = name.len();
            let r = vstd::slice::slice_to_vec(&name[i + 1..n]);
            assert(r@ =~= name@.skip(i + 1));
            Some(r)
        },
    }
}

/// A file name with its extension replaced.
pub fn with_extension_of(name: &[char], ext: &[char]) -> (r: Vec<char>)
    ensures
        r@ == with_extension(name@, ext@),
{
    let mut r = file_stem_of(name);
    if ext.len() > 0 {
        r.push('.');
        let ghost before = r@;
        let mut i: usize = 0;
        while i < ext.len()
            invariant
                i <= ext.len(),
                r@ == before + ext@.take(i as int),
            decreases ext.len() - i,
        {
            r.push(ext[i]);
            i = i + 1;
            assert(r@ =~= before + ext@.take(i as int));
        }
        assert(ext@.take(ext.len() as int) =~= ext@);
    }
    r
}

/// The base name of a workflow's files, taken from the encrypted package's
/// file name (`archive.encrypted.zip` when the path has none): the name
/// without `.encrypted.zip`, else its stem.
pub open spec fn encrypted_stem(file_name: Option<Seq<char>>) -> Seq<char> {
    let name = match file_name {
        Some(n) => n,
        None => "archive.encrypted.zip"@,
    };
    if ends_with(name, ".encrypted.zip"@) {
        name.take(name.len() - 14)
    } else {
        file_stem(name)
    }
}

/// The base name of a workflow's files, from the encrypted package's file name.
pub fn encrypted_name_stem(file_name: Option<&str>) -> (r: String)
    ensures
        r@ == encrypted_stem(
            match file_name {
                Some(n) => Some(n@),
                None => None,
            },
        ),
{
    let name = match file_name {
        Some(n) => chars_of(n),
        None => chars_of("archive.encrypted.zip"),
    };
    let suffix = chars_of(".encrypted.zip");
    proof {
        reveal_strlit(".encrypted.zip");
    }
    if ends_with_exec(name.as_slice(), suffix.as_slice()) {
        string_of(&name[0..name.len() - 14])
    } else {
        string_of(file_stem_of(name.as_slice()).as_slice())
    }
}

/// The file name the encrypted package of an asset is stored under.
pub fn encrypted_package_name(asset_id: &str) -> (r: String)
    ensures
        r@ == asset_id@ + ".encrypted.zip"@,
{
    let mut r = String::from_str(asset_id);
    push_str(&mut r, ".encrypted.zip");
    r
}

/// The file name the decrypted package is written to: the stem and `.zip`.
pub fn decrypted_package_name(stem: &str) -> (r: String)
    ensures
        r@ == stem@ + ".zip"@,
{
    let mut r = String::from_str(stem);
    push_str(&mut r, ".zip");
    r
}

/// The file name of the copy of the encrypted package in the output
/// directory: the package's own name, unless that is the decrypted
/// package's name, then the stem and `.encrypted.zip`.
pub open spec fn encrypted_copy(file_name: Option<Seq<char>>, stem: Seq<char>) -> Seq<char> {
    let name = match file_name {
        Some(n) => n,
        None => stem + ".encrypted.zip"@,
    };
    if name == stem + ".zip"@ {
        stem + ".encrypted.zip"@
    } else {
        name
    }
}

/// The file name of the copy of the encrypted package in the output directory.
pub fn encrypted_copy_name(file_name: Option<&str>, stem: &str) -> (r: String)
    ensures
        r@ == encrypted_copy(
            match file_name {
                Some(n) => Some(n@),
                None => None,
            },
            stem@,
        ),
{
    let fallback = {
        let mut f = String::from_str(stem);
        push_str(&mut f, ".encrypted.zip");
        f
    };
    let name = match file_name {
        Some(n) => String::from_str(n),
        None => fallback.clone(),
    };
    let decrypted = decrypted_package_name(stem);
    let a = chars_of(name.as_str());
    let b = chars_of(decrypted.as_str());
    if chars_eq(a.as_slice(), b.as_slice()) {
        fallback
    } else {
        name
    }
}

/// A file the subtitle step converts: `*.oxk.decrypted` or `*.oxk`.
pub open spec fn is_subtitle_source(name: Seq<char>) -> bool {
    ends_with(name, ".oxk.decrypted"@) || file_extension(name) == Some("oxk"@)
}

/// The name of the file a subtitle is converted into, with the extension
/// `ext`: a `.decrypted` extension is dropped first, then the extension
/// replaced.
pub open spec fn subtitle_output(name: Seq<char>, ext: Seq<char>) -> Seq<char> {
    let base = if file_extension(name) == Some("decrypted"@) {
        with_extension(name, ""@)
    } else {
        name
    };
    with_extension(base, ext)
}

/// Whether the subtitle step converts a file of this name.
pub fn is_subtitle_source_name(name: &str) -> (r: bool)
    ensures
        r == is_subtitle_source(name@),
{
    let cs = chars_of(name);
    let suffix = chars_of(".oxk.decrypted");
    if ends_with_exec(cs.as_slice(), suffix.as_slice()) {
        return true;
    }
    match file_extension_of(cs.as_slice()) {
        Some(e) => is_name(e.as_slice(), "oxk"),
        None => false,
    }
}

/// The name of the subtitle file written for a source file, for an extension.
pub fn subtitle_output_name(name: &str, ext: &str) -> (r: String)
    ensures
        r@ == subtitle_output(name@, ext@),
{
    let cs = chars_of(name);
    let is_decrypted = match file_extension_of(cs.as_slice()) {
        Some(e) => is_name(e.as_slice(), "decrypted"),
        None => false,
    };
    let empty: Vec<char> = Vec::new();
    proof {
        reveal_strlit("");
    }
    let base = if is_decrypted {
        with_extension_of(cs.as_slice(), empty.as_slice())
    } else {
        cs
    };
    let e = chars_of(ext);
    string_of(with_extension_of(base.as_slice(), e.as_slice()).as_slice())
}

/// The name of the JSON report written for a database file: its extension
/// (`db` when it has none) followed by `.json`.
pub open spec fn db_report(name: Seq<char>) -> Seq<char> {
    let ext = match file_extension(name) {
        Some(e) => e,
        None => "db"@,
    };
    with_extension(name, ext + ".json"@)
}

/// The name of the JSON report written for a database file.
pub fn db_report_name(name: &str) -> (r: String)
    ensures
        r@ == db_report(name@),
{
    let cs = chars_of(name);
    let mut ext = match file_extension_of(cs.as_slice()) {
        Some(e) => e,
        None => chars_of("db"),
    };
    let json = chars_of(".json");
    let ghost e0 = ext@;
    let mut i: usize = 0;
    while i < json.len()
        invariant
            i <= json.len(),
            ext@ == e0 + json@.take(i as int),
        decreases json.len() - i,
    {
        ext.push(json[i]);
        i = i + 1;
        assert(ext@ =~= e0 + json@.take(i as int));
    }
    assert(json@.take(json.len() as int) =~= json@);
    string_of(with_extension_of(cs.as_slice(), ext.as_slice()).as_slice())
}

// ---------------------------------------------------------------------------
// Work directory names
// ---------------------------------------------------------------------------

/// The character that stands for `c` in a directory name: characters that
/// file systems reserve become `_`, line breaks and tabs become spaces.
pub open spec fn work_name_char(c: char) -> char {
    if c == '<' || c == '>' || c == ':' || c == '"' || c == '/' || c == '\\' || c == '|' || c
        == '?' || c == '*' {
        '_'
    } else if c == '\r' || c == '\n' || c == '\t' {
        ' '
    } else {
        c
    }
}

/// The words of `s` (runs of non-whitespace) joined by single spaces
/// (`split_whitespace` joined with `" "`).
pub open spec fn collapse_whitespace(s: Seq<char>) -> Seq<char>
    decreases s.len(),
{
    if s.len() == 0 {
        Seq::empty()
    } else {
        let prev = collapse_whitespace(s.drop_last());
        let c = s.last();
        if is_whitespace(c) {
            prev
        } else if s.len() >= 2 && !is_whitespace(s[s.len() - 2]) {
            prev.push(c)
        } else if prev.len() == 0 {
            seq![c]
        } else {
            prev.push(' ').push(c)
        }
    }
}

/// A title made fit to name a directory: `<br/>` becomes a space, reserved
/// characters become `_`, and whitespace is collapsed; the asset id when
/// nothing remains.
pub open spec fn work_name(title: Seq<char>, asset_id: Seq<char>) -> Seq<char> {
    let replaced = replace_all(title, "<br/>"@, " "@);
    let mapped = Seq::new(replaced.len(), |i: int| work_name_char(replaced[i]));
    let collapsed = collapse_whitespace(mapped);
    if collapsed.len() == 0 {
        asset_id
    } else {
        collapsed
    }
}

fn work_name_char_exec(c: char) -> (r: char)
    ensures
        r == work_name_char(c),
{
    if c == '<' || c == '>' || c == ':' || c == '"' || c == '/' || c == '\\' || c == '|' || c
        == '?' || c == '*' {
        '_'
    } else if c == '\r' || c == '\n' || c == '\t' {
        ' '
    } else {
        c
    }
}

/// Turn a title into a directory name, falling back to the asset id.
pub fn sanitize_work_name(title: &str, asset_id: &str) -> (r: String)
    ensures
        r@ == work_name(title@, asset_id@),
{
    let cs = chars_of(title);
    let br = chars_of("<br/>");
    let space = chars_of(" ");
    proof {
        reveal_strlit("<br/>");
    }
    let replaced = replace_exec(cs.as_slice(), br.as_slice(), space.as_slice());
    let ghost mapped = Seq::new(replaced@.len(), |i: int| work_name_char(replaced@[i]));
    let mut m: Vec<char> = Vec::new();
    for i in 0..replaced.len()
        invariant
            mapped == Seq::new(replaced@.len(), |i: int| work_name_char(replaced@[i])),
            m@ == mapped.take(i as int),
    {
        m.push(work_name_char_exec(replaced[i]));
        assert(m@ =~= mapped.take(i + 1));
    }
    assert(mapped.take(replaced.len() as int) =~= mapped);
    let mut out: Vec<char> = Vec::new();
    let mut i: usize = 0;
    while i < m.len()
        invariant
            i <= m.len(),
            out@ == collapse_whitespace(m@.take(i as int)),
        decreases m.len() - i,
    {
        let c = m[i];
        let ghost t = m@.take(i + 1);
        assert(t.drop_last() =~= m@.take(i as int));
        assert(t.last() == c);
        if is_whitespace_exec(c) {
        } else if i > 0 && !is_whitespace_exec(m[i - 1]) {
            assert(t[t.len() - 2] == m@[i - 1]);
            out.push(c);
        } else if out.len() == 0 {
            out.push(c);
            assert(out@ =~= seq![c]);
        } else {
            proof {
                if i > 0 {
                    assert(t[t.len() - 2] == m@[i - 1]);
                }
            }
            out.push(' ');
            out.push(c);
        }
        i = i + 1;
    }
    assert(m@.take(m.len() as int) =~= m@);
    if out.len() == 0 {
        String::from_str(asset_id)
    } else {
        string_of(out.as_slice())
    }
}

/// A character that may stand in a directory name made from a title: none
/// that file systems reserve, no line break or tab.
pub open spec fn safe_name_char(c: char) -> bool {
    !(c == '<' || c == '>' || c == ':' || c == '"' || c == '/' || c == '\\' || c == '|' || c
        == '?' || c == '*' || c == '\r' || c == '\n' || c == '\t')
}

proof fn lemma_collapse_keeps_safe_chars(s: Seq<char>)
    requires
        forall|i: int| 0 <= i < s.len() ==> safe_name_char(#[trigger] s[i]),
    ensures
        forall|i: int|
            0 <= i < collapse_whitespace(s).len() ==> safe_name_char(
                #[trigger] collapse_whitespace(s)[i],
            ),
    decreases s.len(),
{
    if s.len() > 0 {
        let p = s.drop_last();
        assert forall|i: int| 0 <= i < p.len() implies safe_name_char(#[trigger] p[i]) by {
            assert(p[i] == s[i]);
        }
        lemma_collapse_keeps_safe_chars(p);
        let c = s[s.len() - 1];
        assert(safe_name_char(c));
        assert(safe_name_char(' '));
        let prev = collapse_whitespace(p);
        let r = collapse_whitespace(s);
        assert forall|i: int| 0 <= i < r.len() implies safe_name_char(#[trigger] r[i]) by {
            if i < prev.len() {
                if !is_whitespace(c) && !(s.len() >= 2 && !is_whitespace(s[s.len() - 2]))
                    && prev.len() == 0 {
                } else {
                    assert(r[i] == prev[i]);
                }
            }
        }
    }
}

/// A directory name made from a title holds no character that file systems
/// reserve and no line break or tab; only the asset id, used when nothing is
/// left of the title, is taken as it is.
pub proof fn lemma_work_name_is_safe(title: Seq<char>, asset_id: Seq<char>)
    ensures
        work_name(title, asset_id) == asset_id || forall|i: int|
            0 <= i < work_name(title, asset_id).len() ==> safe_name_char(
                #[trigger] work_name(title, asset_id)[i],
            ),
{
    let replaced = replace_all(title, "<br/>"@, " "@);
    let mapped = Seq::new(replaced.len(), |i: int| work_name_char(replaced[i]));
    assert forall|i: int| 0 <= i < mapped.len() implies safe_name_char(#[trigger] mapped[i]) by {
    }
    lemma_collapse_keeps_safe_chars(mapped);
}

// ---------------------------------------------------------------------------
// Workflow plans
// ---------------------------------------------------------------------------

/// The file names that handling an encrypted package uses, relative to the
/// output directory.
#[derive(Debug, Clone)]
pub struct PackagePlan {
    /// The base name of the package.
    pub stem: String,
    /// The decrypted zip package: the stem and `.zip`.
    pub decrypted_zip_name: String,
    /// The directory the package is extracted into.
    pub extract_dir_name: String,
    /// The copy of the encrypted package.
    pub encrypted_copy_name: String,
}

/// The view of an optional string slice.
pub open spec fn opt_view(s: Option<&str>) -> Option<Seq<char>> {
    match s {
        Some(x) => Some(x@),
        None => None,
    }
}

/// The names used for an encrypted package with this file name, extracted
/// into `extract_dir_override` when one is given, else into a directory named
/// after the stem.
pub open spec fn package_plan_of(
    plan: PackagePlan,
    file_name: Option<Seq<char>>,
    extract_dir_override: Option<Seq<char>>,
) -> bool {
    let stem = encrypted_stem(file_name);
    &&& plan.stem@ == stem
    &&& plan.decrypted_zip_name@ == stem + ".zip"@
    &&& plan.extract_dir_name@ == match extract_dir_override {
        Some(d) => d,
        None => stem,
    }
    &&& plan.encrypted_copy_name@ == encrypted_copy(file_name, stem)
}

/// Choose the file names for handling an encrypted package.
pub fn plan_encrypted_package(file_name: Option<&str>, extract_dir_override: Option<&str>) -> (plan: PackagePlan)
    ensures
        package_plan_of(plan, opt_view(file_name), opt_view(extract_dir_override)),
{
    let stem = encrypted_name_stem(file_name);
    let decrypted_zip_name = decrypted_package_name(stem.as_str());
    let extract_dir_name = match extract_dir_override {
        Some(d) => String::from_str(d),
        None => stem.clone(),
    };
    let encrypted_copy_name = encrypted_copy_name(file_name, stem.as_str());
    PackagePlan { stem, decrypted_zip_name, extract_dir_name, encrypted_copy_name }
}

/// A package is extracted into the directory it is told to use; only when
/// none is given does it go into a directory named after its stem, and the
/// stem of `NAME.encrypted.zip` is `NAME`.
pub proof fn lemma_extract_dir_follows_override(
    plan: PackagePlan,
    file_name: Option<Seq<char>>,
    extract_dir_override: Option<Seq<char>>,
    name: Seq<char>,
)
    requires
        package_plan_of(plan, file_name, extract_dir_override),
    ensures
        extract_dir_override matches Some(d) ==> plan.extract_dir_name@ == d,
        extract_dir_override is None ==> plan.extract_dir_name@ == plan.stem@,
        file_name == Some(name + ".encrypted.zip"@) ==> plan.stem@ == name,
        file_name == Some(name + ".encrypted.zip"@) ==> plan.decrypted_zip_name@ == name + ".zip"@,
{
    reveal_strlit(".encrypted.zip");
    let full = name + ".encrypted.zip"@;
    assert(full.subrange(full.len() - 14, full.len() as int) =~= ".encrypted.zip"@);
    assert(full.take(full.len() - 14) =~= name);
}

/// The copy of an encrypted package never takes the name of the decrypted
/// package next to it, so writing one cannot overwrite the other.
pub proof fn lemma_package_copies_do_not_collide(
    plan: PackagePlan,
    file_name: Option<Seq<char>>,
    extract_dir_override: Option<Seq<char>>,
)
    requires
        package_plan_of(plan, file_name, extract_dir_override),
    ensures
        plan.encrypted_copy_name@ != plan.decrypted_zip_name@,
{
    let stem = encrypted_stem(file_name);
    reveal_strlit(".zip");
    reveal_strlit(".encrypted.zip");
    if file_name is None || file_name->0 == stem + ".zip"@ {
        let a = stem + ".encrypted.zip"@;
        let b = stem + ".zip"@;
        assert(a.len() != b.len());
    }
}

/// Names for extracting a decrypted zip package: the copy keeps the
/// package's file name (`archive.zip` when the path has none) and the
/// extraction directory is named after its stem.
pub open spec fn decrypted_copy_plan(file_name: Option<Seq<char>>) -> (Seq<char>, Seq<char>) {
    let copy = match file_name {
        Some(n) => n,
        None => "archive.zip"@,
    };
    (copy, file_stem(copy))
}

/// Choose the names for extracting a decrypted zip package.
pub fn plan_decrypted_package(file_name: Option<&str>) -> (r: (String, String))
    ensures
        (r.0@, r.1@) == decrypted_copy_plan(opt_view(file_name)),
{
    let copy = match file_name {
        Some(n) => String::from_str(n),
        None => String::from_str("archive.zip"),
    };
    let cs = chars_of(copy.as_str());
    let stem = string_of(file_stem_of(cs.as_slice()).as_slice());
    (copy, stem)
}

/// Check that decrypted package bytes are a zip archive.
pub fn check_decrypted_package(decrypted_bytes: &[u8]) -> (r: Result<(), crate::error::BuddyCastError>)
    ensures
        r is Ok <==> crate::decrypt::starts_like_zip(decrypted_bytes@),
        r matches Err(e) ==> e == crate::error::BuddyCastError::InvalidDecryptedZip,
{
    if crate::decrypt::is_zip_bytes(decrypted_bytes) {
        Ok(())
    } else {
        Err(crate::error::BuddyCastError::InvalidDecryptedZip)
    }
}

/// What becomes of one extracted file.
#[derive(Debug)]
pub enum EmbeddedOutcome {
    /// Keep the file: it is of no known kind, or plaintext already.
    Unchanged,
    /// Replace the file's contents with these decrypted bytes.
    Rewrite(Vec<u8>),
    /// Keep the file and report it: its decryption is no plaintext of its kind.
    Invalid,
}

/// Handle one extracted file: leave it when it is of no known kind or is
/// plaintext already, else decrypt it and keep the result when it is a
/// plausible plaintext of its kind.
pub fn process_embedded_asset(kind: Option<EmbeddedAssetKind>, bytes: &[u8]) -> (r: EmbeddedOutcome)
    requires
        db_parse_safe(kind, bytes@),
    ensures
        match kind {
            None => r is Unchanged,
            Some(k) => if plaintext_of_kind(k, bytes@) {
                r is Unchanged
            } else if plaintext_of_kind(k, decrypted(bytes@)) {
                r matches EmbeddedOutcome::Rewrite(d) && d@ == decrypted(bytes@)
            } else {
                r is Invalid
            },
        },
{
    match classify_embedded_asset(kind, bytes) {
        EmbeddedAssetState::AlreadyPlaintext | EmbeddedAssetState::SkipUnknown => EmbeddedOutcome::Unchanged,
        EmbeddedAssetState::NeedsDecrypt => {
            let d = decrypt_bytes(bytes);
            proof {
                // A database that does not parse is shorter than the header,
                // and so is its decryption: nothing to overflow.
                assert(d@.len() == bytes@.len());
            }
            if is_valid_decrypted_candidate(kind, d.as_slice()) {
                EmbeddedOutcome::Rewrite(d)
            } else {
                EmbeddedOutcome::Invalid
            }
        },
    }
}

/// The names joined with `", "`.
pub open spec fn comma_joined(names: Seq<Seq<char>>) -> Seq<char>
    decreases names.len(),
{
    if names.len() == 0 {
        Seq::empty()
    } else if names.len() == 1 {
        names[0]
    } else {
        comma_joined(names.drop_last()) + ", "@ + names.last()
    }
}

/// The error text for the extracted files that failed validation after
/// decryption.
pub open spec fn embedded_failure(names: Seq<Seq<char>>) -> Seq<char> {
    "embedded asset decryption failed validation for "@ + decimal(names.len()) + " file(s): "@
        + comma_joined(names)
}

/// The error text for the extracted files (given relative to the extraction
/// root) that failed validation after decryption.
#[verifier::rlimit(40)]
pub fn embedded_failure_message(invalid: &[String]) -> (r: String)
    ensures
        r@ == embedded_failure(string_views(invalid@)),
{
    let mut r = String::new();
    push_str(&mut r, "embedded asset decryption failed validation for ");
    push_decimal(&mut r, invalid.len() as u64);
    push_str(&mut r, " file(s): ");
    let ghost head = r@;
    let ghost names = string_views(invalid@);
    let mut i: usize = 0;
    while i < invalid.len()
        invariant
            i <= invalid.len(),
            names == string_views(invalid@),
            r@ == head + comma_joined(names.take(i as int)),
        decreases invalid.len() - i,
    {
        let ghost before = r@;
        if i > 0 {
            push_str(&mut r, ", ");
        }
        push_str(&mut r, invalid[i].as_str());
        proof {
            let t = names.take(i + 1);
            assert(t.drop_last() =~= names.take(i as int));
            assert(t.last() == invalid@[i as int]@);
            if i == 0 {
                assert(names.take(0) =~= Seq::<Seq<char>>::empty());
            }
            assert(r@ =~= head + comma_joined(t));
        }
        i = i + 1;
    }
    assert(names.take(invalid.len() as int) =~= names);
    r
}

} // verus!
