//! Zip archives: listing the entries of an archive held in memory, making
//! entry names safe to extract, and choosing files by suffix.
use crate::model::ArchiveEntry;
use crate::text::{ascii_lowercase, chars_eq, chars_of, ends_with, ends_with_exec, push_str, string_of};
use std::io::Cursor;
use vstd::prelude::*;
use zip::result::ZipError;
use zip::ZipArchive;

verus! {

// ---------------------------------------------------------------------------
// Reading an archive held in memory
// ---------------------------------------------------------------------------

#[verifier::external_type_specification]
#[verifier::external_body]
#[verifier::reject_recursive_types(R)]
pub struct ExZipArchive<R>(ZipArchive<R>);

#[verifier::external_type_specification]
#[verifier::external_body]
#[verifier::reject_recursive_types(T)]
pub struct ExCursor<T>(Cursor<T>);

#[verifier::external_type_specification]
#[verifier::external_body]
pub struct ExZipError(ZipError);

/// The entries that an opened archive lists by index: each entry's name and
/// uncompressed size.
pub uninterp spec fn zip_archive_entries(archive: ZipArchive<Cursor<Vec<u8>>>) -> Seq<(Seq<char>, u64)>;

/// The bytes that an opened archive reads from.
pub uninterp spec fn zip_archive_bytes(archive: ZipArchive<Cursor<Vec<u8>>>) -> Seq<u8>;

/// Whether the `zip` crate opens the bytes `data` as an archive.
pub uninterp spec fn zip_opens(data: Seq<u8>) -> bool;

/// The entries that the `zip` crate lists by index for the archive in
/// `data`: each entry's name and uncompressed size.
pub uninterp spec fn zip_directory(data: Seq<u8>) -> Seq<(Seq<char>, u64)>;

/// Whether entry `index` of the archive in `data` can be looked up and its
/// name decoded.
pub uninterp spec fn zip_entry_readable(data: Seq<u8>, index: int) -> bool;

/// Whether entry `index` of the archive in `data` is a directory.
pub uninterp spec fn zip_entry_is_dir(data: Seq<u8>, index: int) -> bool;

/// Whether the contents of entry `index` of the archive in `data` can be
/// read to their end (decompressed and checked).
pub uninterp spec fn zip_entry_extracts(data: Seq<u8>, index: int) -> bool;

/// The contents of entry `index` of the archive in `data`, decompressed.
pub uninterp spec fn zip_entry_data(data: Seq<u8>, index: int) -> Seq<u8>;

/// `ZipArchive::new` over an in-memory copy of `data`: it succeeds exactly
/// when the bytes open as an archive (`zip_opens`, a function of the bytes
/// alone), and the archive then reads from those bytes and lists the entries
/// of `zip_directory`.
#[verifier::external_body]
fn zip_open(data: &[u8]) -> (r: Result<ZipArchive<Cursor<Vec<u8>>>, ZipError>)
    ensures
        r is Ok <==> zip_opens(data@),
        r matches Ok(a) ==> zip_archive_entries(a) == zip_directory(data@) && zip_archive_bytes(a)
            == data@,
{
    ZipArchive::new(Cursor::new(data.to_vec()))
}

/// `ZipArchive::len`: the number of entries the archive lists.
#[verifier::external_body]
fn zip_len(archive: &ZipArchive<Cursor<Vec<u8>>>) -> (n: usize)
    ensures
        n == zip_archive_entries(*archive).len(),
{
    archive.len()
}

/// `ZipArchive::by_index`, then the entry's `name`, `size` and `is_dir`: it
/// succeeds exactly when the entry can be looked up and its name decoded
/// (`zip_entry_readable` of the archive's bytes), and then gives the name
/// and uncompressed size that the archive lists for the entry and whether
/// it is a directory. The archive's entries and bytes stay as they were.
#[verifier::external_body]
fn zip_entry_at(archive: &mut ZipArchive<Cursor<Vec<u8>>>, index: usize) -> (r: Result<
    (String, u64, bool),
    ZipError,
>)
    requires
        index < zip_archive_entries(*old(archive)).len(),
    ensures
        zip_archive_entries(*final(archive)) == zip_archive_entries(*old(archive)),
        zip_archive_bytes(*final(archive)) == zip_archive_bytes(*old(archive)),
        r is Ok <==> zip_entry_readable(zip_archive_bytes(*old(archive)), index as int),
        r matches Ok((name, size, is_dir)) ==> name@ == zip_archive_entries(*old(archive))[index as int].0
            && size == zip_archive_entries(*old(archive))[index as int].1 && is_dir
            == zip_entry_is_dir(zip_archive_bytes(*old(archive)), index as int),
{
    let file = archive.by_index(index)?;
    let name = file.name()?.to_string();
    Ok((name, file.size(), file.is_dir()))
}

/// `ZipArchive::by_index`, then `Read::read_to_end` on the entry: it
/// succeeds exactly when the entry's contents can be read to their end
/// (`zip_entry_extracts` of the archive's bytes), and then gives those
/// contents. The archive's entries and bytes stay as they were.
#[verifier::external_body]
fn zip_entry_read(archive: &mut ZipArchive<Cursor<Vec<u8>>>, index: usize) -> (r: Result<
    Vec<u8>,
    ZipError,
>)
    requires
        index < zip_archive_entries(*old(archive)).len(),
    ensures
        zip_archive_entries(*final(archive)) == zip_archive_entries(*old(archive)),
        zip_archive_bytes(*final(archive)) == zip_archive_bytes(*old(archive)),
        r is Ok <==> zip_entry_extracts(zip_archive_bytes(*old(archive)), index as int),
        r matches Ok(contents) ==> contents@ == zip_entry_data(
            zip_archive_bytes(*old(archive)),
            index as int,
        ),
{
    let mut file = archive.by_index(index)?;
    let mut contents = Vec::new();
    std::io::Read::read_to_end(&mut file, &mut contents)?;
    Ok(contents)
}

/// Why the entries of an archive could not be listed.
#[derive(Debug, Clone, Copy, PartialEq, Eq, Structural)]
pub enum ArchiveError {
    /// The bytes could not be opened as a zip archive.
    OpenFailed,
    /// The entry with this index could not be read.
    EntryFailed(usize),
}

/// The entries of a list, as (name, size) pairs.
pub open spec fn entry_views(entries: Seq<ArchiveEntry>) -> Seq<(Seq<char>, u64)> {
    Seq::new(entries.len(), |i: int| (entries[i].path@, entries[i].size))
}

/// The first of the first `n` entries of the archive in `data` that cannot
/// be read.
pub open spec fn first_unreadable(data: Seq<u8>, n: int) -> Option<int>
    decreases n,
{
    if n <= 0 {
        None
    } else {
        match first_unreadable(data, n - 1) {
            Some(i) => Some(i),
            None => if zip_entry_readable(data, n - 1) {
                None
            } else {
                Some(n - 1)
            },
        }
    }
}

proof fn lemma_first_unreadable_stops(data: Seq<u8>, n: int, m: int)
    requires
        n <= m,
        first_unreadable(data, n) is Some,
    ensures
        first_unreadable(data, m) == first_unreadable(data, n),
    decreases m - n,
{
    if m > n {
        lemma_first_unreadable_stops(data, n, m - 1);
    }
}

/// Read a zip archive from memory and return metadata for each entry: the
/// name and size of every entry, in order, when the archive opens and every
/// entry can be read; `OpenFailed` when it does not open; else
/// `EntryFailed` with the first entry that cannot be read.
pub fn read_zip_entries(data: &[u8]) -> (r: Result<Vec<ArchiveEntry>, ArchiveError>)
    ensures
        !zip_opens(data@) ==> r == Err::<Vec<ArchiveEntry>, ArchiveError>(ArchiveError::OpenFailed),
        zip_opens(data@) ==> match first_unreadable(data@, zip_directory(data@).len() as int) {
            None => r matches Ok(entries) && entry_views(entries@) == zip_directory(data@),
            Some(i) => r == Err::<Vec<ArchiveEntry>, ArchiveError>(
                ArchiveError::EntryFailed(i as usize),
            ),
        },
{
    let mut archive = match zip_open(data) {
        Ok(a) => a,
        Err(_) => {
            return Err(ArchiveError::OpenFailed);
        },
    };
    let ghost listed = zip_archive_entries(archive);
    let n = zip_len(&archive);
    let mut entries: Vec<ArchiveEntry> = Vec::new();
    let mut index: usize = 0;
    while index < n
        invariant
            n == listed.len(),
            listed == zip_directory(data@),
            zip_archive_entries(archive) == listed,
            zip_archive_bytes(archive) == data@,
            zip_opens(data@),
            index <= n,
            first_unreadable(data@, index as int) is None,
            entry_views(entries@) == listed.take(index as int),
        decreases n - index,
    {
        let r = zip_entry_at(&mut archive, index);
        match r {
            Ok(info) => {
                let ghost before = entries@;
                let (name, size, _is_dir) = info;
                entries.push(ArchiveEntry { path: name, size });
                assert(entry_views(entries@) =~= entry_views(before).push(listed[index as int]));
                assert(listed.take(index + 1) =~= listed.take(index as int).push(listed[index as int]));
            },
            Err(_) => {
                proof {
                    lemma_first_unreadable_stops(data@, index + 1, n as int);
                }
                return Err(ArchiveError::EntryFailed(index));
            },
        }
        index = index + 1;
    }
    assert(listed.take(n as int) =~= listed);
    Ok(entries)
}

// ---------------------------------------------------------------------------
// Safe entry names
// ---------------------------------------------------------------------------

/// The `/`-separated segments of a path, empty ones included.
pub open spec fn segments(s: Seq<char>) -> Seq<Seq<char>>
    decreases s.len(),
{
    if s.len() == 0 {
        seq![Seq::empty()]
    } else {
        let prev = segments(s.drop_last());
        if s.last() == '/' {
            prev.push(Seq::empty())
        } else {
            prev.update(prev.len() - 1, prev.last().push(s.last()))
        }
    }
}

/// A segment that names a directory or file (not empty, not `.`).
pub open spec fn is_normal_segment(seg: Seq<char>) -> bool {
    seg.len() > 0 && seg != seq!['.']
}

/// The normal segments among the first `n` segments, joined with `/`.
pub open spec fn join_normal(segs: Seq<Seq<char>>, n: int) -> Seq<char>
    decreases n,
{
    if n <= 0 {
        Seq::empty()
    } else {
        let prev = join_normal(segs, n - 1);
        let seg = segs[n - 1];
        if !is_normal_segment(seg) {
            prev
        } else if prev.len() == 0 {
            seg
        } else {
            prev + seq!['/'] + seg
        }
    }
}

/// A zip entry name that would escape the extraction directory: an absolute
/// path, or one with a `..` component.
pub open spec fn unsafe_entry_name(s: Seq<char>) -> bool {
    (s.len() > 0 && s[0] == '/') || exists|i: int|
        0 <= i < segments(s).len() && #[trigger] segments(s)[i] == seq!['.', '.']
}

/// The relative path an entry name is extracted to: its normal components
/// joined with `/`.
pub open spec fn safe_entry_path(s: Seq<char>) -> Seq<char> {
    join_normal(segments(s), segments(s).len() as int)
}

/// Sanitizing keeps an entry inside the extraction directory: the path that
/// a safe entry name is extracted to is itself safe, neither absolute nor
/// holding a `..` segment.
pub proof fn lemma_safe_entry_path_stays_inside(s: Seq<char>)
    requires
        !unsafe_entry_name(s),
    ensures
        !unsafe_entry_name(safe_entry_path(s)),
{
    lemma_segments_no_slash(s);
    lemma_join_normal_safe(segments(s), segments(s).len() as int);
}

/// The segments of two paths joined with `/` are the segments of the first
/// followed by those of the second.
proof fn lemma_segments_join(a: Seq<char>, b: Seq<char>)
    ensures
        segments(a + seq!['/'] + b) == segments(a) + segments(b),
    decreases b.len(),
{
    let x = a + seq!['/'] + b;
    if b.len() == 0 {
        assert(x =~= a.push('/'));
        assert(x.drop_last() =~= a);
        assert(segments(x) =~= segments(a) + segments(b));
    } else {
        lemma_segments_join(a, b.drop_last());
        lemma_segments_no_slash(b.drop_last());
        assert(x.drop_last() =~= a + seq!['/'] + b.drop_last());
        assert(x.last() == b.last());
        let pa = segments(a);
        let pb = segments(b.drop_last());
        if b.last() == '/' {
            assert(segments(x) =~= pa + pb.push(Seq::empty()));
        } else {
            assert(segments(x) =~= pa + pb.update(pb.len() - 1, pb.last().push(b.last())));
        }
        assert(segments(x) =~= segments(a) + segments(b));
    }
}

/// A non-empty path without `/` is a single segment.
proof fn lemma_segments_single(s: Seq<char>)
    requires
        !s.contains('/'),
    ensures
        segments(s) == seq![s],
    decreases s.len(),
{
    if s.len() > 0 {
        let p = s.drop_last();
        assert(!p.contains('/')) by {
            assert forall|j: int| 0 <= j < p.len() implies p[j] != '/' by {
                assert(p[j] == s[j]);
            }
        }
        lemma_segments_single(p);
        assert(s.last() != '/') by {
            assert(s[s.len() - 1] == s.last());
        }
        assert(p.push(s.last()) =~= s);
        assert(segments(s) =~= seq![s]);
    } else {
        assert(s =~= Seq::<char>::empty());
        assert(segments(s) =~= seq![s]);
    }
}

/// Joining segments that hold no `/` and none of which is `..` gives a safe
/// path.
proof fn lemma_join_normal_safe(segs: Seq<Seq<char>>, n: int)
    requires
        n <= segs.len(),
        forall|i: int| 0 <= i < segs.len() ==> !(#[trigger] segs[i]).contains('/'),
        forall|i: int| 0 <= i < segs.len() ==> #[trigger] segs[i] != seq!['.', '.'],
    ensures
        !unsafe_entry_name(join_normal(segs, n)),
    decreases n,
{
    let p = join_normal(segs, n);
    if n <= 0 {
        assert(segments(p) =~= seq![Seq::<char>::empty()]);
        assert(Seq::<char>::empty() != seq!['.', '.']);
    } else {
        lemma_join_normal_safe(segs, n - 1);
        let prev = join_normal(segs, n - 1);
        let seg = segs[n - 1];
        if is_normal_segment(seg) {
            lemma_segments_single(seg);
            assert(seg[0] != '/') by {
                assert(!seg.contains('/'));
            }
            if prev.len() == 0 {
                assert(segments(p) == seq![seg]);
            } else {
                lemma_segments_join(prev, seg);
                assert(segments(p) == segments(prev) + seq![seg]);
                assert(p[0] == prev[0]);
                assert forall|i: int| 0 <= i < segments(p).len() implies #[trigger] segments(p)[i]
                    != seq!['.', '.'] by {
                    if i < segments(prev).len() {
                        assert(segments(p)[i] == segments(prev)[i]);
                    }
                }
            }
        }
    }
}

proof fn lemma_segments_no_slash(s: Seq<char>)
    ensures
        segments(s).len() >= 1,
        forall|i: int| 0 <= i < segments(s).len() ==> !(#[trigger] segments(s)[i]).contains('/'),
    decreases s.len(),
{
    if s.len() > 0 {
        lemma_segments_no_slash(s.drop_last());
        let prev = segments(s.drop_last());
        if s.last() != '/' {
            let last = prev.last().push(s.last());
            assert(!last.contains('/')) by {
                assert(!prev[prev.len() - 1].contains('/'));
                assert forall|j: int| 0 <= j < last.len() implies last[j] != '/' by {
                    if j < last.len() - 1 {
                        assert(last[j] == prev.last()[j]);
                    }
                }
            }
            assert forall|i: int| 0 <= i < segments(s).len() implies !(
            #[trigger] segments(s)[i]).contains('/') by {
                if i < prev.len() - 1 {
                    assert(segments(s)[i] == prev[i]);
                }
            }
        } else {
            assert forall|i: int| 0 <= i < segments(s).len() implies !(
            #[trigger] segments(s)[i]).contains('/') by {
                if i < prev.len() {
                    assert(segments(s)[i] == prev[i]);
                } else {
                    assert(segments(s)[i] =~= Seq::<char>::empty());
                }
            }
        }
    }
}

/// The segments of a path, as vectors of characters.
fn split_segments(cs: &[char]) -> (segs: Vec<Vec<char>>)
    ensures
        segs@.len() == segments(cs@).len(),
        forall|i: int| 0 <= i < segs@.len() ==> #[trigger] segs@[i]@ == segments(cs@)[i],
{
    let mut done: Vec<Vec<char>> = Vec::new();
    let mut current: Vec<char> = Vec::new();
    let mut i: usize = 0;
    while i < cs.len()
        invariant
            i <= cs.len(),
            done@.len() + 1 == segments(cs@.take(i as int)).len(),
            forall|k: int| 0 <= k < done@.len() ==> #[trigger] done@[k]@ == segments(cs@.take(i as int))[k],
            current@ == segments(cs@.take(i as int)).last(),
        decreases cs.len() - i,
    {
        let ghost t = cs@.take(i + 1);
        assert(t.drop_last() =~= cs@.take(i as int));
        assert(t.last() == cs@[i as int]);
        let c = cs[i];
        if c == '/' {
            let finished = current;
            done.push(finished);
            current = Vec::new();
            assert(current@ =~= Seq::<char>::empty());
        } else {
            current.push(c);
        }
        i = i + 1;
    }
    assert(cs@.take(cs.len() as int) =~= cs@);
    done.push(current);
    done
}

/// Make a zip entry name safe to extract: refuse absolute names and names
/// with a `..` component, and drop empty and `.` components.
pub fn sanitize_zip_path(path: &str) -> (r: Result<String, String>)
    ensures
        unsafe_entry_name(path@) ==> (r matches Err(m) && m@
            == "zip entry contains unsafe path component: "@ + path@),
        !unsafe_entry_name(path@) ==> (r matches Ok(p) && p@ == safe_entry_path(path@)),
{
    let cs = chars_of(path);
    let segs = split_segments(cs.as_slice());
    let ghost spec_segs = segments(path@);
    let mut out: Vec<char> = Vec::new();
    let mut unsafe_found = cs.len() > 0 && cs[0] == '/';
    let mut k: usize = 0;
    while k < segs.len()
        invariant
            cs@ == path@,
            spec_segs == segments(path@),
            segs@.len() == spec_segs.len(),
            forall|i: int| 0 <= i < segs@.len() ==> #[trigger] segs@[i]@ == spec_segs[i],
            k <= segs.len(),
            out@ == join_normal(spec_segs, k as int),
            unsafe_found == ((path@.len() > 0 && path@[0] == '/') || exists|i: int|
                0 <= i < k && #[trigger] spec_segs[i] == seq!['.', '.']),
        decreases segs.len() - k,
    {
        let seg = &segs[k];
        assert(seg@ == spec_segs[k as int]);
        let dd = seg.len() == 2 && seg[0] == '.' && seg[1] == '.';
        assert(dd == (seg@ == seq!['.', '.'])) by {
            if seg@.len() == 2 && seg@[0] == '.' && seg@[1] == '.' {
                assert(seg@ =~= seq!['.', '.']);
            }
        }
        if dd {
            unsafe_found = true;
        }
        let normal = seg.len() > 0 && !(seg.len() == 1 && seg[0] == '.');
        assert(normal == is_normal_segment(seg@)) by {
            if seg@.len() == 1 && seg@[0] == '.' {
                assert(seg@ =~= seq!['.']);
            }
        }
        if normal {
            let ghost before = out@;
            if out.len() > 0 {
                out.push('/');
            }
            let mut j: usize = 0;
            let ghost mid = out@;
            while j < seg.len()
                invariant
                    j <= seg@.len(),
                    out@ == mid + seg@.take(j as int),
                decreases seg.len() - j,
            {
                out.push(seg[j]);
                j = j + 1;
                assert(out@ =~= mid + seg@.take(j as int));
            }
            assert(seg@.take(seg@.len() as int) =~= seg@);
            assert(out@ =~= join_normal(spec_segs, k + 1));
        }
        k = k + 1;
    }
    if unsafe_found {
        let mut m = String::new();
        push_str(&mut m, "zip entry contains unsafe path component: ");
        push_str(&mut m, path);
        Err(m)
    } else {
        Ok(string_of(out.as_slice()))
    }
}

// ---------------------------------------------------------------------------
// Planning an extraction
// ---------------------------------------------------------------------------

/// One entry to extract: where it goes below the extraction directory,
/// whether it is a directory, and the contents of a file.
#[derive(Debug, Clone, PartialEq, Eq)]
pub struct ExtractEntry {
    pub relative_path: String,
    pub is_dir: bool,
    pub contents: Vec<u8>,
}

/// Why an archive cannot be extracted.
#[derive(Debug, Clone, PartialEq, Eq)]
pub enum ExtractError {
    /// The bytes could not be opened as a zip archive.
    OpenFailed,
    /// The entry with this index could not be looked up or its name decoded.
    EntryFailed(usize),
    /// The entry with this index has a name that would escape the extraction
    /// directory; the message names it.
    UnsafePath(usize, String),
    /// The contents of the file entry with this index could not be read.
    ReadFailed(usize),
}

/// The name of entry `i` of the archive in `data`.
pub open spec fn zip_entry_name(data: Seq<u8>, i: int) -> Seq<char> {
    zip_directory(data)[i].0
}

/// Entry `i` can be extracted: it can be read, its name is safe, and it is a
/// directory or its contents can be read.
pub open spec fn entry_extractable(data: Seq<u8>, i: int) -> bool {
    &&& zip_entry_readable(data, i)
    &&& !unsafe_entry_name(zip_entry_name(data, i))
    &&& (zip_entry_is_dir(data, i) || zip_entry_extracts(data, i))
}

/// The first of the first `n` entries of the archive in `data` that cannot
/// be extracted.
pub open spec fn first_unextractable(data: Seq<u8>, n: int) -> Option<int>
    decreases n,
{
    if n <= 0 {
        None
    } else {
        match first_unextractable(data, n - 1) {
            Some(i) => Some(i),
            None => if entry_extractable(data, n - 1) {
                None
            } else {
                Some(n - 1)
            },
        }
    }
}

/// `e` is the error for entry `i`, the first that cannot be extracted: the
/// first of its checks that fails decides.
pub open spec fn extract_error_for(data: Seq<u8>, i: int, e: ExtractError) -> bool {
    if !zip_entry_readable(data, i) {
        e == ExtractError::EntryFailed(i as usize)
    } else if unsafe_entry_name(zip_entry_name(data, i)) {
        e matches ExtractError::UnsafePath(j, m) && j == i && m@
            == "zip entry contains unsafe path component: "@ + zip_entry_name(data, i)
    } else {
        e == ExtractError::ReadFailed(i as usize)
    }
}

/// `e` is what extracting entry `i` of the archive in `data` gives.
pub open spec fn extract_entry_of(data: Seq<u8>, i: int, e: ExtractEntry) -> bool {
    &&& e.relative_path@ == safe_entry_path(zip_entry_name(data, i))
    &&& e.is_dir == zip_entry_is_dir(data, i)
    &&& e.contents@ == if e.is_dir {
        Seq::empty()
    } else {
        zip_entry_data(data, i)
    }
}

proof fn lemma_first_unextractable_stops(data: Seq<u8>, n: int, m: int)
    requires
        n <= m,
        first_unextractable(data, n) is Some,
    ensures
        first_unextractable(data, m) == first_unextractable(data, n),
    decreases m - n,
{
    if m > n {
        lemma_first_unextractable_stops(data, n, m - 1);
    }
}

/// Plan the extraction of a zip archive held in memory: for every entry, in
/// order, the safe relative path it goes to, whether it is a directory, and
/// the contents of a file. It fails with `OpenFailed` when the bytes do not
/// open as an archive, and else with the error of the first entry that
/// cannot be extracted.
pub fn plan_zip_extraction(data: &[u8]) -> (r: Result<Vec<ExtractEntry>, ExtractError>)
    ensures
        !zip_opens(data@) ==> r == Err::<Vec<ExtractEntry>, ExtractError>(ExtractError::OpenFailed),
        zip_opens(data@) ==> match first_unextractable(data@, zip_directory(data@).len() as int) {
            None => r matches Ok(es) && es@.len() == zip_directory(data@).len() && forall|i: int|
                0 <= i < es@.len() ==> extract_entry_of(data@, i, #[trigger] es@[i]),
            Some(i) => r matches Err(e) && extract_error_for(data@, i, e),
        },
{
    let mut archive = match zip_open(data) {
        Ok(a) => a,
        Err(_) => {
            return Err(ExtractError::OpenFailed);
        },
    };
    let ghost listed = zip_archive_entries(archive);
    let n = zip_len(&archive);
    let mut planned: Vec<ExtractEntry> = Vec::new();
    let mut index: usize = 0;
    while index < n
        invariant
            n == listed.len(),
            listed == zip_directory(data@),
            zip_archive_entries(archive) == listed,
            zip_archive_bytes(archive) == data@,
            zip_opens(data@),
            index <= n,
            first_unextractable(data@, index as int) is None,
            planned@.len() == index,
            forall|i: int| 0 <= i < index ==> extract_entry_of(data@, i, #[trigger] planned@[i]),
        decreases n - index,
    {
        let (name, _size, is_dir) = match zip_entry_at(&mut archive, index) {
            Ok(info) => info,
            Err(_) => {
                proof {
                    lemma_first_unextractable_stops(data@, index + 1, n as int);
                }
                return Err(ExtractError::EntryFailed(index));
            },
        };
        let relative_path = match sanitize_zip_path(name.as_str()) {
            Ok(p) => p,
            Err(m) => {
                proof {
                    lemma_first_unextractable_stops(data@, index + 1, n as int);
                }
                return Err(ExtractError::UnsafePath(index, m));
            },
        };
        let contents = if is_dir {
            Vec::new()
        } else {
            match zip_entry_read(&mut archive, index) {
                Ok(c) => c,
                Err(_) => {
                    proof {
                        lemma_first_unextractable_stops(data@, index + 1, n as int);
                    }
                    return Err(ExtractError::ReadFailed(index));
                },
            }
        };
        planned.push(ExtractEntry { relative_path, is_dir, contents });
        index = index + 1;
    }
    Ok(planned)
}

// ---------------------------------------------------------------------------
// Choosing files by suffix
// ---------------------------------------------------------------------------

/// A path is wanted when no suffixes are given, or when it ends with one of
/// them, ignoring ASCII case.
pub open spec fn path_wanted(path: Seq<char>, suffixes: Option<Seq<Seq<char>>>) -> bool {
    match suffixes {
        None => true,
        Some(v) => any_suffix_matches(path, v),
    }
}

/// `path` ends with one of the suffixes, ignoring ASCII case.
pub open spec fn any_suffix_matches(path: Seq<char>, suffixes: Seq<Seq<char>>) -> bool {
    exists|i: int| 0 <= i < suffixes.len() && #[trigger] ends_with_ignoring_case(path, suffixes[i])
}

/// `path` ends with `suffix` when ASCII letters are compared without case.
pub open spec fn ends_with_ignoring_case(path: Seq<char>, suffix: Seq<char>) -> bool {
    ends_with(ascii_lowercase(path), ascii_lowercase(suffix))
}

fn lowercase_chars(cs: &[char]) -> (r: Vec<char>)
    ensures
        r@ == ascii_lowercase(cs@),
{
    let mut r: Vec<char> = Vec::new();
    for i in 0..cs.len()
        invariant
            r@ == ascii_lowercase(cs@).take(i as int),
    {
        r.push(crate::text::ascii_lower_exec(cs[i]));
        assert(r@ =~= ascii_lowercase(cs@).take(i + 1));
    }
    assert(ascii_lowercase(cs@).take(cs.len() as int) =~= ascii_lowercase(cs@));
    r
}

/// The views of a list of string slices.
pub open spec fn str_views(v: Seq<&str>) -> Seq<Seq<char>> {
    Seq::new(v.len(), |i: int| v[i]@)
}

/// Whether a scanned file is kept: no suffixes given, or its path ends with
/// one of them, ignoring ASCII case.
pub fn path_matches_suffixes(path: &str, suffixes: Option<&[&str]>) -> (r: bool)
    ensures
        r == path_wanted(
            path@,
            match suffixes {
                Some(v) => Some(str_views(v@)),
                None => None,
            },
        ),
{
    match suffixes {
        None => true,
        Some(wanted) => {
            let lower = lowercase_chars(chars_of(path).as_slice());
            let ghost views = str_views(wanted@);
            let mut i: usize = 0;
            while i < wanted.len()
                invariant
                    i <= wanted.len(),
                    (match suffixes {
                        Some(v) => Some(str_views(v@)),
                        None => None,
                    }) == Some(views),
                    views == str_views(wanted@),
                    lower@ == ascii_lowercase(path@),
                    forall|k: int| 0 <= k < i ==> !#[trigger] ends_with_ignoring_case(path@, views[k]),
                decreases wanted.len() - i,
            {
                let s = lowercase_chars(chars_of(wanted[i]).as_slice());
                assert(views[i as int] == wanted@[i as int]@);
                if ends_with_exec(lower.as_slice(), s.as_slice()) {
                    assert(ends_with_ignoring_case(path@, views[i as int]));
                    assert(views.len() == wanted@.len());
                    assert(any_suffix_matches(path@, views));
                    return true;
                }
                i = i + 1;
            }
            false
        },
    }
}

} // verus!
