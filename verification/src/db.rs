//! Parsing of the UDCast MFCC database format: a little-endian version word,
//! two fixed headers and two payload blobs whose lengths the headers give.
use crate::error::BuddyCastError;
use crate::text::{push_char, push_str};
use vstd::prelude::*;
use vstd::string::StringExecFns;

verus! {

/// The type of one header field.
#[derive(Debug, Clone, Copy, PartialEq, Eq, Structural)]
pub enum FieldType {
    I8,
    I16,
    I32,
    I64,
    F32,
}

/// The value of one header field; a 32-bit float is kept as its IEEE-754 bits.
#[derive(Debug, Clone, Copy, PartialEq, Eq, Structural)]
pub enum DbValue {
    I8(i8),
    I16(i16),
    I32(i32),
    I64(i64),
    F32Bits(u32),
}

/// One named header field.
#[derive(Debug, Clone)]
pub struct DbField {
    pub name: String,
    pub value: DbValue,
}

/// The first bytes of a payload blob.
#[derive(Debug, Clone)]
pub struct BytePreview {
    /// The first 16 bytes (or fewer) in lowercase hexadecimal.
    pub first_16_hex: String,
    /// The first 32 bytes (or fewer) read as signed bytes.
    pub first_32_signed_byte_values: Vec<i16>,
}

/// Summary of a payload blob; an empty blob has no preview.
#[derive(Debug, Clone)]
pub struct ByteStats {
    pub length: usize,
    pub preview: Option<BytePreview>,
}

/// What a database file holds, in the shape of the report that is written
/// for it.
#[derive(Debug, Clone)]
pub struct DbReport {
    pub path: String,
    pub file_size: usize,
    /// The IEEE-754 bits of the 32-bit float version word.
    pub db_version_bits: u32,
    pub header_offset_after_two_headers: usize,
    pub main_header: Vec<DbField>,
    pub sub_header: Vec<DbField>,
    pub payload_length_expected_from_headers: usize,
    pub payload_length_actual: usize,
    pub size_matches_header: bool,
    pub main_data: ByteStats,
    pub sub_data: ByteStats,
}

/// The fields of one header, in file order.
pub const HEADER_FIELDS: [(&'static str, FieldType); 15] = [
    ("SampleRate", FieldType::I32),
    ("BitPerSample", FieldType::I16),
    ("FrameShift", FieldType::I16),
    ("FrameSize", FieldType::I16),
    ("MFCCDimension", FieldType::I16),
    ("MFCCCorrelationDimensionStart", FieldType::I16),
    ("MFCCCorrelationDimensionEnd", FieldType::I16),
    ("FFTDimension", FieldType::I16),
    ("EvaluationThreshold", FieldType::F32),
    ("EvaluationCoefficient", FieldType::F32),
    ("CorrelationThreshold", FieldType::F32),
    ("ComparisonInterval", FieldType::I16),
    ("DeletedSameData", FieldType::I8),
    ("DataLength", FieldType::I64),
    ("MovieStartTime", FieldType::I64),
];

/// Bytes in one header.
pub const HEADER_SIZE: usize = 49;

/// Bytes before the payload: the version word and the two headers.
pub const PAYLOAD_OFFSET: usize = 102;

/// The number of bytes a field of this type takes.
pub open spec fn field_width(t: FieldType) -> nat {
    match t {
        FieldType::I8 => 1,
        FieldType::I16 => 2,
        FieldType::I32 => 4,
        FieldType::I64 => 8,
        FieldType::F32 => 4,
    }
}

/// Offset of header field `k` from the start of its header.
pub open spec fn field_offset(k: int) -> int {
    if k <= 0 {
        0
    } else if k == 1 {
        4
    } else if k <= 8 {
        4 + 2 * (k - 1)
    } else if k <= 11 {
        18 + 4 * (k - 8)
    } else if k == 12 {
        32
    } else if k == 13 {
        33
    } else if k == 14 {
        41
    } else {
        49
    }
}

/// The unsigned little-endian value of a byte sequence.
pub open spec fn le_value(b: Seq<u8>) -> nat
    decreases b.len(),
{
    if b.len() == 0 {
        0
    } else {
        (b[0] + 256 * le_value(b.skip(1))) as nat
    }
}

/// The value a field of type `t` has when it is stored in the bytes `b`.
pub open spec fn field_value(t: FieldType, b: Seq<u8>) -> DbValue {
    match t {
        FieldType::I8 => DbValue::I8(le_value(b) as i8),
        FieldType::I16 => DbValue::I16(le_value(b) as i16),
        FieldType::I32 => DbValue::I32(le_value(b) as i32),
        FieldType::I64 => DbValue::I64(le_value(b) as i64),
        FieldType::F32 => DbValue::F32Bits(le_value(b) as u32),
    }
}

/// The bytes of field `k` of the header that starts at `base`.
pub open spec fn field_bytes(data: Seq<u8>, base: int, k: int) -> Seq<u8> {
    data.subrange(base + field_offset(k), base + field_offset(k + 1))
}

/// The header that starts at `base`, as (name, value) pairs.
pub open spec fn header_at(data: Seq<u8>, base: int) -> Seq<(Seq<char>, DbValue)> {
    Seq::new(
        15,
        |k: int| (HEADER_FIELDS@[k].0@, field_value(HEADER_FIELDS@[k].1, field_bytes(data, base, k))),
    )
}

/// The (name, value) pairs of a list of fields.
pub open spec fn fields_view(fields: Seq<DbField>) -> Seq<(Seq<char>, DbValue)> {
    Seq::new(fields.len(), |k: int| (fields[k].name@, fields[k].value))
}

/// The `DataLength` of the header that starts at `base`, as the parser takes
/// it: the signed 64-bit value converted to `usize`.
pub open spec fn header_data_length(data: Seq<u8>, base: int) -> usize {
    (le_value(field_bytes(data, base, 13)) as i64) as usize
}

/// Length of the main payload that the main header declares.
pub open spec fn main_length(data: Seq<u8>) -> usize {
    header_data_length(data, 4)
}

/// Length of the sub payload that the sub header declares.
pub open spec fn sub_length(data: Seq<u8>) -> usize {
    header_data_length(data, 53)
}

/// The declared payload lengths, added to the header size, stay within
/// `usize`; the parser adds them with plain arithmetic.
pub open spec fn db_lengths_fit(data: Seq<u8>) -> bool {
    PAYLOAD_OFFSET + main_length(data) + sub_length(data) <= usize::MAX
}

/// `data[start..end]` when it lies inside `data`, else nothing.
pub open spec fn slice_or_empty(data: Seq<u8>, start: int, end: int) -> Seq<u8> {
    if start <= end && end <= data.len() {
        data.subrange(start, end)
    } else {
        Seq::empty()
    }
}

/// The main payload blob.
pub open spec fn main_blob(data: Seq<u8>) -> Seq<u8> {
    slice_or_empty(data, PAYLOAD_OFFSET as int, PAYLOAD_OFFSET + main_length(data))
}

/// The sub payload blob.
pub open spec fn sub_blob(data: Seq<u8>) -> Seq<u8> {
    slice_or_empty(
        data,
        PAYLOAD_OFFSET + main_length(data),
        PAYLOAD_OFFSET + main_length(data) + sub_length(data),
    )
}

/// The lowercase hexadecimal digit of `n < 16`.
pub open spec fn hex_digit(n: int) -> char {
    if n < 10 {
        (48 + n) as char
    } else {
        (87 + n) as char
    }
}

/// Bytes in lowercase hexadecimal, two digits per byte.
pub open spec fn hex_lower_spec(b: Seq<u8>) -> Seq<char>
    decreases b.len(),
{
    if b.len() == 0 {
        Seq::empty()
    } else {
        hex_lower_spec(b.drop_last()) + seq![hex_digit((b.last() / 16) as int), hex_digit((b.last() % 16) as int)]
    }
}

/// A byte read as a signed byte.
pub open spec fn signed_byte(b: u8) -> i16 {
    if b < 128 {
        b as i16
    } else {
        (b - 256) as i16
    }
}

/// The smaller of two integers.
pub open spec fn min(a: int, b: int) -> int {
    if a <= b {
        a
    } else {
        b
    }
}

/// `stats` summarizes `blob`.
pub open spec fn stats_of(stats: ByteStats, blob: Seq<u8>) -> bool {
    &&& stats.length == blob.len()
    &&& blob.len() == 0 ==> stats.preview is None
    &&& blob.len() > 0 ==> (stats.preview matches Some(p) && {
        &&& p.first_16_hex@ == hex_lower_spec(blob.take(min(16, blob.len() as int)))
        &&& p.first_32_signed_byte_values@ == Seq::new(
            min(32, blob.len() as int) as nat,
            |i: int| signed_byte(blob[i]),
        )
    })
}

/// `report` is what the parser gives for the database bytes `data` named `path`.
pub open spec fn report_of(report: DbReport, data: Seq<u8>, path: Seq<char>) -> bool {
    &&& report.path@ == path
    &&& report.file_size == data.len()
    &&& report.db_version_bits == le_value(data.subrange(0, 4)) as u32
    &&& report.header_offset_after_two_headers == PAYLOAD_OFFSET
    &&& fields_view(report.main_header@) == header_at(data, 4)
    &&& fields_view(report.sub_header@) == header_at(data, 53)
    &&& report.payload_length_expected_from_headers == main_length(data) + sub_length(data)
    &&& report.payload_length_actual == data.len() - PAYLOAD_OFFSET
    &&& report.size_matches_header == (PAYLOAD_OFFSET + main_length(data) + sub_length(data)
        == data.len())
    &&& stats_of(report.main_data, main_blob(data))
    &&& stats_of(report.sub_data, sub_blob(data))
}

/// Checks that `size` bytes can be read at `*offset` and moves the offset past
/// them; returns where they start.
fn read_exact(data: &[u8], offset: &mut usize, size: usize, field: &str) -> (r: Result<
    usize,
    BuddyCastError,
>)
    ensures
        *old(offset) + size <= data@.len() ==> r == Ok::<usize, BuddyCastError>(*old(offset))
            && *final(offset) == *old(offset) + size,
        *old(offset) + size > data@.len() ==> *final(offset) == *old(offset) && (r matches Err(
            BuddyCastError::DbTruncated { field: f, offset: o },
        ) && f@ == field@ && o == *old(offset)),
{
    if size > data.len() || *offset > data.len() - size {
        return Err(BuddyCastError::DbTruncated { field: String::from_str(field), offset: *offset });
    }
    let start = *offset;
    *offset = *offset + size;
    Ok(start)
}

/// Reads a signed byte.
fn read_i8(data: &[u8], offset: &mut usize, field: &str) -> (r: Result<i8, BuddyCastError>)
    ensures
        *old(offset) + 1 <= data@.len() ==> r == Ok::<i8, BuddyCastError>(
            le_value(data@.subrange(*old(offset) as int, *old(offset) + 1)) as i8,
        ) && *final(offset) == *old(offset) + 1,
        *old(offset) + 1 > data@.len() ==> r is Err,
{
    let start = read_exact(data, offset, 1, field)?;
    proof {
        reveal_with_fuel(le_value, 2);
    }
    Ok(data[start] as i8)
}

/// Reads a little-endian 16-bit integer.
fn read_i16(data: &[u8], offset: &mut usize, field: &str) -> (r: Result<i16, BuddyCastError>)
    ensures
        *old(offset) + 2 <= data@.len() ==> r == Ok::<i16, BuddyCastError>(
            le_value(data@.subrange(*old(offset) as int, *old(offset) + 2)) as i16,
        ) && *final(offset) == *old(offset) + 2,
        *old(offset) + 2 > data@.len() ==> r is Err,
{
    let start = read_exact(data, offset, 2, field)?;
    let u: u16 = data[start] as u16 + 256 * (data[start + 1] as u16);
    proof {
        reveal_with_fuel(le_value, 3);
        let b = data@.subrange(start as int, start + 2);
        assert(b.skip(1).skip(1).len() == 0);
        assert(le_value(b) == u);
    }
    Ok(u as i16)
}

/// Reads four little-endian bytes as an unsigned value.
fn read_u32_le(data: &[u8], offset: &mut usize, field: &str) -> (r: Result<u32, BuddyCastError>)
    ensures
        *old(offset) + 4 <= data@.len() ==> r == Ok::<u32, BuddyCastError>(
            le_value(data@.subrange(*old(offset) as int, *old(offset) + 4)) as u32,
        ) && *final(offset) == *old(offset) + 4 && le_value(
            data@.subrange(*old(offset) as int, *old(offset) + 4),
        ) < 0x1_0000_0000,
        *old(offset) + 4 > data@.len() ==> r is Err,
{
    let start = read_exact(data, offset, 4, field)?;
    let b0 = data[start] as u32;
    let b1 = data[start + 1] as u32;
    let b2 = data[start + 2] as u32;
    let b3 = data[start + 3] as u32;
    let u: u32 = b0 + 256 * (b1 + 256 * (b2 + 256 * b3));
    proof {
        reveal_with_fuel(le_value, 5);
        let b = data@.subrange(start as int, start + 4);
        assert(b.skip(1).skip(1).skip(1).skip(1).len() == 0);
        assert(le_value(b) == u);
    }
    Ok(u)
}

/// Reads a little-endian 32-bit integer.
fn read_i32(data: &[u8], offset: &mut usize, field: &str) -> (r: Result<i32, BuddyCastError>)
    ensures
        *old(offset) + 4 <= data@.len() ==> r == Ok::<i32, BuddyCastError>(
            le_value(data@.subrange(*old(offset) as int, *old(offset) + 4)) as i32,
        ) && *final(offset) == *old(offset) + 4,
        *old(offset) + 4 > data@.len() ==> r is Err,
{
    let u = read_u32_le(data, offset, field)?;
    Ok(u as i32)
}

/// Reads the IEEE-754 bits of a little-endian 32-bit float.
fn read_f32(data: &[u8], offset: &mut usize, field: &str) -> (r: Result<u32, BuddyCastError>)
    ensures
        *old(offset) + 4 <= data@.len() ==> r == Ok::<u32, BuddyCastError>(
            le_value(data@.subrange(*old(offset) as int, *old(offset) + 4)) as u32,
        ) && *final(offset) == *old(offset) + 4,
        *old(offset) + 4 > data@.len() ==> r is Err,
{
    read_u32_le(data, offset, field)
}

/// Reads a little-endian 64-bit integer.
fn read_i64(data: &[u8], offset: &mut usize, field: &str) -> (r: Result<i64, BuddyCastError>)
    ensures
        *old(offset) + 8 <= data@.len() ==> r == Ok::<i64, BuddyCastError>(
            le_value(data@.subrange(*old(offset) as int, *old(offset) + 8)) as i64,
        ) && *final(offset) == *old(offset) + 8,
        *old(offset) + 8 > data@.len() ==> r is Err,
{
    let start = read_exact(data, offset, 8, field)?;
    let b0 = data[start] as u64;
    let b1 = data[start + 1] as u64;
    let b2 = data[start + 2] as u64;
    let b3 = data[start + 3] as u64;
    let b4 = data[start + 4] as u64;
    let b5 = data[start + 5] as u64;
    let b6 = data[start + 6] as u64;
    let b7 = data[start + 7] as u64;
    let u: u64 = b0 + 256 * (b1 + 256 * (b2 + 256 * (b3 + 256 * (b4 + 256 * (b5 + 256 * (b6
        + 256 * b7))))));
    proof {
        reveal_with_fuel(le_value, 9);
        let b = data@.subrange(start as int, start + 8);
        assert(b.skip(1).skip(1).skip(1).skip(1).skip(1).skip(1).skip(1).skip(1).len() == 0);
        assert(le_value(b) == u);
    }
    Ok(u as i64)
}

/// Reads one field of the given type.
fn read_field(data: &[u8], offset: &mut usize, field: &str, field_type: FieldType) -> (r: Result<
    DbValue,
    BuddyCastError,
>)
    ensures
        *old(offset) + field_width(field_type) <= data@.len() ==> r == Ok::<
            DbValue,
            BuddyCastError,
        >(
            field_value(
                field_type,
                data@.subrange(*old(offset) as int, *old(offset) + field_width(field_type)),
            ),
        ) && *final(offset) == *old(offset) + field_width(field_type),
        *old(offset) + field_width(field_type) > data@.len() ==> r is Err,
{
    match field_type {
        FieldType::I8 => Ok(DbValue::I8(read_i8(data, offset, field)?)),
        FieldType::I16 => Ok(DbValue::I16(read_i16(data, offset, field)?)),
        FieldType::I32 => Ok(DbValue::I32(read_i32(data, offset, field)?)),
        FieldType::I64 => Ok(DbValue::I64(read_i64(data, offset, field)?)),
        FieldType::F32 => Ok(DbValue::F32Bits(read_f32(data, offset, field)?)),
    }
}

proof fn lemma_field_layout(k: int)
    requires
        0 <= k < 15,
    ensures
        field_offset(k + 1) == field_offset(k) + field_width(HEADER_FIELDS@[k].1),
        field_offset(0) == 0,
        field_offset(15) == 49,
{
}

/// Reads one header: its fields in the order of `HEADER_FIELDS`.
fn read_header(data: &[u8], offset: &mut usize) -> (r: Result<Vec<DbField>, BuddyCastError>)
    ensures
        *old(offset) + HEADER_SIZE <= data@.len() ==> (r matches Ok(fields) && fields_view(
            fields@,
        ) == header_at(data@, *old(offset) as int)) && *final(offset) == *old(offset) + HEADER_SIZE,
        *old(offset) + HEADER_SIZE > data@.len() ==> r is Err,
{
    let ghost base = *offset as int;
    let mut header: Vec<DbField> = Vec::new();
    let mut k: usize = 0;
    while k < 15
        invariant
            k <= 15,
            *offset == base + field_offset(k as int),
            k > 0 ==> *offset <= data@.len(),
            fields_view(header@) == header_at(data@, base).take(k as int),
            base == *old(offset),
        decreases 15 - k,
    {
        proof {
            lemma_field_layout(k as int);
        }
        let (name, field_type) = HEADER_FIELDS[k];
        let value = read_field(data, offset, name, field_type)?;
        let ghost before = header@;
        header.push(DbField { name: String::from_str(name), value });
        proof {
            assert(fields_view(header@) =~= fields_view(before).push((name@, value)));
            assert(header_at(data@, base).take(k + 1) =~= header_at(data@, base).take(
                k as int,
            ).push(header_at(data@, base)[k as int]));
        }
        k = k + 1;
    }
    assert(header_at(data@, base).take(15) =~= header_at(data@, base));
    Ok(header)
}

/// The lowercase hexadecimal digit of `n`.
fn hex_digit_char(n: u8) -> (c: char)
    requires
        n < 16,
    ensures
        c == hex_digit(n as int),
{
    if n < 10 {
        (48u8 + n) as char
    } else {
        (87u8 + n) as char
    }
}

/// Bytes in lowercase hexadecimal, two digits per byte.
pub fn hex_lower(bytes: &[u8]) -> (out: String)
    ensures
        out@ == hex_lower_spec(bytes@),
{
    let mut out = String::new();
    let mut i: usize = 0;
    while i < bytes.len()
        invariant
            i <= bytes.len(),
            out@ == hex_lower_spec(bytes@.take(i as int)),
        decreases bytes.len() - i,
    {
        let b = bytes[i];
        push_char(&mut out, hex_digit_char(b / 16));
        push_char(&mut out, hex_digit_char(b % 16));
        proof {
            let t = bytes@.take(i + 1);
            assert(t.drop_last() =~= bytes@.take(i as int));
            assert(t.last() == b);
        }
        i = i + 1;
        assert(out@ =~= hex_lower_spec(bytes@.take(i as int)));
    }
    assert(bytes@.take(bytes.len() as int) =~= bytes@);
    out
}

/// Summarizes a payload blob: its length and, when it is not empty, its first
/// bytes in hexadecimal and as signed values.
pub fn byte_stats(blob: &[u8]) -> (stats: ByteStats)
    ensures
        stats_of(stats, blob@),
{
    if blob.len() == 0 {
        return ByteStats { length: 0, preview: None };
    }
    let n32 = if blob.len() < 32 {
        blob.len()
    } else {
        32
    };
    let mut signed_values: Vec<i16> = Vec::new();
    for i in 0..n32
        invariant
            n32 <= blob.len(),
            signed_values@ == Seq::new(i as nat, |k: int| signed_byte(blob@[k])),
    {
        let b = blob[i];
        let v: i16 = if b < 128 {
            b as i16
        } else {
            b as i16 - 256
        };
        signed_values.push(v);
        assert(signed_values@ =~= Seq::new((i + 1) as nat, |k: int| signed_byte(blob@[k])));
    }
    let n16 = if blob.len() < 16 {
        blob.len()
    } else {
        16
    };
    let first = &blob[0..n16];
    assert(first@ =~= blob@.take(min(16, blob@.len() as int)));
    let hex = hex_lower(first);
    ByteStats {
        length: blob.len(),
        preview: Some(BytePreview { first_16_hex: hex, first_32_signed_byte_values: signed_values }),
    }
}

/// The `DataLength` value of a header read by `read_header`.
fn data_length_of(
    header: &Vec<DbField>,
    Ghost(data): Ghost<Seq<u8>>,
    Ghost(base): Ghost<int>,
) -> (v: i64)
    requires
        fields_view(header@) == header_at(data, base),
    ensures
        v == le_value(field_bytes(data, base, 13)) as i64,
{
    assert(fields_view(header@).len() == 15);
    assert(header@.len() == 15);
    assert(fields_view(header@)[13] == header_at(data, base)[13]);
    assert(HEADER_FIELDS@[13].1 == FieldType::I64);
    assert(header@[13].value == field_value(FieldType::I64, field_bytes(data, base, 13)));
    match header[13].value {
        DbValue::I64(v) => v,
        _ => {
            assert(false);
            0
        },
    }
}

/// Parse database bytes: the version word, the main and the sub header, and
/// a summary of the two payload blobs whose lengths the headers declare.
pub fn parse_db_bytes(data: &[u8], path: &str) -> (r: Result<DbReport, BuddyCastError>)
    requires
        data@.len() >= PAYLOAD_OFFSET ==> db_lengths_fit(data@),
    ensures
        r is Err <==> data@.len() < PAYLOAD_OFFSET,
        r matches Err(e) ==> (e matches BuddyCastError::DbTooSmall { path: p } && p@ == path@),
        r matches Ok(report) ==> report_of(report, data@, path@),
{
    if data.len() < PAYLOAD_OFFSET {
        return Err(BuddyCastError::DbTooSmall { path: String::from_str(path) });
    }
    let mut offset: usize = 0;
    let version = read_f32(data, &mut offset, "dbVersion")?;
    let main_header = read_header(data, &mut offset)?;
    let sub_header = read_header(data, &mut offset)?;
    let main_len = data_length_of(&main_header, Ghost(data@), Ghost(4int)) as usize;
    let sub_len = data_length_of(&sub_header, Ghost(data@), Ghost(53int)) as usize;
    assert(main_len == main_length(data@) && sub_len == sub_length(data@));
    let expected_size = offset + main_len + sub_len;
    let main_end = offset + main_len;
    let main_data: &[u8] = if main_end <= data.len() {
        &data[offset..main_end]
    } else {
        &data[0..0]
    };
    assert(main_data@ =~= main_blob(data@));
    let sub_data: &[u8] = if expected_size <= data.len() {
        &data[main_end..expected_size]
    } else {
        &data[0..0]
    };
    assert(sub_data@ =~= sub_blob(data@));
    Ok(
        DbReport {
            path: String::from_str(path),
            file_size: data.len(),
            db_version_bits: version,
            header_offset_after_two_headers: offset,
            main_header,
            sub_header,
            payload_length_expected_from_headers: main_len + sub_len,
            payload_length_actual: data.len() - offset,
            size_matches_header: expected_size == data.len(),
            main_data: byte_stats(main_data),
            sub_data: byte_stats(sub_data),
        },
    )
}

/// Whether the payload lengths that a database's headers declare can be
/// added to its header size within `usize`, as `parse_db_bytes` needs.
pub fn db_lengths_fit_exec(data: &[u8]) -> (r: bool)
    requires
        data@.len() >= PAYLOAD_OFFSET,
    ensures
        r == db_lengths_fit(data@),
{
    let mut main_offset: usize = 4 + 33;
    let mut sub_offset: usize = 53 + 33;
    let main = read_i64(data, &mut main_offset, "DataLength");
    let sub = read_i64(data, &mut sub_offset, "DataLength");
    match (main, sub) {
        (Ok(m), Ok(s)) => {
            assert(field_bytes(data@, 4, 13) =~= data@.subrange(37, 45));
            assert(field_bytes(data@, 53, 13) =~= data@.subrange(86, 94));
            let m = m as usize;
            let s = s as usize;
            match PAYLOAD_OFFSET.checked_add(m) {
                Some(a) => a.checked_add(s).is_some(),
                None => false,
            }
        },
        _ => false,
    }
}

/// The payload lengths a database declares, when they add up to its size,
/// are the lengths of the blobs that the report summarizes; and the size
/// matches exactly when the expected payload length is the actual one.
pub proof fn lemma_size_match_means_full_blobs(report: DbReport, data: Seq<u8>, path: Seq<char>)
    requires
        data.len() >= PAYLOAD_OFFSET,
        report_of(report, data, path),
    ensures
        report.size_matches_header <==> report.payload_length_expected_from_headers
            == report.payload_length_actual,
        report.size_matches_header ==> report.main_data.length == main_length(data)
            && report.sub_data.length == sub_length(data),
{
}

} // verus!
