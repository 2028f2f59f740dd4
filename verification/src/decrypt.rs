use vstd::prelude::*;

verus! {

/// Exact byte remapping table: each encrypted byte indexes this table and the
/// entry found there is the decrypted byte.
pub const DECRYPTION_MAP: [u8; 256] = [
    28, 42, 12, 24, 36, 125, 3, 46, 123, 15, 7, 39, 40, 13, 8, 93, 44, 95, 33, 34, 126, 127, 61, 0,
    16, 23, 4, 14, 92, 6, 1, 19, 32, 124, 20, 35, 27, 37, 38, 63, 9, 59, 62, 94, 29, 10, 31, 21,
    79, 99, 75, 65, 87, 120, 82, 118, 53, 57, 30, 18, 43, 26, 11, 5, 25, 97, 49, 69, 48, 114, 84,
    116, 85, 55, 121, 122, 108, 52, 51, 73, 76, 113, 70, 83, 81, 105, 119, 78, 88, 89, 54, 45, 22,
    41, 96, 64, 60, 110, 80, 106, 109, 98, 115, 66, 77, 72, 56, 100, 74, 107, 90, 71, 102, 68, 101,
    50, 117, 111, 103, 86, 112, 104, 67, 17, 58, 91, 2, 47, 138, 189, 232, 212, 135, 173, 151, 145,
    201, 194, 253, 163, 245, 235, 140, 187, 251, 236, 174, 131, 199, 221, 195, 165, 144, 186, 172,
    141, 168, 148, 230, 209, 247, 192, 190, 249, 207, 181, 244, 231, 254, 178, 255, 130, 166, 154,
    197, 205, 156, 237, 241, 223, 170, 164, 220, 224, 136, 134, 188, 246, 157, 213, 183, 177, 143,
    193, 252, 137, 155, 180, 196, 182, 128, 146, 203, 238, 132, 162, 210, 200, 211, 158, 161, 243,
    160, 152, 149, 159, 185, 202, 248, 150, 242, 239, 222, 240, 153, 225, 167, 227, 228, 184, 229,
    176, 233, 218, 198, 175, 206, 171, 216, 204, 139, 219, 191, 129, 234, 226, 250, 133, 179, 142,
    215, 217, 208, 214, 147, 169,
];

/// The decrypted value of one byte.
pub open spec fn decrypt_byte(b: u8) -> u8 {
    DECRYPTION_MAP@[b as int]
}

/// Decryption applied to every byte of a sequence.
pub open spec fn decrypted(data: Seq<u8>) -> Seq<u8> {
    Seq::new(data.len(), |i: int| decrypt_byte(data[i]))
}

/// Decrypt a full byte slice by applying the lookup table to every byte.
pub fn decrypt_bytes(data: &[u8]) -> (out: Vec<u8>)
    ensures
        out@ == decrypted(data@),
{
    let mut out: Vec<u8> = Vec::with_capacity(data.len());
    let mut i: usize = 0;
    while i < data.len()
        invariant
            i <= data.len(),
            out@ == decrypted(data@.take(i as int)),
        decreases data.len() - i,
    {
        let b = data[i];
        out.push(DECRYPTION_MAP[b as usize]);
        i = i + 1;
        assert(out@ =~= decrypted(data@.take(i as int)));
    }
    assert(data@.take(data.len() as int) =~= data@);
    out
}

/// Decrypts `chunk` and appends the result to `out`; a package decrypted chunk
/// by chunk this way gives the bytes that `decrypt_bytes` gives for it whole.
pub fn decrypt_chunk_into(out: &mut Vec<u8>, chunk: &[u8])
    ensures
        final(out)@ == old(out)@ + decrypted(chunk@),
{
    let ghost start = out@;
    let mut i: usize = 0;
    while i < chunk.len()
        invariant
            i <= chunk.len(),
            out@ == start + decrypted(chunk@.take(i as int)),
        decreases chunk.len() - i,
    {
        let b = chunk[i];
        out.push(DECRYPTION_MAP[b as usize]);
        i = i + 1;
        assert(out@ =~= start + decrypted(chunk@.take(i as int)));
    }
    assert(chunk@.take(chunk.len() as int) =~= chunk@);
}

/// Decryption works byte by byte: decrypting two pieces and joining the
/// results gives the decryption of the joined pieces, so a package may be
/// decrypted in chunks.
pub proof fn lemma_decrypt_concat(a: Seq<u8>, b: Seq<u8>)
    ensures
        decrypted(a + b) == decrypted(a) + decrypted(b),
{
    assert(decrypted(a + b) =~= decrypted(a) + decrypted(b));
}

/// Decryption keeps the length of the data and changes no byte by looking at
/// any other byte.
pub proof fn lemma_decrypt_length_and_position(data: Seq<u8>, i: int)
    requires
        0 <= i < data.len(),
    ensures
        decrypted(data).len() == data.len(),
        decrypted(data)[i] == decrypt_byte(data[i]),
{
}

/// The local file header signature of a zip archive: `PK\x03\x04`.
pub open spec fn zip_local_signature() -> Seq<u8> {
    seq![0x50u8, 0x4bu8, 0x03u8, 0x04u8]
}

/// The end-of-central-directory signature of a zip archive: `PK\x05\x06`.
pub open spec fn zip_end_signature() -> Seq<u8> {
    seq![0x50u8, 0x4bu8, 0x05u8, 0x06u8]
}

/// The spanning (data descriptor) signature of a zip archive: `PK\x07\x08`.
pub open spec fn zip_spanned_signature() -> Seq<u8> {
    seq![0x50u8, 0x4bu8, 0x07u8, 0x08u8]
}

/// `data` starts with one of the known zip signatures.
pub open spec fn starts_like_zip(data: Seq<u8>) -> bool {
    &&& data.len() >= 4
    &&& {
        let head = data.take(4);
        ||| head == zip_local_signature()
        ||| head == zip_end_signature()
        ||| head == zip_spanned_signature()
    }
}

/// Check whether a byte slice starts with a known zip file signature.
pub fn is_zip_bytes(data: &[u8]) -> (r: bool)
    ensures
        r == starts_like_zip(data@),
{
    if data.len() < 4 {
        return false;
    }
    let r = data[0] == 0x50 && data[1] == 0x4b && ((data[2] == 0x03 && data[3] == 0x04) || (
    data[2] == 0x05 && data[3] == 0x06) || (data[2] == 0x07 && data[3] == 0x08));
    proof {
        let head = data@.take(4);
        if r {
            assert(head =~= zip_local_signature() || head =~= zip_end_signature() || head
                =~= zip_spanned_signature());
        } else {
            assert(head[0] == data@[0] && head[1] == data@[1] && head[2] == data@[2] && head[3]
                == data@[3]);
            assert(head != zip_local_signature() && head != zip_end_signature() && head
                != zip_spanned_signature());
        }
    }
    r
}

} // verus!
