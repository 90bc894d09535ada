//! Low-level parsing helpers shared by the archive reader and the
//! decompressor: the error taxonomy, bounded reads from a byte buffer,
//! little-endian integer fields and null-padded text fields.

use vstd::prelude::*;
use vstd::slice::{slice_index_get, slice_subrange};
use vstd::string::StringSliceAdditionalSpecFns;
use vstd::utf8::{decode_utf8, encode_utf8_decode_utf8, valid_utf8};

verus! {

/// Every way a parse or a decompression can fail.  A failure aborts the
/// whole call: no partial result is ever handed back beside one of these.
#[derive(Clone, Copy, Debug, PartialEq, Eq, Structural)]
pub enum ParseError {
    /// A read went past the end of the input buffer.
    EndOfData,
    /// A fixed-width field did not decode as valid text.
    InvalidText,
    /// A member name collided with one already present, or a record's
    /// conflict marker signalled a collision.
    DuplicateName,
    /// Reserved for callers that classify member payloads further; the
    /// reader and the decompressor never produce it.
    UnknownFormat,
}

impl ParseError {
    /// The description `message` returns for each variant.
    pub open spec fn spec_message(self) -> Seq<char> {
        match self {
            ParseError::EndOfData => "ran out of data while parsing"@,
            ParseError::InvalidText => "expected a valid UTF-8 string"@,
            ParseError::DuplicateName => "encountered multiple files with the same name"@,
            ParseError::UnknownFormat => "encountered a file of an unknown format"@,
        }
    }

    /// A short description of the failure, for callers that report it.
    pub fn message(&self) -> (r: &'static str)
        ensures
            r@ == self.spec_message(),
    {
        match self {
            ParseError::EndOfData => "ran out of data while parsing",
            ParseError::InvalidText => "expected a valid UTF-8 string",
            ParseError::DuplicateName => "encountered multiple files with the same name",
            ParseError::UnknownFormat => "encountered a file of an unknown format",
        }
    }
}

/// Reads `len` bytes from `data` starting at `*ptr`, then advances `ptr`
/// past them.  Fails without moving `ptr` when fewer than `len` bytes are
/// left.
pub(crate) fn read<'a>(data: &'a [u8], ptr: &mut usize, len: usize) -> (r: Result<
    &'a [u8],
    ParseError,
>)
    ensures
        *old(ptr) + len <= data@.len() ==> {
            &&& r matches Ok(s) && s@ == data@.subrange(*old(ptr) as int, *old(ptr) + len)
            &&& *final(ptr) == *old(ptr) + len
        },
        *old(ptr) + len > data@.len() ==> {
            &&& r matches Err(e) && e == ParseError::EndOfData
            &&& *final(ptr) == *old(ptr)
        },
{
    if len <= data.len() && *ptr <= data.len() - len {
        let s = slice_subrange(data, *ptr, *ptr + len);
        *ptr = *ptr + len;
        Ok(s)
    } else {
        Err(ParseError::EndOfData)
    }
}

/// The unsigned value of the four little-endian bytes of `d` at `p`.
pub open spec fn le32(d: Seq<u8>, p: int) -> int {
    d[p] + d[p + 1] * 0x100 + d[p + 2] * 0x1_0000 + d[p + 3] * 0x100_0000
}

/// The unsigned value of the two little-endian bytes of `d` at `p`.
pub open spec fn le16(d: Seq<u8>, p: int) -> int {
    d[p] + d[p + 1] * 0x100
}

/// Reads a 4-byte little-endian unsigned integer at offset `p`.
pub(crate) fn read_le32(data: &[u8], p: usize) -> (r: u32)
    requires
        p + 4 <= data@.len(),
    ensures
        r == le32(data@, p as int),
{
    let n = data.len();
    let b0 = *slice_index_get(data, p) as u32;
    let b1 = *slice_index_get(data, p + 1) as u32;
    let b2 = *slice_index_get(data, p + 2) as u32;
    let b3 = *slice_index_get(data, p + 3) as u32;
    b0 + b1 * 0x100 + b2 * 0x1_0000 + b3 * 0x100_0000
}

/// Reads a 2-byte little-endian unsigned integer at offset `p`.
pub(crate) fn read_le16(data: &[u8], p: usize) -> (r: u16)
    requires
        p + 2 <= data@.len(),
    ensures
        r == le16(data@, p as int),
{
    let n = data.len();
    let b0 = *slice_index_get(data, p) as u16;
    let b1 = *slice_index_get(data, p + 1) as u16;
    b0 + b1 * 0x100
}

/// `s` without its trailing null bytes.
pub open spec fn drop_trailing_nulls(s: Seq<u8>) -> Seq<u8>
    decreases s.len(),
{
    if s.len() > 0 && s[s.len() - 1] == 0 {
        drop_trailing_nulls(s.drop_last())
    } else {
        s
    }
}

/// `s` without its leading null bytes.
pub open spec fn drop_leading_nulls(s: Seq<u8>) -> Seq<u8>
    decreases s.len(),
{
    if s.len() > 0 && s[0] == 0 {
        drop_leading_nulls(s.drop_first())
    } else {
        s
    }
}

/// `s` without leading and trailing null padding.
pub open spec fn trim_nulls(s: Seq<u8>) -> Seq<u8> {
    drop_leading_nulls(drop_trailing_nulls(s))
}

proof fn lemma_drop_trailing_nulls(s: Seq<u8>, hi: int)
    requires
        0 <= hi <= s.len(),
        forall|j: int| hi <= j < s.len() ==> s[j] == 0,
        hi > 0 ==> s[hi - 1] != 0,
    ensures
        drop_trailing_nulls(s) == s.subrange(0, hi),
    decreases s.len(),
{
    if s.len() > 0 && s[s.len() - 1] == 0 {
        lemma_drop_trailing_nulls(s.drop_last(), hi);
        assert(s.drop_last().subrange(0, hi) =~= s.subrange(0, hi));
    } else {
        assert(s.subrange(0, hi) =~= s);
    }
}

proof fn lemma_drop_leading_nulls(s: Seq<u8>, lo: int)
    requires
        0 <= lo <= s.len(),
        forall|j: int| 0 <= j < lo ==> s[j] == 0,
        lo < s.len() ==> s[lo] != 0,
    ensures
        drop_leading_nulls(s) == s.subrange(lo, s.len() as int),
    decreases s.len(),
{
    if s.len() > 0 && s[0] == 0 {
        lemma_drop_leading_nulls(s.drop_first(), lo - 1);
        assert(s.drop_first().subrange(lo - 1, s.drop_first().len() as int) =~= s.subrange(
            lo,
            s.len() as int,
        ));
    } else {
        assert(s.subrange(lo, s.len() as int) =~= s);
    }
}

/// The trimmed field equals the subrange that the two scans of `null_str`
/// find.
proof fn lemma_trim_nulls_subrange(s: Seq<u8>, lo: int, hi: int)
    requires
        0 <= lo <= hi <= s.len(),
        forall|j: int| hi <= j < s.len() ==> s[j] == 0,
        hi > 0 ==> s[hi - 1] != 0,
        forall|j: int| 0 <= j < lo ==> s[j] == 0,
        lo < hi ==> s[lo] != 0,
    ensures
        trim_nulls(s) == s.subrange(lo, hi),
{
    lemma_drop_trailing_nulls(s, hi);
    let t = s.subrange(0, hi);
    lemma_drop_leading_nulls(t, lo);
    assert(t.subrange(lo, t.len() as int) =~= s.subrange(lo, hi));
}

/// What a null-padded text field denotes: the field with its null padding
/// stripped, decoded as UTF-8; nothing when the remainder is not valid
/// UTF-8.
pub open spec fn spec_null_str(field: Seq<u8>) -> Option<Seq<char>> {
    if valid_utf8(trim_nulls(field)) {
        Some(decode_utf8(trim_nulls(field)))
    } else {
        None
    }
}

/// Relies on `core::str::from_utf8`: it returns `Ok` exactly when the bytes
/// are valid UTF-8, and the `&str` it returns is backed by those same bytes.
#[verifier::external_body]
fn try_str(v: &[u8]) -> (r: Option<&str>)
    ensures
        r is Some <==> valid_utf8(v@),
        r matches Some(s) ==> s.spec_bytes() == v@,
{
    core::str::from_utf8(v).ok()
}

/// Interprets a fixed-width field as a null-padded string: strips leading
/// and trailing null bytes, then decodes what is left as UTF-8.
pub fn null_str(field: &[u8]) -> (r: Result<String, ParseError>)
    ensures
        match r {
            Ok(s) => spec_null_str(field@) == Some(s@),
            Err(e) => spec_null_str(field@) is None && e == ParseError::InvalidText,
        },
{
    let n = field.len();
    let mut hi: usize = n;
    while hi > 0 && *slice_index_get(field, hi - 1) == 0
        invariant
            0 <= hi <= n == field@.len(),
            forall|j: int| hi <= j < n ==> field@[j] == 0,
        decreases hi,
    {
        hi = hi - 1;
    }
    let mut lo: usize = 0;
    while lo < hi && *slice_index_get(field, lo) == 0
        invariant
            0 <= lo <= hi <= n == field@.len(),
            forall|j: int| 0 <= j < lo ==> field@[j] == 0,
        decreases hi - lo,
    {
        lo = lo + 1;
    }
    proof {
        lemma_trim_nulls_subrange(field@, lo as int, hi as int);
    }
    let trimmed = slice_subrange(field, lo, hi);
    match try_str(trimmed) {
        Some(s) => {
            proof {
                encode_utf8_decode_utf8(s@);
            }
            Ok(s.to_owned())
        },
        None => Err(ParseError::InvalidText),
    }
}

} // verus!
