//! Fixed-layout chunk header parsing.
//!
//! Every chunk opens with the magic bytes `F L R \0`, two big-endian version
//! words, seven big-endian 64-bit fields and one 32-bit feature word. The
//! header length is fixed by the format version; all offsets below are
//! relative to the chunk's own start, never to the file.

use vstd::prelude::*;

use crate::cursor::Cursor;
use crate::error::JfrError;

verus! {

/// Byte length of a chunk header: 4 magic bytes, two `u16` version fields,
/// seven `u64` fields and one `u32` feature field.
pub const HEADER_LENGTH: usize = 68;

/// The one major version this decoder understands. A higher minor version
/// under this major is accepted best-effort.
pub const SUPPORTED_MAJOR: u16 = 2;

/// Big-endian value of the two bytes at `i`.
pub open spec fn be16(s: Seq<u8>, i: int) -> nat {
    (s[i] as nat) * 0x100 + (s[i + 1] as nat)
}

/// Big-endian value of the four bytes at `i`.
pub open spec fn be32(s: Seq<u8>, i: int) -> nat {
    be16(s, i) * 0x10000 + be16(s, i + 2)
}

/// Big-endian value of the eight bytes at `i`.
pub open spec fn be64(s: Seq<u8>, i: int) -> nat {
    be32(s, i) * 0x1_0000_0000 + be32(s, i + 4)
}

/// Big-endian values are bounded by their width, whatever bytes they read.
pub proof fn lemma_be_bounds(s: Seq<u8>, i: int)
    ensures
        be16(s, i) < 0x1_0000,
        be32(s, i) < 0x1_0000_0000,
        be64(s, i) < 0x1_0000_0000_0000_0000,
{
    assert(be16(s, i) < 0x1_0000);
    assert(be16(s, i + 2) < 0x1_0000);
    assert(be32(s, i) < 0x1_0000_0000);
    assert(be16(s, i + 4) < 0x1_0000);
    assert(be16(s, i + 6) < 0x1_0000);
    assert(be32(s, i + 4) < 0x1_0000_0000);
    assert(be64(s, i) < 0x1_0000_0000_0000_0000);
}

/// The four bytes at `i` spell the chunk magic `F L R \0`.
pub open spec fn magic_ok(s: Seq<u8>, i: int) -> bool {
    s[i] == 0x46u8 && s[i + 1] == 0x4cu8 && s[i + 2] == 0x52u8 && s[i + 3] == 0x00u8
}

/// Big-endian read of two bytes.
pub fn u8_to_u16(source: &Vec<u8>, index: usize) -> (r: u16)
    requires
        index + 2 <= source.len(),
    ensures
        r as nat == be16(source@, index as int),
{
    (source[index] as u16) * 0x100 + (source[index + 1] as u16)
}

/// Big-endian read of four bytes.
pub fn u8_to_u32(source: &Vec<u8>, index: usize) -> (r: u32)
    requires
        index + 4 <= source.len(),
    ensures
        r as nat == be32(source@, index as int),
{
    (u8_to_u16(source, index) as u32) * 0x10000 + (u8_to_u16(source, index + 2) as u32)
}

/// Big-endian read of eight bytes.
pub fn u8_to_u64(source: &Vec<u8>, index: usize) -> (r: u64)
    requires
        index + 8 <= source.len(),
    ensures
        r as nat == be64(source@, index as int),
{
    (u8_to_u32(source, index) as u64) * 0x1_0000_0000 + (u8_to_u32(source, index + 4) as u64)
}

/// The fixed fields of a chunk header. The magic bytes are validated by
/// `parse_header` and not stored.
#[derive(Clone, Copy, Debug, PartialEq, Eq, Structural)]
pub struct Header {
    pub major_version: u16,
    pub minor_version: u16,
    /// Chunk size in bytes, the header included.
    pub size: u64,
    /// Offset of the constant-pool section, relative to the chunk start.
    pub constant_pool_offset: u64,
    /// Offset of the metadata section, relative to the chunk start.
    pub metadata_offset: u64,
    /// Start time in nanoseconds since the epoch.
    pub start_nanos: u64,
    /// Duration in nanoseconds.
    pub duration_nanos: u64,
    /// Tick counter at the chunk start.
    pub start_ticks: u64,
    /// Ticks per second.
    pub ticks_per_second: u64,
    /// Feature flags.
    pub features: u32,
}

/// Every field of `h` equals the big-endian value at its canonical offset in
/// the header starting at `i` of `s`.
pub open spec fn header_fields_match(h: Header, s: Seq<u8>, i: int) -> bool {
    &&& h.major_version as nat == be16(s, i + 4)
    &&& h.minor_version as nat == be16(s, i + 6)
    &&& h.size as nat == be64(s, i + 8)
    &&& h.constant_pool_offset as nat == be64(s, i + 16)
    &&& h.metadata_offset as nat == be64(s, i + 24)
    &&& h.start_nanos as nat == be64(s, i + 32)
    &&& h.duration_nanos as nat == be64(s, i + 40)
    &&& h.start_ticks as nat == be64(s, i + 48)
    &&& h.ticks_per_second as nat == be64(s, i + 56)
    &&& h.features as nat == be32(s, i + 64)
}

/// A header parse at `i` succeeds: the header fits, the magic matches, the
/// major version is supported, the declared size covers at least the header
/// itself, and both section offsets fall inside the declared size.
pub open spec fn header_parse_ok(s: Seq<u8>, i: int) -> bool {
    &&& i + HEADER_LENGTH <= s.len()
    &&& magic_ok(s, i)
    &&& be16(s, i + 4) == SUPPORTED_MAJOR as nat
    &&& be64(s, i + 8) >= HEADER_LENGTH as nat
    &&& be64(s, i + 16) < be64(s, i + 8)
    &&& be64(s, i + 24) < be64(s, i + 8)
}

/// The error a failing header parse at `i` reports: the first check that
/// fails, in the order the parser makes them.
pub open spec fn header_parse_err(s: Seq<u8>, i: int) -> JfrError {
    if i + HEADER_LENGTH > s.len() {
        JfrError::Truncated
    } else if !magic_ok(s, i) {
        JfrError::InvalidMagic
    } else if be16(s, i + 4) != SUPPORTED_MAJOR as nat {
        JfrError::UnsupportedVersion
    } else {
        JfrError::Corrupt
    }
}

impl Header {
    /// Reads every header field from its canonical offset at the start of
    /// `source`, without validation; `parse_header` is the checked entry.
    pub fn new(source: &Vec<u8>) -> (h: Header)
        requires
            source.len() >= HEADER_LENGTH,
        ensures
            header_fields_match(h, source@, 0),
    {
        Header {
            major_version: u8_to_u16(source, 4),
            minor_version: u8_to_u16(source, 6),
            size: u8_to_u64(source, 8),
            constant_pool_offset: u8_to_u64(source, 16),
            metadata_offset: u8_to_u64(source, 24),
            start_nanos: u8_to_u64(source, 32),
            duration_nanos: u8_to_u64(source, 40),
            start_ticks: u8_to_u64(source, 48),
            ticks_per_second: u8_to_u64(source, 56),
            features: u8_to_u32(source, 64),
        }
    }
}

/// Parses and validates the chunk header at `start`. Fails with `Truncated`
/// when fewer than `HEADER_LENGTH` bytes remain, `InvalidMagic` when the
/// first four bytes mismatch, `UnsupportedVersion` when the major version
/// differs from the supported one, and `Corrupt` when the declared size is
/// smaller than the header or either section offset falls outside it.
pub fn parse_header(data: &Vec<u8>, start: usize) -> (r: Result<Header, JfrError>)
    ensures
        match r {
            Ok(h) => header_parse_ok(data@, start as int) && header_fields_match(
                h,
                data@,
                start as int,
            ),
            Err(e) => !header_parse_ok(data@, start as int) && e == header_parse_err(
                data@,
                start as int,
            ),
        },
{
    let cur = Cursor::new(data);
    let buf = match cur.slice(start, HEADER_LENGTH) {
        Ok(b) => b,
        Err(_) => {
            return Err(JfrError::Truncated);
        },
    };
    if !(buf[0] == 0x46 && buf[1] == 0x4c && buf[2] == 0x52 && buf[3] == 0x00) {
        return Err(JfrError::InvalidMagic);
    }
    let h = Header::new(&buf);
    proof {
        lemma_be_window(data@, start as int, buf@);
    }
    if h.major_version != SUPPORTED_MAJOR {
        return Err(JfrError::UnsupportedVersion);
    }
    if h.size < HEADER_LENGTH as u64 {
        return Err(JfrError::Corrupt);
    }
    if h.constant_pool_offset >= h.size || h.metadata_offset >= h.size {
        return Err(JfrError::Corrupt);
    }
    Ok(h)
}

/// Big-endian reads inside a copied header window agree with reads at the
/// window's place in the whole source.
proof fn lemma_be_window(s: Seq<u8>, start: int, w: Seq<u8>)
    requires
        0 <= start,
        start + HEADER_LENGTH <= s.len(),
        w == s.subrange(start, start + HEADER_LENGTH),
    ensures
        magic_ok(w, 0) == magic_ok(s, start),
        forall|k: int| 0 <= k && k + 2 <= HEADER_LENGTH ==> be16(w, k) == be16(s, start + k),
        forall|k: int| 0 <= k && k + 4 <= HEADER_LENGTH ==> be32(w, k) == be32(s, start + k),
        forall|k: int| 0 <= k && k + 8 <= HEADER_LENGTH ==> be64(w, k) == be64(s, start + k),
{
    assert forall|k: int| 0 <= k && k + 2 <= HEADER_LENGTH implies be16(w, k) == be16(
        s,
        start + k,
    ) by {
        assert(w[k] == s[start + k]);
        assert(w[k + 1] == s[start + k + 1]);
    }
    assert forall|k: int| 0 <= k && k + 4 <= HEADER_LENGTH implies be32(w, k) == be32(
        s,
        start + k,
    ) by {
        assert(be16(w, k) == be16(s, start + k));
        assert(be16(w, k + 2) == be16(s, start + k + 2));
    }
    assert forall|k: int| 0 <= k && k + 8 <= HEADER_LENGTH implies be64(w, k) == be64(
        s,
        start + k,
    ) by {
        assert(be32(w, k) == be32(s, start + k));
        assert(be32(w, k + 4) == be32(s, start + k + 4));
    }
}

} // verus!
