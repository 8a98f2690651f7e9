//! The `.ARWC.JPG` container: encode, decode, inspect, preview.

use vstd::prelude::*;
use crate::bytes::{le16, le16_bytes, le16_of, le32, le32_bytes, le32_of, le64, le64_bytes, le64_of, push_all};
use crate::compression::{
    encoder_events, encoder_finish, encoder_flush, encoder_input, encoder_new, encoder_set_pledged_src_size,
    encoder_setup, encoder_write_all, sha1_20, sha1_digest, zstd_decompress, zstd_decompressed, zstd_stream_frame,
};
use crate::error::{Error, Result};
use crate::jpeg::{
    attach_view_exif, jpeg_end, jpeg_exif_orientation, jpeg_exif_thumbnail, lemma_jpeg_end_bounds, opt_view,
    spec_attach_view_exif, spec_jpeg_end, spec_jpeg_exif_orientation, spec_jpeg_exif_thumbnail,
    spec_strip_view_exif, split_jpeg_prefix, strip_view_exif,
};
use crate::paths::string_push;
use crate::tiff::{
    ifd0_orientation, jpeg_bytes, parse_layout, spec_ifd0_orientation, spec_jpeg_bytes, spec_parse_layout, ArwLayout,
    JpegRef, RawIfd,
};
use crate::transform::{
    forward, inverse, pixels_from_le_bytes, pixels_to_le_bytes, spec_forward, spec_inverse, spec_pixels_from_le_bytes,
    spec_pixels_to_le_bytes,
};

verus! {

/// Magic of the trailer that follows the JPEG (the ASCII bytes `ARWZ`).
pub const MAGIC: &'static [u8; 4] = &[0x41, 0x52, 0x57, 0x5a];
/// Trailer format version.
pub const VERSION: u8 = 2;
/// Bayer same-channel delta followed by byte-shuffle.
pub const TRANSFORM_BAYER_HDELTA_SHUFFLE: u8 = 1;
/// Length of the fixed trailer header.
pub const TRAILER_HEADER_LEN: usize = 40;
/// zstd level of `encode`.
pub const DEFAULT_LEVEL: i32 = 19;

/// EOF footer: uncompressed size + SHA-1 of the original ARW.
/// `[orig_bytes u64 LE][sha1 20][magic ARWH]`
pub const FOOTER_MAGIC: &'static [u8; 4] = &[0x41, 0x52, 0x57, 0x48];
/// Length of the EOF footer.
pub const FOOTER_LEN: usize = 32;

/// Canonical suffix for encoded files (`photo.ARW` → `photo.ARWC.JPG`).
pub const ENCODED_EXTENSION: &'static str = ".ARWC.JPG";

// ---------------------------------------------------------------------------
// EOF footer.

/// The size and SHA-1 of the original ARW, stored at the end of the file.
pub struct OrigFooter {
    pub orig_bytes: u64,
    pub sha1: [u8; 20],
}

/// The footer of a file: its last 32 bytes, when they end in `ARWH`.
pub open spec fn spec_orig_footer(file: Seq<u8>) -> Option<(u64, Seq<u8>)> {
    if file.len() < FOOTER_LEN {
        None
    } else {
        let f = file.subrange(file.len() - FOOTER_LEN, file.len() as int);
        if f.subrange(28, 32) != FOOTER_MAGIC@ {
            None
        } else {
            Some((le64(f, 0) as u64, f.subrange(8, 28)))
        }
    }
}

/// The footer bytes for a size and a SHA-1.
#[verifier::opaque]
pub open spec fn spec_footer_bytes(orig_bytes: u64, sha1: Seq<u8>) -> Seq<u8> {
    le64_bytes(orig_bytes as int) + sha1 + FOOTER_MAGIC@
}

fn parse_orig_footer(file: &[u8]) -> (r: Option<OrigFooter>)
    ensures
        match spec_orig_footer(file@) {
            Some((n, h)) => r matches Some(f) && f.orig_bytes == n && f.sha1@ == h,
            None => r is None,
        },
{
    let len = file.len();
    if len < FOOTER_LEN {
        return None;
    }
    let f = &file[len - FOOTER_LEN..len];
    if f[28] != FOOTER_MAGIC[0] || f[29] != FOOTER_MAGIC[1] || f[30] != FOOTER_MAGIC[2] || f[31]
        != FOOTER_MAGIC[3] {
        assert(f@.subrange(28, 32) != FOOTER_MAGIC@) by {
            if f@.subrange(28, 32) == FOOTER_MAGIC@ {
                assert(f@.subrange(28, 32)[0] == f@[28]);
                assert(f@.subrange(28, 32)[1] == f@[29]);
                assert(f@.subrange(28, 32)[2] == f@[30]);
                assert(f@.subrange(28, 32)[3] == f@[31]);
            }
        }
        return None;
    }
    assert(f@.subrange(28, 32) =~= FOOTER_MAGIC@);
    let lo = (f[0] as u64) + (f[1] as u64) * 0x100 + (f[2] as u64) * 0x1_0000 + (f[3] as u64)
        * 0x100_0000;
    let hi = (f[4] as u64) + (f[5] as u64) * 0x100 + (f[6] as u64) * 0x1_0000 + (f[7] as u64)
        * 0x100_0000;
    let orig_bytes = lo + hi * 0x1_0000_0000;
    let sha1: [u8; 20] = [
        f[8],
        f[9],
        f[10],
        f[11],
        f[12],
        f[13],
        f[14],
        f[15],
        f[16],
        f[17],
        f[18],
        f[19],
        f[20],
        f[21],
        f[22],
        f[23],
        f[24],
        f[25],
        f[26],
        f[27],
    ];
    assert(sha1@ =~= f@.subrange(8, 28));
    Some(OrigFooter { orig_bytes, sha1 })
}

fn write_orig_footer(orig_bytes: u64, sha1: &[u8; 20]) -> (f: Vec<u8>)
    ensures
        f@ == spec_footer_bytes(orig_bytes, sha1@),
{
    let mut f: Vec<u8> = Vec::with_capacity(FOOTER_LEN);
    push_all(&mut f, le64_of(orig_bytes).as_slice());
    push_all(&mut f, sha1.as_slice());
    push_all(&mut f, FOOTER_MAGIC.as_slice());
    proof {
        reveal(spec_footer_bytes);
    }
    f
}

/// A footer read back from the end of any file gives what was written.
pub proof fn lemma_footer_roundtrip(prefix: Seq<u8>, orig_bytes: u64, sha1: Seq<u8>)
    requires
        sha1.len() == 20,
    ensures
        spec_footer_bytes(orig_bytes, sha1).len() == FOOTER_LEN,
        spec_orig_footer(prefix + spec_footer_bytes(orig_bytes, sha1)) == Some((orig_bytes, sha1)),
{
    reveal(spec_footer_bytes);
    let fb = spec_footer_bytes(orig_bytes, sha1);
    let file = prefix + fb;
    assert(file.subrange(file.len() - FOOTER_LEN, file.len() as int) =~= fb);
    assert(fb.subrange(28, 32) =~= FOOTER_MAGIC@);
    assert(fb.subrange(8, 28) =~= sha1);
    crate::bytes::lemma_le64_roundtrip(orig_bytes as int);
    assert(fb.subrange(0, 8) =~= le64_bytes(orig_bytes as int));
    assert(le64(fb, 0) == le64(le64_bytes(orig_bytes as int), 0));
}

} // verus!

verus! {

// ---------------------------------------------------------------------------
// Trailer header.

/// The fixed header of the ARWZ trailer.
pub struct TrailerMeta {
    pub orig_compression: u16,
    pub width: u16,
    pub height: u16,
    pub jpeg_tiff_offset: u32,
    pub jpeg_len: u32,
    pub header_elided_len: u32,
    pub orig_strip_bytes: u32,
    pub orig_strip_offset: u32,
    pub jpeg_padding_len: u32,
}

/// The trailer header at the start of `t`: magic `ARWZ`, version, transform,
/// then the little-endian fields.
#[verifier::opaque]
pub open spec fn spec_trailer_meta(t: Seq<u8>) -> core::result::Result<TrailerMeta, Error> {
    if t.len() < TRAILER_HEADER_LEN {
        Err(Error::Truncated)
    } else if t.subrange(0, 4) != MAGIC@ {
        Err(Error::Format("missing ARWZ trailer"))
    } else if t[4] != VERSION {
        Err(Error::Unsupported("unknown ARWZ version"))
    } else if t[5] != TRANSFORM_BAYER_HDELTA_SHUFFLE {
        Err(Error::Unsupported("unknown transform"))
    } else {
        Ok(
            TrailerMeta {
                orig_compression: le16(t, 6) as u16,
                width: le16(t, 8) as u16,
                height: le16(t, 10) as u16,
                jpeg_tiff_offset: le32(t, 12) as u32,
                jpeg_len: le32(t, 16) as u32,
                header_elided_len: le32(t, 20) as u32,
                orig_strip_bytes: le32(t, 24) as u32,
                orig_strip_offset: le32(t, 28) as u32,
                jpeg_padding_len: le32(t, 32) as u32,
            },
        )
    }
}

/// The 40 bytes of a trailer header (the last four are zero).
#[verifier::opaque]
pub open spec fn spec_trailer_bytes(m: TrailerMeta) -> Seq<u8> {
    MAGIC@ + seq![VERSION, TRANSFORM_BAYER_HDELTA_SHUFFLE] + le16_bytes(m.orig_compression as int)
        + le16_bytes(m.width as int) + le16_bytes(m.height as int) + le32_bytes(
        m.jpeg_tiff_offset as int,
    ) + le32_bytes(m.jpeg_len as int) + le32_bytes(m.header_elided_len as int) + le32_bytes(
        m.orig_strip_bytes as int,
    ) + le32_bytes(m.orig_strip_offset as int) + le32_bytes(m.jpeg_padding_len as int) + seq![
        0u8,
        0u8,
        0u8,
        0u8,
    ]
}

fn read_le16(t: &[u8], i: usize) -> (v: u16)
    requires
        i + 2 <= t@.len(),
    ensures
        v == le16(t@, i as int),
{
    t[i] as u16 + (t[i + 1] as u16) * 256
}

fn read_le32(t: &[u8], i: usize) -> (v: u32)
    requires
        i + 4 <= t@.len(),
    ensures
        v == le32(t@, i as int),
{
    let _len = t.len(); // its length fits in a usize, which the offset arithmetic below relies on
    read_le16(t, i) as u32 + (read_le16(t, i + 2) as u32) * 65536
}

fn parse_trailer_meta(t: &[u8]) -> (r: Result<TrailerMeta>)
    ensures
        match spec_trailer_meta(t@) {
            Ok(m) => r matches Ok(x) && x == m,
            Err(e) => r matches Err(x) && x == e,
        },
{
    reveal(spec_trailer_meta);
    if t.len() < TRAILER_HEADER_LEN {
        return Err(Error::Truncated);
    }
    if t[0] != MAGIC[0] || t[1] != MAGIC[1] || t[2] != MAGIC[2] || t[3] != MAGIC[3] {
        assert(t@.subrange(0, 4) != MAGIC@) by {
            if t@.subrange(0, 4) == MAGIC@ {
                assert(t@.subrange(0, 4)[0] == t@[0]);
                assert(t@.subrange(0, 4)[1] == t@[1]);
                assert(t@.subrange(0, 4)[2] == t@[2]);
                assert(t@.subrange(0, 4)[3] == t@[3]);
            }
        }
        return Err(Error::Format("missing ARWZ trailer"));
    }
    assert(t@.subrange(0, 4) =~= MAGIC@);
    if t[4] != VERSION {
        return Err(Error::Unsupported("unknown ARWZ version"));
    }
    if t[5] != TRANSFORM_BAYER_HDELTA_SHUFFLE {
        return Err(Error::Unsupported("unknown transform"));
    }
    Ok(
        TrailerMeta {
            orig_compression: read_le16(t, 6),
            width: read_le16(t, 8),
            height: read_le16(t, 10),
            jpeg_tiff_offset: read_le32(t, 12),
            jpeg_len: read_le32(t, 16),
            header_elided_len: read_le32(t, 20),
            orig_strip_bytes: read_le32(t, 24),
            orig_strip_offset: read_le32(t, 28),
            jpeg_padding_len: read_le32(t, 32),
        },
    )
}

#[verifier::rlimit(30)]
fn write_trailer_meta(m: &TrailerMeta) -> (h: Vec<u8>)
    ensures
        h@ == spec_trailer_bytes(*m),
{
    let mut h: Vec<u8> = Vec::with_capacity(TRAILER_HEADER_LEN);
    push_all(&mut h, MAGIC.as_slice());
    h.push(VERSION);
    h.push(TRANSFORM_BAYER_HDELTA_SHUFFLE);
    push_all(&mut h, le16_of(m.orig_compression).as_slice());
    push_all(&mut h, le16_of(m.width).as_slice());
    push_all(&mut h, le16_of(m.height).as_slice());
    push_all(&mut h, le32_of(m.jpeg_tiff_offset).as_slice());
    push_all(&mut h, le32_of(m.jpeg_len).as_slice());
    push_all(&mut h, le32_of(m.header_elided_len).as_slice());
    push_all(&mut h, le32_of(m.orig_strip_bytes).as_slice());
    push_all(&mut h, le32_of(m.orig_strip_offset).as_slice());
    push_all(&mut h, le32_of(m.jpeg_padding_len).as_slice());
    h.push(0);
    h.push(0);
    h.push(0);
    h.push(0);
    assert(h@ =~= spec_trailer_bytes(*m)) by {
        reveal(spec_trailer_bytes);
    }
    h
}

/// 16-bit little-endian bytes read back inside a larger sequence.
proof fn lemma_le16_at(s: Seq<u8>, i: int, v: int)
    requires
        0 <= v < 65536,
        0 <= i,
        i + 2 <= s.len(),
        s.subrange(i, i + 2) == le16_bytes(v),
    ensures
        le16(s, i) == v,
{
    assert(s[i] == s.subrange(i, i + 2)[0]);
    assert(s[i + 1] == s.subrange(i, i + 2)[1]);
}

/// 32-bit little-endian bytes read back inside a larger sequence.
proof fn lemma_le32_at(s: Seq<u8>, i: int, v: int)
    requires
        0 <= v < 0x1_0000_0000,
        0 <= i,
        i + 4 <= s.len(),
        s.subrange(i, i + 4) == le32_bytes(v),
    ensures
        le32(s, i) == v,
{
    let b = le32_bytes(v);
    assert(s.subrange(i, i + 2) =~= b.subrange(0, 2));
    assert(s.subrange(i + 2, i + 4) =~= b.subrange(2, 4));
    assert(b.subrange(0, 2) =~= le16_bytes(v % 65536));
    assert(b.subrange(2, 4) =~= le16_bytes((v / 65536) % 65536));
    lemma_le16_at(s, i, v % 65536);
    lemma_le16_at(s, i + 2, (v / 65536) % 65536);
}

/// A trailer header read back from the start of any data gives what was
/// written.
#[verifier::rlimit(60)]
pub proof fn lemma_trailer_roundtrip(m: TrailerMeta, rest: Seq<u8>)
    ensures
        spec_trailer_bytes(m).len() == TRAILER_HEADER_LEN,
        spec_trailer_meta(spec_trailer_bytes(m) + rest) == Ok::<TrailerMeta, Error>(m),
{
    reveal(spec_trailer_meta);
    reveal(spec_trailer_bytes);
    let b = spec_trailer_bytes(m);
    let t = b + rest;
    assert(b.len() == 40);
    assert(t.subrange(0, 4) =~= MAGIC@);
    assert(t[4] == VERSION);
    assert(t[5] == TRANSFORM_BAYER_HDELTA_SHUFFLE);
    assert(t.subrange(6, 8) =~= le16_bytes(m.orig_compression as int));
    assert(t.subrange(8, 10) =~= le16_bytes(m.width as int));
    assert(t.subrange(10, 12) =~= le16_bytes(m.height as int));
    assert(t.subrange(12, 16) =~= le32_bytes(m.jpeg_tiff_offset as int));
    assert(t.subrange(16, 20) =~= le32_bytes(m.jpeg_len as int));
    assert(t.subrange(20, 24) =~= le32_bytes(m.header_elided_len as int));
    assert(t.subrange(24, 28) =~= le32_bytes(m.orig_strip_bytes as int));
    assert(t.subrange(28, 32) =~= le32_bytes(m.orig_strip_offset as int));
    assert(t.subrange(32, 36) =~= le32_bytes(m.jpeg_padding_len as int));
    lemma_le16_at(t, 6, m.orig_compression as int);
    lemma_le16_at(t, 8, m.width as int);
    lemma_le16_at(t, 10, m.height as int);
    lemma_le32_at(t, 12, m.jpeg_tiff_offset as int);
    lemma_le32_at(t, 16, m.jpeg_len as int);
    lemma_le32_at(t, 20, m.header_elided_len as int);
    lemma_le32_at(t, 24, m.orig_strip_bytes as int);
    lemma_le32_at(t, 28, m.orig_strip_offset as int);
    lemma_le32_at(t, 32, m.jpeg_padding_len as int);
}

} // verus!

verus! {

// ---------------------------------------------------------------------------
// What a file is.

/// The kind of file `inspect` saw.
#[derive(Clone, Copy, Debug, PartialEq, Eq, Structural)]
pub enum Kind {
    /// `FF D8 … FF D9` then ARWZ trailer. Viewers see a normal JPEG.
    JpegContainer,
    /// Uncompressed Sony ARW (TIFF).
    SonyArw,
}

/// What `inspect` reports about a file.
#[derive(Clone, Debug)]
pub struct FileInfo {
    pub kind: Kind,
    /// Bytes to fetch to get the viewable JPEG (and its EXIF). For a JPEG
    /// container this is the EOI offset — no trailer, no raw, no zstd.
    pub preview_bytes: u32,
    pub width: u16,
    pub height: u16,
    pub encoded: bool,
    /// EXIF Orientation 1–8. Encoded files put this in a stripable view APP1
    /// so browsers and Gallery do not need the ARW TIFF. Sony ARW still stores
    /// it on TIFF IFD0, not the camera JPEG.
    pub orientation: u16,
    /// Uncompressed ARW size in bytes (trailer and/or EOF footer).
    pub orig_bytes: Option<u64>,
    /// SHA-1 of the uncompressed ARW, when the EOF footer is present.
    pub orig_sha1: Option<[u8; 20]>,
}

/// Lower-case hex digit of a value below 16.
pub open spec fn hex_digit(v: int) -> char {
    if v < 10 {
        (48 + v) as char
    } else {
        (87 + v) as char
    }
}

/// Two lower-case hex digits per byte.
pub open spec fn hex_string(h: Seq<u8>) -> Seq<char>
    decreases h.len(),
{
    if h.len() == 0 {
        Seq::empty()
    } else {
        hex_string(h.drop_last()) + seq![hex_digit(h.last() as int / 16), hex_digit(h.last() as int % 16)]
    }
}

const HEX_DIGITS: [char; 16] = [
    '0',
    '1',
    '2',
    '3',
    '4',
    '5',
    '6',
    '7',
    '8',
    '9',
    'a',
    'b',
    'c',
    'd',
    'e',
    'f',
];

fn hex_sha1(h: [u8; 20]) -> (s: String)
    ensures
        s@ == hex_string(h@),
{
    let mut s = String::new();
    let mut i: usize = 0;
    while i < 20
        invariant
            i <= 20,
            s@ == hex_string(h@.subrange(0, i as int)),
        decreases 20 - i,
    {
        let b = h[i];
        let hi = HEX_DIGITS[(b / 16) as usize];
        let lo = HEX_DIGITS[(b % 16) as usize];
        assert(hi == hex_digit(b as int / 16)) by {
            assert(HEX_DIGITS@ =~= seq!['0', '1', '2', '3', '4', '5', '6', '7', '8', '9', 'a', 'b', 'c', 'd', 'e', 'f']);
        }
        assert(lo == hex_digit(b as int % 16)) by {
            assert(HEX_DIGITS@ =~= seq!['0', '1', '2', '3', '4', '5', '6', '7', '8', '9', 'a', 'b', 'c', 'd', 'e', 'f']);
        }
        string_push(&mut s, hi);
        string_push(&mut s, lo);
        assert(h@.subrange(0, i + 1).drop_last() =~= h@.subrange(0, i as int));
        i += 1;
        assert(s@ =~= hex_string(h@.subrange(0, i as int)));
    }
    assert(h@.subrange(0, 20) =~= h@);
    s
}

impl FileInfo {
    /// The SHA-1 of the original ARW in lower-case hex, when it is known.
    pub fn orig_sha1_hex(&self) -> (r: Option<String>)
        ensures
            match self.orig_sha1 {
                Some(h) => r matches Some(s) && s@ == hex_string(h@),
                None => r is None,
            },
    {
        match self.orig_sha1 {
            Some(h) => Some(hex_sha1(h)),
            None => None,
        }
    }
}

} // verus!

verus! {

// ---------------------------------------------------------------------------
// Choosing embedded JPEGs.

/// Index of the longest of `js[0..n]`, the last one among equals.
pub open spec fn longest_index(js: Seq<JpegRef>, n: int) -> int
    decreases n,
{
    if n <= 1 {
        0
    } else {
        let b = longest_index(js, n - 1);
        if js[n - 1].length >= js[b].length {
            n - 1
        } else {
            b
        }
    }
}

/// The largest embedded JPEG of an ARW (the last one among equals), as
/// offset and length.
pub open spec fn spec_largest_jpeg(arw: Seq<u8>) -> core::result::Result<(u32, u32), Error> {
    match spec_parse_layout(arw) {
        Err(e) => Err(e),
        Ok((_, js)) => if js.len() == 0 {
            Err(Error::Format("no embedded JPEG"))
        } else {
            let j = js[longest_index(js, js.len() as int)];
            Ok((j.offset, j.length))
        },
    }
}

proof fn lemma_longest_index_bounds(js: Seq<JpegRef>, n: int)
    requires
        1 <= n,
    ensures
        0 <= longest_index(js, n) < n,
    decreases n,
{
    if n > 1 {
        lemma_longest_index_bounds(js, n - 1);
    }
}

/// `longest_index` picks a longest JPEG, the last one among equals.
pub proof fn lemma_longest_index_is_longest(js: Seq<JpegRef>, n: int)
    requires
        1 <= n <= js.len(),
    ensures
        0 <= longest_index(js, n) < n,
        forall|j: int| 0 <= j < n ==> #[trigger] js[j].length <= js[longest_index(js, n)].length,
        forall|j: int| longest_index(js, n) < j < n ==> #[trigger] js[j].length < js[longest_index(js, n)].length,
    decreases n,
{
    if n > 1 {
        lemma_longest_index_is_longest(js, n - 1);
    }
}

/// The preview of an ARW is its longest embedded JPEG (the last one among
/// equals): no embedded JPEG is longer.
pub proof fn lemma_largest_jpeg_is_longest(arw: Seq<u8>)
    requires
        spec_largest_jpeg(arw) is Ok,
    ensures
        ({
            let (off, len) = spec_largest_jpeg(arw)->Ok_0;
            let js = spec_parse_layout(arw)->Ok_0.1;
            &&& exists|i: int| 0 <= i < js.len() && js[i] == JpegRef { offset: off, length: len }
            &&& forall|j: int| 0 <= j < js.len() ==> #[trigger] js[j].length <= len
        }),
{
    let js = spec_parse_layout(arw)->Ok_0.1;
    lemma_longest_index_is_longest(js, js.len() as int);
    let li = longest_index(js, js.len() as int);
    assert(js[li] == JpegRef { offset: js[li].offset, length: js[li].length });
}

fn largest_jpeg_in_arw(arw: &[u8]) -> (r: Result<(u32, u32)>)
    ensures
        match spec_largest_jpeg(arw@) {
            Ok(p) => r matches Ok(q) && q == p,
            Err(e) => r matches Err(x) && x == e,
        },
{
    let layout = parse_layout(arw)?;
    let js = &layout.jpegs;
    if js.len() == 0 {
        return Err(Error::Format("no embedded JPEG"));
    }
    let mut best: usize = 0;
    let mut i: usize = 1;
    while i < js.len()
        invariant
            1 <= i <= js@.len(),
            best == longest_index(js@, i as int),
            best < i,
        decreases js@.len() - i,
    {
        if js[i].length >= js[best].length {
            best = i;
        }
        i += 1;
    }
    Ok((js[best].offset, js[best].length))
}

/// Whether an embedded JPEG may serve as the view thumbnail: not the skipped
/// preview, 2..=60000 bytes, within the file and starting with `FF D8`.
pub open spec fn thumb_candidate(arw: Seq<u8>, j: JpegRef, skip_off: u32, skip_len: u32) -> bool {
    &&& (j.offset != skip_off || j.length != skip_len)
    &&& 2 <= j.length <= 60000
    &&& spec_jpeg_bytes(arw, j) is Ok
    &&& arw[j.offset as int] == 0xff
    &&& arw[j.offset + 1] == 0xd8
}

/// Index of the shortest candidate among `js[0..n]`, the first one among
/// equals; `None` if there is no candidate.
pub open spec fn shortest_candidate(arw: Seq<u8>, js: Seq<JpegRef>, n: int, skip_off: u32, skip_len: u32) -> Option<int>
    decreases n,
{
    if n <= 0 {
        None
    } else {
        let prev = shortest_candidate(arw, js, n - 1, skip_off, skip_len);
        if !thumb_candidate(arw, js[n - 1], skip_off, skip_len) {
            prev
        } else {
            match prev {
                None => Some(n - 1),
                Some(b) => if js[n - 1].length < js[b].length {
                    Some(n - 1)
                } else {
                    Some(b)
                },
            }
        }
    }
}

proof fn lemma_shortest_candidate(arw: Seq<u8>, js: Seq<JpegRef>, n: int, skip_off: u32, skip_len: u32)
    ensures
        shortest_candidate(arw, js, n, skip_off, skip_len) matches Some(b) ==> 0 <= b < n
            && thumb_candidate(arw, js[b], skip_off, skip_len),
    decreases n,
{
    if n > 0 {
        lemma_shortest_candidate(arw, js, n - 1, skip_off, skip_len);
    }
}

/// `shortest_candidate` picks a shortest candidate, the first one among
/// equals, and finds none only when there is none.
pub proof fn lemma_shortest_candidate_is_shortest(arw: Seq<u8>, js: Seq<JpegRef>, n: int, skip_off: u32, skip_len: u32)
    requires
        0 <= n <= js.len(),
    ensures
        match shortest_candidate(arw, js, n, skip_off, skip_len) {
            Some(b) => {
                &&& 0 <= b < n
                &&& thumb_candidate(arw, js[b], skip_off, skip_len)
                &&& forall|j: int| 0 <= j < n && #[trigger] thumb_candidate(arw, js[j], skip_off, skip_len)
                    ==> js[b].length <= js[j].length
                &&& forall|j: int| 0 <= j < b && #[trigger] thumb_candidate(arw, js[j], skip_off, skip_len)
                    ==> js[b].length < js[j].length
            },
            None => forall|j: int| 0 <= j < n ==> !#[trigger] thumb_candidate(arw, js[j], skip_off, skip_len),
        },
    decreases n,
{
    if n > 0 {
        lemma_shortest_candidate_is_shortest(arw, js, n - 1, skip_off, skip_len);
    }
}

/// Smallest extra JPEG in the ARW (typically TIFF IFD1), for the view APP1.
fn smallest_embedded_jpeg<'a>(arw: &'a [u8], jpegs: &[JpegRef], skip_off: u32, skip_len: u32) -> (r:
    Option<&'a [u8]>)
    ensures
        match shortest_candidate(arw@, jpegs@, jpegs@.len() as int, skip_off, skip_len) {
            Some(b) => r matches Some(t) && t@ == spec_jpeg_bytes(arw@, jpegs@[b])->Ok_0,
            None => r is None,
        },
{
    let mut best: Option<&'a [u8]> = None;
    let mut i: usize = 0;
    while i < jpegs.len()
        invariant
            i <= jpegs@.len(),
            match shortest_candidate(arw@, jpegs@, i as int, skip_off, skip_len) {
                Some(b) => best matches Some(t) && t@ == spec_jpeg_bytes(arw@, jpegs@[b])->Ok_0
                    && t@.len() == jpegs@[b].length,
                None => best is None,
            },
        decreases jpegs@.len() - i,
    {
        let j = jpegs[i];
        proof {
            lemma_shortest_candidate(arw@, jpegs@, i as int, skip_off, skip_len);
        }
        if (j.offset != skip_off || j.length != skip_len) && 2 <= j.length && j.length <= 60000 {
            match jpeg_bytes(arw, &j) {
                Ok(t) => {
                    if t.len() >= 2 && t[0] == 0xff && t[1] == 0xd8 {
                        let better = match best {
                            None => true,
                            Some(b) => t.len() < b.len(),
                        };
                        if better {
                            best = Some(t);
                        }
                    }
                },
                Err(_) => {},
            }
        }
        i += 1;
    }
    best
}

/// Orientation for the view: the camera JPEG's EXIF, else TIFF IFD0, else 1.
pub open spec fn spec_preview_orientation(jpeg: Seq<u8>, tiff: Seq<u8>) -> u16 {
    match spec_jpeg_exif_orientation(jpeg) {
        Some(o) => o,
        None => match spec_ifd0_orientation(tiff) {
            Some(o) => o,
            None => 1,
        },
    }
}

fn preview_orientation(jpeg: &[u8], tiff: &[u8]) -> (o: u16)
    ensures
        o == spec_preview_orientation(jpeg@, tiff@),
{
    match jpeg_exif_orientation(jpeg) {
        Some(o) => o,
        None => match ifd0_orientation(tiff) {
            Some(o) => o,
            None => 1,
        },
    }
}

/// Whether a file starts with a JPEG start of image.
pub open spec fn starts_jpeg(d: Seq<u8>) -> bool {
    d.len() >= 2 && d[0] == 0xff && d[1] == 0xd8
}

/// The viewable JPEG of a file.
pub open spec fn spec_extract_preview(data: Seq<u8>) -> core::result::Result<Seq<u8>, Error> {
    if starts_jpeg(data) {
        match spec_jpeg_end(data) {
            Ok(end) => Ok(data.subrange(0, end)),
            Err(e) => Err(e),
        }
    } else {
        match spec_largest_jpeg(data) {
            Err(e) => Err(e),
            Ok((off, len)) => spec_jpeg_bytes(data, JpegRef { offset: off, length: len }),
        }
    }
}

/// The viewable JPEG. Does not decompress the raw strip.
///
/// On a JPEG-container file this is a prefix of the file itself — scan to
/// `FF D9`. Encoded files prepend a stripable ARWC view APP1 (orientation and
/// a copied thumbnail) in front of the camera JPEG. On a Sony ARW it is
/// copied out of the TIFF.
pub fn extract_preview(data: &[u8]) -> (r: Result<&[u8]>)
    ensures
        match spec_extract_preview(data@) {
            Ok(p) => r matches Ok(b) && b@ == p,
            Err(e) => r matches Err(x) && x == e,
        },
{
    if data.len() >= 2 && data[0] == 0xff && data[1] == 0xd8 {
        let end = jpeg_end(data)?;
        proof {
            lemma_jpeg_end_bounds(data@);
        }
        return Ok(&data[0..end]);
    }
    let (off, len) = largest_jpeg_in_arw(data)?;
    jpeg_bytes(data, &JpegRef { offset: off, length: len })
}

} // verus!

verus! {

// ---------------------------------------------------------------------------
// inspect

/// What `inspect` reports, with the digest as a sequence.
pub struct InfoSpec {
    pub kind: Kind,
    pub preview_bytes: u32,
    pub width: u16,
    pub height: u16,
    pub encoded: bool,
    pub orientation: u16,
    pub orig_bytes: Option<u64>,
    pub orig_sha1: Option<Seq<u8>>,
}

/// Whether a reported `FileInfo` is the specified one.
pub open spec fn info_matches(i: FileInfo, s: InfoSpec) -> bool {
    &&& i.kind == s.kind
    &&& i.preview_bytes == s.preview_bytes
    &&& i.width == s.width
    &&& i.height == s.height
    &&& i.encoded == s.encoded
    &&& i.orientation == s.orientation
    &&& i.orig_bytes == s.orig_bytes
    &&& match (i.orig_sha1, s.orig_sha1) {
        (Some(a), Some(b)) => a@ == b,
        (None, None) => true,
        _ => false,
    }
}

/// Where the elided TIFF header ends in a trailer, as `saturating_add` computes it.
pub open spec fn elided_end(meta: TrailerMeta) -> int {
    if TRAILER_HEADER_LEN + meta.header_elided_len > usize::MAX {
        usize::MAX as int
    } else {
        TRAILER_HEADER_LEN + meta.header_elided_len
    }
}

/// What `inspect` reports about a JPEG container whose JPEG ends at `end`.
pub open spec fn container_info(data: Seq<u8>, end: int, meta: TrailerMeta) -> InfoSpec {
    let rest = data.subrange(end, data.len() as int);
    let e = elided_end(meta);
    let elided = if e <= rest.len() {
        rest.subrange(TRAILER_HEADER_LEN as int, e)
    } else {
        Seq::empty()
    };
    let footer = spec_orig_footer(data);
    InfoSpec {
        kind: Kind::JpegContainer,
        preview_bytes: end as u32,
        width: meta.width,
        height: meta.height,
        encoded: true,
        orientation: spec_preview_orientation(data.subrange(0, end), elided),
        orig_bytes: Some(
            match footer {
                Some((n, _)) => n,
                None => (meta.orig_strip_offset + meta.orig_strip_bytes) as u64,
            },
        ),
        orig_sha1: match footer {
            Some((_, h)) => Some(h),
            None => None,
        },
    }
}

/// What `inspect` reports about an ARW.
pub open spec fn arw_info(data: Seq<u8>, raw: RawIfd) -> InfoSpec {
    let jpeg = match spec_largest_jpeg(data) {
        Ok((off, len)) => match spec_jpeg_bytes(data, JpegRef { offset: off, length: len }) {
            Ok(b) => b,
            Err(_) => Seq::empty(),
        },
        Err(_) => Seq::empty(),
    };
    InfoSpec {
        kind: Kind::SonyArw,
        preview_bytes: raw.strip_offset,
        width: raw.width,
        height: raw.height,
        encoded: false,
        orientation: spec_preview_orientation(jpeg, data),
        orig_bytes: Some(data.len() as u64),
        orig_sha1: None,
    }
}

/// What `inspect` reports: a JPEG with an ARWZ trailer is a container; any
/// other JPEG is an error; anything else is read as an ARW.
#[verifier::opaque]
pub open spec fn spec_inspect(data: Seq<u8>) -> core::result::Result<InfoSpec, Error> {
    if starts_jpeg(data) {
        match spec_jpeg_end(data) {
            Err(e) => Err(e),
            Ok(end) => {
                let rest = data.subrange(end, data.len() as int);
                if rest.len() >= 4 && rest.subrange(0, 4) == MAGIC@ {
                    match spec_trailer_meta(rest) {
                        Err(e) => Err(e),
                        Ok(meta) => Ok(container_info(data, end, meta)),
                    }
                } else {
                    Err(Error::Format("JPEG has no ARWZ trailer"))
                }
            },
        }
    } else {
        match spec_parse_layout(data) {
            Err(e) => Err(e),
            Ok((raw, _)) => Ok(arw_info(data, raw)),
        }
    }
}

/// Kind, size, orientation and recorded original size and digest of an
/// encoded container or an ARW.
pub fn inspect(data: &[u8]) -> (r: Result<FileInfo>)
    ensures
        match spec_inspect(data@) {
            Ok(s) => r matches Ok(i) && info_matches(i, s),
            Err(e) => r matches Err(x) && x == e,
        },
{
    proof {
        reveal(spec_inspect);
    }
    if data.len() >= 2 && data[0] == 0xff && data[1] == 0xd8 {
        let (jpeg, rest) = split_jpeg_prefix(data)?;
        proof {
            lemma_jpeg_end_bounds(data@);
        }
        if rest.len() >= 4 && rest[0] == MAGIC[0] && rest[1] == MAGIC[1] && rest[2] == MAGIC[2]
            && rest[3] == MAGIC[3] {
            assert(rest@.subrange(0, 4) =~= MAGIC@);
            let meta = parse_trailer_meta(rest)?;
            let elided_stop = TRAILER_HEADER_LEN.saturating_add(meta.header_elided_len as usize);
            let elided: &[u8] = if elided_stop <= rest.len() {
                &rest[TRAILER_HEADER_LEN..elided_stop]
            } else {
                &rest[0..0]
            };
            assert(elided_stop <= rest@.len() || elided@ =~= Seq::<u8>::empty());
            let footer = parse_orig_footer(data);
            let orig_bytes = match &footer {
                Some(f) => f.orig_bytes,
                None => meta.orig_strip_offset as u64 + meta.orig_strip_bytes as u64,
            };
            let orig_sha1 = match footer {
                Some(f) => Some(f.sha1),
                None => None,
            };
            return Ok(
                FileInfo {
                    kind: Kind::JpegContainer,
                    preview_bytes: jpeg.len() as u32,
                    width: meta.width,
                    height: meta.height,
                    encoded: true,
                    orientation: preview_orientation(jpeg, elided),
                    orig_bytes: Some(orig_bytes),
                    orig_sha1,
                },
            );
        }
        proof {
            if rest@.len() >= 4 && rest@.subrange(0, 4) == MAGIC@ {
                assert(rest@.subrange(0, 4)[0] == rest@[0]);
                assert(rest@.subrange(0, 4)[1] == rest@[1]);
                assert(rest@.subrange(0, 4)[2] == rest@[2]);
                assert(rest@.subrange(0, 4)[3] == rest@[3]);
            }
        }
        return Err(Error::Format("JPEG has no ARWZ trailer"));
    }
    let layout = parse_layout(data)?;
    let jpeg: &[u8] = match largest_jpeg_in_arw(data) {
        Ok((off, len)) => match jpeg_bytes(data, &JpegRef { offset: off, length: len }) {
            Ok(b) => b,
            Err(_) => &data[0..0],
        },
        Err(_) => &data[0..0],
    };
    proof {
        assert(data@.subrange(0, 0) =~= Seq::<u8>::empty());
    }
    Ok(
        FileInfo {
            kind: Kind::SonyArw,
            preview_bytes: layout.raw.strip_offset,
            width: layout.raw.width,
            height: layout.raw.height,
            encoded: false,
            orientation: preview_orientation(jpeg, data),
            orig_bytes: Some(data.len() as u64),
            orig_sha1: None,
        },
    )
}

/// Whether a file is an encoded container.
pub open spec fn spec_is_encoded(data: Seq<u8>) -> bool {
    match spec_inspect(data) {
        Ok(i) => i.encoded,
        Err(_) => false,
    }
}

/// Whether `inspect` sees an encoded container.
pub fn is_encoded(data: &[u8]) -> (b: bool)
    ensures
        b == spec_is_encoded(data@),
{
    match inspect(data) {
        Ok(i) => i.encoded,
        Err(_) => false,
    }
}

} // verus!

verus! {

// ---------------------------------------------------------------------------
// Moving the preview JPEG out of the TIFF header and back.

/// The TIFF header without the JPEG bytes `[off, off + len)`.
pub open spec fn spec_elide_jpeg(header: Seq<u8>, off: int, len: int) -> core::result::Result<Seq<u8>, Error> {
    if off + len > usize::MAX || off + len > header.len() {
        Err(Error::Format("JPEG outside TIFF header"))
    } else {
        Ok(header.subrange(0, off) + header.subrange(off + len, header.len() as int))
    }
}

/// The elided header with `jpeg` put back at `off`.
pub open spec fn spec_restore_header(elided: Seq<u8>, jpeg: Seq<u8>, off: int) -> core::result::Result<Seq<u8>, Error> {
    if off > elided.len() {
        Err(Error::Format("JPEG insert offset past elided header"))
    } else {
        Ok(elided.subrange(0, off) + jpeg + elided.subrange(off, elided.len() as int))
    }
}

fn elide_jpeg(header: &[u8], jpeg_off: usize, jpeg_len: usize) -> (r: Result<Vec<u8>>)
    ensures
        match spec_elide_jpeg(header@, jpeg_off as int, jpeg_len as int) {
            Ok(v) => r matches Ok(o) && o@ == v,
            Err(e) => r matches Err(x) && x == e,
        },
{
    let end = match jpeg_off.checked_add(jpeg_len) {
        Some(e) => e,
        None => return Err(Error::Format("JPEG outside TIFF header")),
    };
    if end > header.len() {
        return Err(Error::Format("JPEG outside TIFF header"));
    }
    let mut elided: Vec<u8> = Vec::with_capacity(header.len() - jpeg_len);
    push_all(&mut elided, &header[0..jpeg_off]);
    push_all(&mut elided, &header[end..header.len()]);
    Ok(elided)
}

fn restore_header(elided: &[u8], jpeg: &[u8], jpeg_off: usize) -> (r: Result<Vec<u8>>)
    ensures
        match spec_restore_header(elided@, jpeg@, jpeg_off as int) {
            Ok(v) => r matches Ok(o) && o@ == v,
            Err(e) => r matches Err(x) && x == e,
        },
{
    if jpeg_off > elided.len() {
        return Err(Error::Format("JPEG insert offset past elided header"));
    }
    let mut header: Vec<u8> = Vec::new();
    push_all(&mut header, &elided[0..jpeg_off]);
    push_all(&mut header, jpeg);
    push_all(&mut header, &elided[jpeg_off..elided.len()]);
    Ok(header)
}

/// Putting the JPEG back where it was taken out gives the header back.
pub proof fn lemma_restore_undoes_elide(header: Seq<u8>, off: int, len: int)
    requires
        0 <= off,
        0 <= len,
        spec_elide_jpeg(header, off, len) is Ok,
    ensures
        spec_restore_header(
            spec_elide_jpeg(header, off, len)->Ok_0,
            header.subrange(off, off + len),
            off,
        ) == Ok::<Seq<u8>, Error>(header),
{
    let e = spec_elide_jpeg(header, off, len)->Ok_0;
    assert(e.subrange(0, off) =~= header.subrange(0, off));
    assert(e.subrange(off, e.len() as int) =~= header.subrange(off + len, header.len() as int));
    assert(header.subrange(0, off) + header.subrange(off, off + len) + header.subrange(
        off + len,
        header.len() as int,
    ) =~= header);
}

} // verus!

verus! {

// ---------------------------------------------------------------------------
// Progress and compression.

/// Whether a progress callback accepts every percentage.
pub open spec fn accepts_any_percent<F: FnMut(u8)>(f: F) -> bool {
    forall|x: u8| call_requires(f, (x,))
}

/// Whether a sequence of percentages is at most 100 throughout and never
/// decreases.
pub open spec fn percentages_ok(s: Seq<u8>) -> bool {
    &&& forall|i: int| 0 <= i < s.len() ==> #[trigger] s[i] <= 100
    &&& forall|i: int, j: int| 0 <= i <= j < s.len() ==> #[trigger] s[i] <= #[trigger] s[j]
}

/// A percentage clamped to 100.
pub open spec fn clamp_percent(pct: u8) -> u8 {
    if pct > 100 {
        100
    } else {
        pct
    }
}

/// Passes percentages on to a callback: each clamped to 100 and passed only
/// when it differs from the one passed before.
pub struct Progress {
    last: u8,
    log: Ghost<Seq<u8>>,
}

impl Progress {
    /// The percentages passed to the callback so far, in order.
    pub closed spec fn reported(&self) -> Seq<u8> {
        self.log@
    }

    /// What every reporter keeps: it remembers the last percentage passed.
    pub closed spec fn wf(&self) -> bool {
        &&& self.log@.len() == 0 ==> self.last == 255
        &&& self.log@.len() > 0 ==> self.last == self.log@.last()
    }

    /// A reporter that has passed nothing yet.
    pub fn new() -> (p: Self)
        ensures
            p.wf(),
            p.reported() == Seq::<u8>::empty(),
    {
        Progress { last: 255, log: Ghost(Seq::empty()) }
    }

    /// Reports `pct`, clamped to 100, to `f` unless it equals the last one
    /// passed.
    pub fn report<F: FnMut(u8)>(&mut self, f: &mut F, pct: u8)
        requires
            old(self).wf(),
            accepts_any_percent(*old(f)),
        ensures
            final(self).wf(),
            accepts_any_percent(*final(f)),
            final(self).reported() == old(self).reported() + (if old(self).reported().len() > 0
                && old(self).reported().last() == clamp_percent(pct) {
                Seq::empty()
            } else {
                seq![clamp_percent(pct)]
            }),
            percentages_ok(old(self).reported()) && (old(self).reported().len() > 0
                ==> old(self).reported().last() <= clamp_percent(pct)) ==> percentages_ok(
                final(self).reported(),
            ),
    {
        let pct = if pct > 100 {
            100
        } else {
            pct
        };
        if pct != self.last {
            self.last = pct;
            f(pct);
            self.log = Ghost(self.log@.push(pct));
        }
    }
}

/// Whether `z` is a zstd frame of `s`: decompressing it with any capacity at
/// least the length of `s` gives `s`.
pub open spec fn compressed_strip(z: Seq<u8>, s: Seq<u8>) -> bool {
    forall|cap: nat| cap >= s.len() ==> #[trigger] zstd_decompressed(z, cap) == Some(s)
}

/// A step of the compression progress: 15 plus the share of `done` bytes
/// out of `total`, scaled to 80.
pub open spec fn compress_progress(done: int, total: int) -> int {
    15 + done * 80 / total
}

proof fn lemma_compress_progress(a: int, b: int, total: int)
    requires
        0 <= a <= b <= total,
        total > 0,
    ensures
        15 <= compress_progress(a, total) <= compress_progress(b, total) <= 95,
{
    assert(a * 80 <= b * 80) by (nonlinear_arith)
        requires
            a <= b,
    ;
    assert(b * 80 <= total * 80) by (nonlinear_arith)
        requires
            b <= total,
    ;
    vstd::arithmetic::div_mod::lemma_div_is_ordered(a * 80, b * 80, total);
    vstd::arithmetic::div_mod::lemma_div_is_ordered(b * 80, total * 80, total);
    vstd::arithmetic::div_mod::lemma_div_by_multiple(80, total);
    assert(total * 80 == 80 * total) by (nonlinear_arith);
    vstd::arithmetic::div_mod::lemma_div_pos_is_pos(a * 80, total);
}

/// The size of the chunks the shuffled strip is compressed in: 1 MiB.
pub const CHUNK: usize = 1048576;

/// The encoder calls that compress `s` from `start` on: a `write_all` of each
/// chunk of `CHUNK` bytes (the last one shorter), each followed by a `flush`.
#[verifier::opaque]
pub open spec fn events_from(s: Seq<u8>, start: int) -> Seq<Option<Seq<u8>>>
    decreases s.len() - start,
{
    if start < 0 || start >= s.len() {
        Seq::empty()
    } else {
        let end = if s.len() - start > CHUNK { start + CHUNK } else { s.len() as int };
        seq![Some(s.subrange(start, end)), None] + events_from(s, end)
    }
}

/// The encoder calls that compress the shuffled strip `s`.
pub open spec fn strip_events(s: Seq<u8>) -> Seq<Option<Seq<u8>>> {
    events_from(s, 0)
}

/// The zstd frame `encode` writes for the shuffled strip `s` at `level`:
/// the size of `s` announced, `s` written in chunks, each chunk flushed.
pub open spec fn strip_frame(s: Seq<u8>, level: i32) -> Seq<u8> {
    zstd_stream_frame((level, Some(s.len() as u64)), strip_events(s))
}

/// Compresses the shuffled strip in 1 MiB chunks, reporting progress from
/// 15 to 95.
fn compress_shuffled<F: FnMut(u8)>(shuffled: &[u8], level: i32, progress: &mut Progress, f: &mut F) -> (r: Result<Vec<u8>>)
    requires
        old(progress).wf(),
        accepts_any_percent(*old(f)),
        percentages_ok(old(progress).reported()),
        old(progress).reported().len() > 0 ==> old(progress).reported().last() <= 15,
    ensures
        final(progress).wf(),
        accepts_any_percent(*final(f)),
        percentages_ok(final(progress).reported()),
        final(progress).reported().len() > 0 ==> final(progress).reported().last() <= 95,
        final(progress).reported().len() >= old(progress).reported().len(),
        final(progress).reported().subrange(0, old(progress).reported().len() as int) == old(
            progress,
        ).reported(),
        r matches Ok(z) && z@ == strip_frame(shuffled@, level) && compressed_strip(z@, shuffled@),
{
    let mut encoder = match encoder_new(level) {
        Ok(e) => e,
        Err(m) => return Err(Error::Zstd(m)),
    };
    let len = shuffled.len();
    match encoder_set_pledged_src_size(&mut encoder, len as u64) {
        Ok(()) => {},
        Err(m) => return Err(Error::Zstd(m)),
    }
    let total: usize = if len > 1 {
        len
    } else {
        1
    };
    let mut done: usize = 0;
    let ghost start_log = progress.reported();
    assert(encoder_events(encoder) + events_from(shuffled@, 0) =~= events_from(shuffled@, 0));
    while done < len
        invariant
            len == shuffled@.len(),
            total == (if len > 1 { len } else { 1 }),
            done <= len,
            encoder_input(encoder) == shuffled@.subrange(0, done as int),
            encoder_events(encoder) + events_from(shuffled@, done as int) == events_from(shuffled@, 0),
            encoder_setup(encoder) == (level, Some(len as u64)),
            progress.wf(),
            accepts_any_percent(*f),
            percentages_ok(progress.reported()),
            progress.reported().len() > 0 ==> progress.reported().last() <= compress_progress(done as int, total as int),
            progress.reported().len() > 0 ==> progress.reported().last() <= 95,
            start_log == old(progress).reported(),
            progress.reported().len() >= start_log.len(),
            progress.reported().subrange(0, start_log.len() as int) == start_log,
        decreases len - done,
    {
        let end = if len - done > CHUNK {
            done + CHUNK
        } else {
            len
        };
        let ghost before = encoder_events(encoder);
        match encoder_write_all(&mut encoder, &shuffled[done..end]) {
            Ok(()) => {},
            Err(m) => return Err(Error::Zstd(m)),
        }
        match encoder_flush(&mut encoder) {
            Ok(()) => {},
            Err(m) => return Err(Error::Zstd(m)),
        }
        proof {
            let chunk = shuffled@.subrange(done as int, end as int);
            assert(encoder_events(encoder) == before.push(Some(chunk)).push(None));
            crate::compression::lemma_written_push(before, Some(chunk));
            crate::compression::lemma_written_push(before.push(Some(chunk)), None);
            assert(events_from(shuffled@, done as int) == seq![Some(chunk), None] + events_from(shuffled@, end as int)) by {
                reveal(events_from);
            }
            assert(encoder_events(encoder) + events_from(shuffled@, end as int) =~= before + events_from(
                shuffled@,
                done as int,
            ));
            assert(shuffled@.subrange(0, done as int) + chunk =~= shuffled@.subrange(0, end as int));
            lemma_compress_progress(done as int, end as int, total as int);
        }
        let ghost prev_log = progress.reported();
        let pct = (15 + (end as u128 * 80 / total as u128)) as u8;
        assert(pct == compress_progress(end as int, total as int));
        done = end;
        progress.report(f, pct);
        assert(progress.reported().subrange(0, start_log.len() as int) =~= prev_log.subrange(0, start_log.len() as int));
    }
    assert(shuffled@.subrange(0, len as int) =~= shuffled@);
    assert(events_from(shuffled@, len as int) == Seq::<Option<Seq<u8>>>::empty()) by {
        reveal(events_from);
    }
    assert(encoder_events(encoder) =~= events_from(shuffled@, 0));
    proof {
        if len > 0 {
            lemma_compress_progress(len as int, len as int, total as int);
        }
    }
    match encoder_finish(encoder) {
        Ok(z) => {
            assert(compressed_strip(z@, shuffled@));
            Ok(z)
        },
        Err(m) => Err(Error::Zstd(m)),
    }
}

} // verus!

verus! {

// ---------------------------------------------------------------------------
// Encode.

/// The thumbnail copied into the view APP1: the camera JPEG's own EXIF
/// thumbnail, else the smallest other embedded JPEG of the ARW.
pub open spec fn spec_view_thumb(jpeg: Seq<u8>, arw: Seq<u8>, jpegs: Seq<JpegRef>, off: u32, len: u32) -> Option<Seq<u8>> {
    match spec_jpeg_exif_thumbnail(jpeg) {
        Some((s, e)) => Some(jpeg.subrange(s, e)),
        None => match shortest_candidate(arw, jpegs, jpegs.len() as int, off, len) {
            Some(b) => Some(spec_jpeg_bytes(arw, jpegs[b])->Ok_0),
            None => None,
        },
    }
}

/// The trailer header `encode` writes.
pub open spec fn encode_meta(raw: RawIfd, off: u32, len: u32, elided_len: int, padding_len: int) -> TrailerMeta {
    TrailerMeta {
        orig_compression: raw.compression,
        width: raw.width,
        height: raw.height,
        jpeg_tiff_offset: off,
        jpeg_len: len,
        header_elided_len: elided_len as u32,
        orig_strip_bytes: raw.strip_bytes,
        orig_strip_offset: raw.strip_offset,
        jpeg_padding_len: padding_len as u32,
    }
}

/// The shuffled delta image of the raw strip of an ARW.
pub open spec fn spec_shuffled_strip(arw: Seq<u8>, raw: RawIfd) -> Seq<u8> {
    spec_forward(
        spec_pixels_from_le_bytes(
            arw.subrange(raw.strip_offset as int, raw.strip_offset + raw.strip_bytes),
        ),
        raw.width as nat,
    )
}

/// The checks of `encode` on the raw strip.
pub open spec fn spec_check_raw(arw: Seq<u8>, raw: RawIfd) -> core::result::Result<(), Error> {
    if raw.compression != 1 {
        Err(Error::Unsupported("raw strip is not uncompressed"))
    } else if raw.bits != 14 {
        Err(Error::Unsupported("expected 14-bit raw"))
    } else if raw.strip_offset + raw.strip_bytes != arw.len() {
        Err(Error::Unsupported("raw strip is not at EOF (refusing to move trailing TIFF pointers)"))
    } else if raw.strip_bytes != raw.width * raw.height * 2 {
        Err(Error::Format("strip size != width*height*2"))
    } else {
        Ok(())
    }
}

/// The checks of `encode` before it looks at the preview: not already
/// encoded, a readable layout, a raw strip it handles.
#[verifier::opaque]
pub open spec fn spec_encode_layout(arw: Seq<u8>) -> core::result::Result<(RawIfd, Seq<JpegRef>), Error> {
    if spec_is_encoded(arw) {
        Err(Error::Format("already encoded"))
    } else {
        match spec_parse_layout(arw) {
            Err(e) => Err(e),
            Ok((raw, jpegs)) => match spec_check_raw(arw, raw) {
                Err(e) => Err(e),
                Ok(()) => Ok((raw, jpegs)),
            },
        }
    }
}

/// The preview JPEG that `encode` moves to the front: its offset and length
/// in the ARW, its bytes, and where its image ends.
#[verifier::opaque]
pub open spec fn spec_encode_preview(arw: Seq<u8>) -> core::result::Result<(u32, u32, Seq<u8>, int), Error> {
    match spec_largest_jpeg(arw) {
        Err(e) => Err(e),
        Ok((off, len)) => match spec_jpeg_bytes(arw, JpegRef { offset: off, length: len }) {
            Err(e) => Err(e),
            Ok(full) => match spec_jpeg_end(full) {
                Err(e) => Err(e),
                Ok(eoi) => Ok((off, len, full, eoi)),
            },
        },
    }
}

/// Everything `encode` writes before the zstd frame: the view JPEG, the
/// trailer header, the elided TIFF header and the JPEG padding.
#[verifier::opaque]
pub open spec fn spec_encode_head(
    arw: Seq<u8>,
    raw: RawIfd,
    jpegs: Seq<JpegRef>,
    off: u32,
    len: u32,
    full: Seq<u8>,
    eoi: int,
) -> core::result::Result<Seq<u8>, Error> {
    let jpeg = full.subrange(0, eoi);
    let padding = full.subrange(eoi, full.len() as int);
    let ori = spec_preview_orientation(jpeg, arw);
    let thumb = spec_view_thumb(jpeg, arw, jpegs, off, len);
    match spec_attach_view_exif(jpeg, ori, thumb) {
        Err(e) => Err(e),
        Ok(view) => match spec_elide_jpeg(arw.subrange(0, raw.strip_offset as int), off as int, len as int) {
            Err(e) => Err(e),
            Ok(elided) => Ok(
                view + spec_trailer_bytes(
                    encode_meta(raw, off, len, elided.len() as int, padding.len() as int),
                ) + elided + padding,
            ),
        },
    }
}

/// Everything `encode` writes before the zstd frame, and the shuffled strip
/// that the frame compresses.
pub open spec fn spec_encode_parts(arw: Seq<u8>) -> core::result::Result<(Seq<u8>, Seq<u8>), Error> {
    match spec_encode_layout(arw) {
        Err(e) => Err(e),
        Ok((raw, jpegs)) => match spec_encode_preview(arw) {
            Err(e) => Err(e),
            Ok((off, len, full, eoi)) => match spec_encode_head(arw, raw, jpegs, off, len, full, eoi) {
                Err(e) => Err(e),
                Ok(head) => Ok((head, spec_shuffled_strip(arw, raw))),
            },
        },
    }
}

/// The EOF footer of an encoding of `arw`.
pub open spec fn arw_footer(arw: Seq<u8>) -> Seq<u8> {
    spec_footer_bytes(arw.len() as u64, sha1_digest(arw))
}

/// What `encode` gives for `arw` at `level`: the error of the first check
/// that fails; otherwise the head, the zstd frame of the shuffled strip at
/// that level (from which decompression gives the strip back), and the
/// footer with the size and SHA-1 of `arw`.
pub open spec fn encode_outcome(arw: Seq<u8>, level: i32, r: core::result::Result<Seq<u8>, Error>) -> bool {
    match spec_encode_parts(arw) {
        Err(e) => r == Err::<Seq<u8>, Error>(e),
        Ok((head, shuffled)) => {
            &&& r == Ok::<Seq<u8>, Error>(head + strip_frame(shuffled, level) + arw_footer(arw))
            &&& compressed_strip(strip_frame(shuffled, level), shuffled)
            &&& sha1_digest(arw).len() == 20
        },
    }
}

/// The view of a `Result<Vec<u8>>`.
pub open spec fn bytes_result(r: Result<Vec<u8>>) -> core::result::Result<Seq<u8>, Error> {
    match r {
        Ok(v) => Ok(v@),
        Err(e) => Err(e),
    }
}

fn check_raw(arw: &[u8], raw: &RawIfd) -> (r: Result<()>)
    ensures
        match spec_check_raw(arw@, *raw) {
            Ok(()) => r is Ok,
            Err(e) => r matches Err(x) && x == e,
        },
{
    if raw.compression != 1 {
        return Err(Error::Unsupported("raw strip is not uncompressed"));
    }
    if raw.bits != 14 {
        return Err(Error::Unsupported("expected 14-bit raw"));
    }
    if raw.strip_offset as u64 + raw.strip_bytes as u64 != arw.len() as u64 {
        return Err(
            Error::Unsupported("raw strip is not at EOF (refusing to move trailing TIFF pointers)"),
        );
    }
    assert(raw.width as u64 * raw.height as u64 * 2 <= 0xffff_ffff_ffff) by (nonlinear_arith)
        requires
            raw.width <= 65535,
            raw.height <= 65535,
    ;
    if raw.strip_bytes as u64 != raw.width as u64 * raw.height as u64 * 2 {
        return Err(Error::Format("strip size != width*height*2"));
    }
    Ok(())
}

fn encode_layout(arw: &[u8]) -> (r: Result<ArwLayout>)
    ensures
        match spec_encode_layout(arw@) {
            Ok((raw, jpegs)) => r matches Ok(l) && l.raw == raw && l.jpegs@ == jpegs,
            Err(e) => r matches Err(x) && x == e,
        },
{
    proof {
        reveal(spec_encode_layout);
    }
    if is_encoded(arw) {
        return Err(Error::Format("already encoded"));
    }
    let layout = parse_layout(arw)?;
    check_raw(arw, &layout.raw)?;
    Ok(layout)
}

fn encode_preview(arw: &[u8]) -> (r: Result<(u32, u32, &[u8], usize)>)
    ensures
        match spec_encode_preview(arw@) {
            Ok((off, len, full, eoi)) => r matches Ok(t) && t.0 == off && t.1 == len && t.2@ == full
                && t.3 == eoi && 4 <= eoi <= full.len(),
            Err(e) => r matches Err(x) && x == e,
        },
{
    proof {
        reveal(spec_encode_preview);
    }
    let (jpeg_off, jpeg_len) = largest_jpeg_in_arw(arw)?;
    let jpeg_full = jpeg_bytes(arw, &JpegRef { offset: jpeg_off, length: jpeg_len })?;
    let eoi = jpeg_end(jpeg_full)?;
    proof {
        lemma_jpeg_end_bounds(jpeg_full@);
    }
    Ok((jpeg_off, jpeg_len, jpeg_full, eoi))
}

fn encode_head(arw: &[u8], layout: &ArwLayout, jpeg_off: u32, jpeg_len: u32, jpeg_full: &[u8], eoi: usize) -> (r: Result<Vec<u8>>)
    requires
        eoi <= jpeg_full@.len(),
        layout.raw.strip_offset <= arw@.len(),
    ensures
        match spec_encode_head(arw@, layout.raw, layout.jpegs@, jpeg_off, jpeg_len, jpeg_full@, eoi as int) {
            Ok(h) => r matches Ok(o) && o@ == h,
            Err(e) => r matches Err(x) && x == e,
        },
{
    proof {
        reveal(spec_encode_head);
    }
    let so = layout.raw.strip_offset as usize;
    let jpeg = &jpeg_full[0..eoi];
    let padding = &jpeg_full[eoi..jpeg_full.len()];
    let orientation = preview_orientation(jpeg, arw);
    let thumb = match jpeg_exif_thumbnail(jpeg) {
        Some(t) => Some(t),
        None => smallest_embedded_jpeg(arw, &layout.jpegs, jpeg_off, jpeg_len),
    };
    assert(opt_view(thumb) == spec_view_thumb(jpeg@, arw@, layout.jpegs@, jpeg_off, jpeg_len));
    let view = attach_view_exif(jpeg, orientation, thumb)?;
    let header = &arw[0..so];
    let elided = elide_jpeg(header, jpeg_off as usize, jpeg_len as usize)?;
    let ghost elided_spec = elided@;
    assert(elided@.len() <= header@.len());
    let meta = TrailerMeta {
        orig_compression: layout.raw.compression,
        width: layout.raw.width,
        height: layout.raw.height,
        jpeg_tiff_offset: jpeg_off,
        jpeg_len,
        header_elided_len: elided.len() as u32,
        orig_strip_bytes: layout.raw.strip_bytes,
        orig_strip_offset: layout.raw.strip_offset,
        jpeg_padding_len: padding.len() as u32,
    };
    assert(meta == encode_meta(layout.raw, jpeg_off, jpeg_len, elided@.len() as int, padding@.len() as int));
    let mut out: Vec<u8> = Vec::new();
    push_all(&mut out, view.as_slice());
    push_all(&mut out, write_trailer_meta(&meta).as_slice());
    push_all(&mut out, elided.as_slice());
    push_all(&mut out, padding);
    Ok(out)
}

fn shuffle_strip(arw: &[u8], raw: &RawIfd) -> (s: Vec<u8>)
    requires
        spec_check_raw(arw@, *raw) is Ok,
        raw.width > 0,
    ensures
        s@ == spec_shuffled_strip(arw@, *raw),
{
    let _len = arw.len(); // its length fits in a usize, which the offset arithmetic below relies on
    let so = raw.strip_offset as usize;
    let sl = raw.strip_bytes as usize;
    let pixels = pixels_from_le_bytes(&arw[so..so + sl]);
    proof {
        let w = raw.width as int;
        let h = raw.height as int;
        assert(pixels@.len() == w * h);
        vstd::arithmetic::div_mod::lemma_mod_multiples_basic(h, w);
        assert(w * h == h * w) by (nonlinear_arith);
    }
    forward(pixels.as_slice(), raw.width as usize)
}

/// Encodes with progress through `progress`: the percentages passed to `f`
/// are at most 100 and never decrease, the first is 0 and, on success, the
/// last is 100.
pub fn encode_reporting<F: FnMut(u8)>(arw: &[u8], level: i32, progress: &mut Progress, f: &mut F) -> (r: Result<Vec<u8>>)
    requires
        old(progress).wf(),
        old(progress).reported() == Seq::<u8>::empty(),
        accepts_any_percent(*old(f)),
    ensures
        encode_outcome(arw@, level, bytes_result(r)),
        final(progress).wf(),
        percentages_ok(final(progress).reported()),
        final(progress).reported().len() > 0,
        final(progress).reported()[0] == 0,
        r is Ok ==> final(progress).reported().last() == 100,
{
    progress.report(f, 0);
    let layout = encode_layout(arw)?;
    let orig_bytes = arw.len() as u64;
    let orig_sha1 = sha1_20(arw);
    progress.report(f, 5);
    let (jpeg_off, jpeg_len, jpeg_full, eoi) = encode_preview(arw)?;
    proof {
        reveal(spec_encode_layout);
        crate::tiff::lemma_layout_raw_valid(arw@);
    }
    let head = encode_head(arw, &layout, jpeg_off, jpeg_len, jpeg_full, eoi)?;
    progress.report(f, 10);
    let shuffled = shuffle_strip(arw, &layout.raw);
    progress.report(f, 15);
    let ghost log15 = progress.reported();
    let zr = compress_shuffled(shuffled.as_slice(), level, progress, f);
    assert(progress.reported()[0] == log15[0]) by {
        assert(progress.reported().subrange(0, log15.len() as int)[0] == progress.reported()[0]);
    }
    let z = match zr {
        Ok(z) => z,
        Err(e) => return Err(e),
    };
    progress.report(f, 96);
    let mut out: Vec<u8> = Vec::new();
    push_all(&mut out, head.as_slice());
    push_all(&mut out, z.as_slice());
    push_all(&mut out, write_orig_footer(orig_bytes, &orig_sha1).as_slice());
    progress.report(f, 100);
    assert(out@ =~= head@ + z@ + arw_footer(arw@));
    Ok(out)
}

/// Same as [`encode_with_level`], with `progress` called as percent 0–100 (non-decreasing).
pub fn encode_with_progress<F: FnMut(u8)>(arw: &[u8], level: i32, progress: F) -> (r: Result<Vec<u8>>)
    requires
        accepts_any_percent(progress),
    ensures
        encode_outcome(arw@, level, bytes_result(r)),
{
    let mut progress = progress;
    let mut reporter = Progress::new();
    encode_reporting(arw, level, &mut reporter, &mut progress)
}

/// A progress callback that does nothing.
fn ignore_progress(_pct: u8) {
}

/// Encodes an uncompressed ARW at the given zstd level.
pub fn encode_with_level(arw: &[u8], level: i32) -> (r: Result<Vec<u8>>)
    ensures
        encode_outcome(arw@, level, bytes_result(r)),
{
    encode_with_progress(arw, level, ignore_progress)
}

/// Encodes an uncompressed ARW at the default zstd level.
pub fn encode(arw: &[u8]) -> (r: Result<Vec<u8>>)
    ensures
        encode_outcome(arw@, DEFAULT_LEVEL, bytes_result(r)),
{
    encode_with_level(arw, DEFAULT_LEVEL)
}

} // verus!

verus! {

// ---------------------------------------------------------------------------
// Decode.

/// What decoding knows before it decompresses: the rebuilt TIFF header, the
/// zstd payload, the trailer header and the EOF footer.
pub struct DecodeMid {
    pub header: Seq<u8>,
    pub payload: Seq<u8>,
    pub meta: TrailerMeta,
    pub footer: Option<(u64, Seq<u8>)>,
}

/// Decoding up to the zstd payload: split the JPEG off, strip its view
/// APP1, and go on with what follows the JPEG.
#[verifier::opaque]
pub open spec fn spec_decode_mid(file: Seq<u8>) -> core::result::Result<DecodeMid, Error> {
    match spec_jpeg_end(file) {
        Err(e) => Err(e),
        Ok(end) => spec_decode_rest(
            spec_strip_view_exif(file.subrange(0, end)),
            file.subrange(end, file.len() as int),
            spec_orig_footer(file),
        ),
    }
}

/// Decoding what follows the JPEG: read the trailer header, cut out the
/// elided TIFF header, the JPEG padding and the payload (which stops before
/// the footer, if there is one), and put the camera JPEG back into the TIFF
/// header.
#[verifier::opaque]
pub open spec fn spec_decode_rest(
    jpeg: Seq<u8>,
    rest: Seq<u8>,
    footer: Option<(u64, Seq<u8>)>,
) -> core::result::Result<DecodeMid, Error> {
    match spec_trailer_meta(rest) {
        Err(e) => Err(e),
        Ok(meta) => {
            let ee = TRAILER_HEADER_LEN + meta.header_elided_len;
            let pe = ee + meta.jpeg_padding_len;
            if meta.jpeg_len != jpeg.len() + meta.jpeg_padding_len {
                Err(Error::Format("JPEG length does not match trailer"))
            } else if ee > rest.len() || pe > rest.len() {
                Err(Error::Truncated)
            } else if footer is Some && rest.len() < FOOTER_LEN {
                Err(Error::Truncated)
            } else {
                let ze = if footer is Some {
                    rest.len() - FOOTER_LEN
                } else {
                    rest.len() as int
                };
                if ze < pe {
                    Err(Error::Truncated)
                } else {
                    match spec_restore_header(
                        rest.subrange(TRAILER_HEADER_LEN as int, ee),
                        jpeg + rest.subrange(ee, pe),
                        meta.jpeg_tiff_offset as int,
                    ) {
                        Err(e) => Err(e),
                        Ok(header) => if header.len() != meta.orig_strip_offset {
                            Err(Error::Format("reconstructed TIFF header has wrong size"))
                        } else {
                            Ok(DecodeMid { header, payload: rest.subrange(pe, ze), meta, footer })
                        },
                    }
                }
            }
        },
    }
}

/// Whether the strip geometry of a trailer lets the inverse transform run:
/// a non-zero width, an even strip size, and whole rows.
pub open spec fn geometry_ok(width: u16, strip_bytes: u32) -> bool {
    width > 0 && strip_bytes % 2 == 0 && (strip_bytes as int / 2) % (width as int) == 0
}

/// The ARW rebuilt from the header and the decompressed shuffled strip, as
/// checked against the footer.
pub open spec fn spec_decode_strip(
    header: Seq<u8>,
    shuffled: Seq<u8>,
    width: u16,
    strip_bytes: u32,
    footer: Option<(u64, Seq<u8>)>,
) -> core::result::Result<Seq<u8>, Error> {
    if shuffled.len() != strip_bytes {
        Err(Error::Format("decompressed strip has wrong size"))
    } else {
        let out = header + spec_pixels_to_le_bytes(spec_inverse(shuffled, width as nat));
        match footer {
            None => Ok(out),
            Some((n, h)) => if out.len() != n {
                Err(Error::Integrity("uncompressed size mismatch"))
            } else if sha1_digest(out) != h {
                Err(Error::Integrity("SHA-1 mismatch"))
            } else {
                Ok(out)
            },
        }
    }
}

/// The footer as a pair of size and digest.
pub open spec fn footer_view(f: Option<OrigFooter>) -> Option<(u64, Seq<u8>)> {
    match f {
        Some(f) => Some((f.orig_bytes, f.sha1@)),
        None => None,
    }
}

/// Rebuilds the ARW from the TIFF header and the decompressed shuffled
/// strip, and checks it against the footer when there is one.
pub fn decode_strip(header: &[u8], shuffled: &[u8], width: u16, strip_bytes: u32, footer: Option<OrigFooter>) -> (r: Result<Vec<u8>>)
    requires
        shuffled@.len() == strip_bytes ==> geometry_ok(width, strip_bytes),
    ensures
        bytes_result(r) == spec_decode_strip(header@, shuffled@, width, strip_bytes, footer_view(footer)),
{
    if shuffled.len() != strip_bytes as usize {
        return Err(Error::Format("decompressed strip has wrong size"));
    }
    let pixels = inverse(shuffled, width as usize);
    let raw_bytes = pixels_to_le_bytes(pixels.as_slice());
    let mut out: Vec<u8> = Vec::new();
    push_all(&mut out, header);
    push_all(&mut out, raw_bytes.as_slice());
    if let Some(info) = footer {
        if out.len() as u64 != info.orig_bytes {
            return Err(Error::Integrity("uncompressed size mismatch"));
        }
        let digest = sha1_20(out.as_slice());
        if !same_digest(&digest, &info.sha1) {
            return Err(Error::Integrity("SHA-1 mismatch"));
        }
    }
    Ok(out)
}

fn same_digest(a: &[u8; 20], b: &[u8; 20]) -> (r: bool)
    ensures
        r == (a@ == b@),
{
    let mut i: usize = 0;
    while i < 20
        invariant
            i <= 20,
            forall|k: int| 0 <= k < i ==> a@[k] == b@[k],
        decreases 20 - i,
    {
        if a[i] != b[i] {
            return false;
        }
        i += 1;
    }
    assert(a@ =~= b@);
    true
}

/// What decoding has before it decompresses.
pub struct DecodeParts<'a> {
    pub header: Vec<u8>,
    pub payload: &'a [u8],
    pub meta: TrailerMeta,
    pub footer: Option<OrigFooter>,
}

/// Whether decode parts hold what the spec says.
pub open spec fn parts_match(p: DecodeParts, m: DecodeMid) -> bool {
    &&& p.header@ == m.header
    &&& p.payload@ == m.payload
    &&& p.meta == m.meta
    &&& footer_view(p.footer) == m.footer
}

fn decode_parts(file: &[u8]) -> (r: Result<DecodeParts>)
    ensures
        match spec_decode_mid(file@) {
            Ok(m) => r matches Ok(p) && parts_match(p, m),
            Err(e) => r matches Err(x) && x == e,
        },
{
    proof {
        reveal(spec_decode_mid);
        reveal(spec_decode_rest);
    }
    let (view_jpeg, rest) = split_jpeg_prefix(file)?;
    let jpeg = strip_view_exif(view_jpeg)?;
    let meta = parse_trailer_meta(rest)?;
    if jpeg.len() as u64 > meta.jpeg_len as u64 || meta.jpeg_len as u64 - jpeg.len() as u64
        != meta.jpeg_padding_len as u64 {
        return Err(Error::Format("JPEG length does not match trailer"));
    }
    let elided_end: u64 = TRAILER_HEADER_LEN as u64 + meta.header_elided_len as u64;
    let pad_end: u64 = elided_end + meta.jpeg_padding_len as u64;
    if elided_end > rest.len() as u64 || pad_end > rest.len() as u64 {
        return Err(Error::Truncated);
    }
    let elided_end = elided_end as usize;
    let pad_end = pad_end as usize;
    let elided = &rest[TRAILER_HEADER_LEN..elided_end];
    let padding = &rest[elided_end..pad_end];
    let footer = parse_orig_footer(file);
    let zstd_end = if footer.is_some() {
        if rest.len() < FOOTER_LEN {
            return Err(Error::Truncated);
        }
        rest.len() - FOOTER_LEN
    } else {
        rest.len()
    };
    if zstd_end < pad_end {
        return Err(Error::Truncated);
    }
    let payload = &rest[pad_end..zstd_end];
    let mut jpeg_full: Vec<u8> = Vec::new();
    push_all(&mut jpeg_full, jpeg.as_slice());
    push_all(&mut jpeg_full, padding);
    let header = restore_header(elided, jpeg_full.as_slice(), meta.jpeg_tiff_offset as usize)?;
    if header.len() as u64 != meta.orig_strip_offset as u64 {
        return Err(Error::Format("reconstructed TIFF header has wrong size"));
    }
    Ok(DecodeParts { header, payload, meta, footer })
}

/// Whether decoding `file` reaches the inverse transform with a strip
/// geometry that it cannot run on.
pub open spec fn decode_would_panic(file: Seq<u8>) -> bool {
    match spec_decode_mid(file) {
        Ok(m) => match zstd_decompressed(m.payload, m.meta.orig_strip_bytes as nat) {
            Some(s) => s.len() == m.meta.orig_strip_bytes && !geometry_ok(
                m.meta.width,
                m.meta.orig_strip_bytes,
            ),
            None => false,
        },
        Err(_) => false,
    }
}

/// What every call of `decode` gives for `file`.
pub open spec fn decode_outcome(file: Seq<u8>, r: core::result::Result<Seq<u8>, Error>) -> bool {
    match spec_decode_mid(file) {
        Err(e) => r == Err::<Seq<u8>, Error>(e),
        Ok(m) => match zstd_decompressed(m.payload, m.meta.orig_strip_bytes as nat) {
            None => r matches Err(Error::Zstd(_)),
            Some(s) => r == spec_decode_strip(
                m.header,
                s,
                m.meta.width,
                m.meta.orig_strip_bytes,
                m.footer,
            ),
        },
    }
}

/// Reconstructs the original ARW from a JPEG+ARWZ container.
pub fn decode(file: &[u8]) -> (r: Result<Vec<u8>>)
    requires
        !decode_would_panic(file@),
    ensures
        decode_outcome(file@, bytes_result(r)),
{
    let parts = decode_parts(file)?;
    let shuffled = match zstd_decompress(parts.payload, parts.meta.orig_strip_bytes as usize) {
        Ok(s) => s,
        Err(m) => return Err(Error::Zstd(m)),
    };
    decode_strip(
        parts.header.as_slice(),
        shuffled.as_slice(),
        parts.meta.width,
        parts.meta.orig_strip_bytes,
        parts.footer,
    )
}

/// `decode`, or `None` for a file on which decoding would reach the inverse
/// transform with a strip geometry it cannot run on.
pub fn decode_checked(file: &[u8]) -> (r: Option<Result<Vec<u8>>>)
    ensures
        r is None <==> decode_would_panic(file@),
        r matches Some(x) ==> decode_outcome(file@, bytes_result(x)),
{
    let parts = match decode_parts(file) {
        Ok(p) => p,
        Err(e) => return Some(Err(e)),
    };
    let width = parts.meta.width;
    let strip = parts.meta.orig_strip_bytes;
    if width > 0 && strip % 2 == 0 && (strip / 2) % (width as u32) == 0 {
        return Some(decode(file));
    }
    match zstd_decompress(parts.payload, strip as usize) {
        Ok(s) => {
            if s.len() == strip as usize {
                None
            } else {
                Some(Err(Error::Format("decompressed strip has wrong size")))
            }
        },
        Err(m) => Some(Err(Error::Zstd(m))),
    }
}

} // verus!

