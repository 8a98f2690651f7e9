//! Little- and big-endian TIFF reading: IFD0 orientation and the ARW layout.

use vstd::prelude::*;
use crate::bytes::{be16, be32, le16, le32};
use crate::error::{Error, Result};

verus! {

pub const TAG_NEWSUBFILETYPE: u16 = 254;
pub const TAG_IMAGE_WIDTH: u16 = 256;
pub const TAG_IMAGE_LENGTH: u16 = 257;
pub const TAG_BITS_PER_SAMPLE: u16 = 258;
pub const TAG_COMPRESSION: u16 = 259;
pub const TAG_STRIP_OFFSETS: u16 = 273;
pub const TAG_ORIENTATION: u16 = 274;
pub const TAG_STRIP_BYTE_COUNTS: u16 = 279;
pub const TAG_SUB_IFDS: u16 = 330;
pub const TAG_JPEG_OFFSET: u16 = 513;
pub const TAG_JPEG_LENGTH: u16 = 514;

pub const TYPE_SHORT: u16 = 3;
pub const TYPE_LONG: u16 = 4;

/// 16-bit value at `off` in the given byte order.
pub open spec fn rd16(d: Seq<u8>, off: int, le: bool) -> int {
    if le {
        le16(d, off)
    } else {
        be16(d, off)
    }
}

/// 32-bit value at `off` in the given byte order.
pub open spec fn rd32(d: Seq<u8>, off: int, le: bool) -> int {
    if le {
        le32(d, off)
    } else {
        be32(d, off)
    }
}

/// Whether `n` bytes from `off` lie within `d`.
pub open spec fn fits(d: Seq<u8>, off: int, n: int) -> bool {
    0 <= off && off + n <= d.len()
}

/// The 16-bit value at `off`, if the two bytes are there.
pub open spec fn spec_endian_u16(d: Seq<u8>, off: int, le: bool) -> Option<u16> {
    if fits(d, off, 2) {
        Some(rd16(d, off, le) as u16)
    } else {
        None
    }
}

/// The 32-bit value at `off`, if the four bytes are there.
pub open spec fn spec_endian_u32(d: Seq<u8>, off: int, le: bool) -> Option<u32> {
    if fits(d, off, 4) {
        Some(rd32(d, off, le) as u32)
    } else {
        None
    }
}

/// Whether `n` bytes from `off` lie within a slice of length `len`, computed
/// without overflow.
pub fn in_range(len: usize, off: usize, n: usize) -> (b: bool)
    ensures
        b == (off + n <= len),
{
    off <= len && len - off >= n
}

fn read16(data: &[u8], off: usize, le: bool) -> (v: u16)
    requires
        fits(data@, off as int, 2),
    ensures
        v == rd16(data@, off as int, le),
{
    if le {
        data[off] as u16 + (data[off + 1] as u16) * 256
    } else {
        (data[off] as u16) * 256 + data[off + 1] as u16
    }
}

fn read32(data: &[u8], off: usize, le: bool) -> (v: u32)
    requires
        fits(data@, off as int, 4),
    ensures
        v == rd32(data@, off as int, le),
{
    let _len = data.len(); // its length fits in a usize, which the offset arithmetic below relies on
    let a = read16(data, off, le) as u32;
    let b = read16(data, off + 2, le) as u32;
    if le {
        a + b * 65536
    } else {
        a * 65536 + b
    }
}

fn u16_at(data: &[u8], off: usize) -> (r: Result<u16>)
    ensures
        match spec_endian_u16(data@, off as int, true) {
            Some(v) => r == Ok::<u16, Error>(v),
            None => r == Err::<u16, Error>(Error::Truncated),
        },
{
    if !in_range(data.len(), off, 2) {
        return Err(Error::Truncated);
    }
    Ok(read16(data, off, true))
}

fn u32_at(data: &[u8], off: usize) -> (r: Result<u32>)
    ensures
        match spec_endian_u32(data@, off as int, true) {
            Some(v) => r == Ok::<u32, Error>(v),
            None => r == Err::<u32, Error>(Error::Truncated),
        },
{
    if !in_range(data.len(), off, 4) {
        return Err(Error::Truncated);
    }
    Ok(read32(data, off, true))
}

pub(crate) fn endian_u16(data: &[u8], off: usize, le: bool) -> (r: Option<u16>)
    ensures
        r == spec_endian_u16(data@, off as int, le),
{
    if !in_range(data.len(), off, 2) {
        return None;
    }
    Some(read16(data, off, le))
}

pub(crate) fn endian_u32(data: &[u8], off: usize, le: bool) -> (r: Option<u32>)
    ensures
        r == spec_endian_u32(data@, off as int, le),
{
    if !in_range(data.len(), off, 4) {
        return None;
    }
    Some(read32(data, off, le))
}

/// The orientation stored in an Orientation entry: a SHORT of count 1 sits in
/// the first two bytes of the value field; otherwise the low 16 bits of the
/// field are taken.
pub open spec fn entry_orientation(typ: int, count: int, val: int, le: bool) -> int {
    if typ == TYPE_SHORT && count == 1 {
        if le {
            val % 65536
        } else {
            val / 65536
        }
    } else {
        val % 65536
    }
}

/// Orientation from entries `i..n` of the IFD at `off`: the first entry with
/// tag 274 decides (its value if within 1..=8, else none); a read past the
/// data gives none.
pub open spec fn orientation_scan(d: Seq<u8>, off: int, n: int, i: int, le: bool) -> Option<u16>
    decreases n - i,
{
    if i >= n {
        None
    } else {
        let e = off + 2 + i * 12;
        if !fits(d, e, 2) {
            None
        } else if rd16(d, e, le) != TAG_ORIENTATION {
            orientation_scan(d, off, n, i + 1, le)
        } else if !fits(d, e, 12) {
            None
        } else {
            let ori = entry_orientation(rd16(d, e + 2, le), rd32(d, e + 4, le), rd32(d, e + 8, le), le);
            if 1 <= ori <= 8 {
                Some(ori as u16)
            } else {
                None
            }
        }
    }
}

/// The byte order of a TIFF header: `II` little-endian, `MM` big-endian.
pub open spec fn tiff_order(d: Seq<u8>) -> Option<bool> {
    if d.len() >= 2 && d[0] == 0x49 && d[1] == 0x49 {
        Some(true)
    } else if d.len() >= 2 && d[0] == 0x4d && d[1] == 0x4d {
        Some(false)
    } else {
        None
    }
}

/// EXIF/TIFF Orientation (tag 274) of IFD0, if present and within 1..=8.
pub open spec fn spec_ifd0_orientation(d: Seq<u8>) -> Option<u16> {
    if d.len() < 8 {
        None
    } else {
        match tiff_order(d) {
            None => None,
            Some(le) => if rd16(d, 2, le) != 42 {
                None
            } else {
                let off = rd32(d, 4, le);
                if off == 0 || !fits(d, off, 2) {
                    None
                } else {
                    orientation_scan(d, off, rd16(d, off, le), 0, le)
                }
            },
        }
    }
}

/// Whether the entries `i..n` of the IFD at `off` that the Orientation scan
/// of `d` reads lie before `k`: each tag it reads, and the whole entry of the
/// Orientation tag it stops at.
pub open spec fn scan_reads_below(d: Seq<u8>, off: int, n: int, i: int, le: bool, k: int) -> bool
    decreases n - i,
{
    if i >= n {
        true
    } else {
        let e = off + 2 + i * 12;
        &&& e + 2 <= k
        &&& rd16(d, e, le) != TAG_ORIENTATION ==> scan_reads_below(d, off, n, i + 1, le, k)
        &&& rd16(d, e, le) == TAG_ORIENTATION ==> e + 12 <= k
    }
}

/// Whether everything the IFD0 Orientation lookup reads of `d` lies in its
/// first `k` bytes: the TIFF header, the IFD0 entry count and the entries
/// up to the Orientation entry.
pub open spec fn ifd0_reads_below(d: Seq<u8>, k: int) -> bool {
    &&& 8 <= k
    &&& match tiff_order(d) {
        None => true,
        Some(le) => rd16(d, 2, le) != 42 || {
            let off = rd32(d, 4, le);
            off == 0 || (off + 2 <= k && scan_reads_below(d, off, rd16(d, off, le), 0, le, k))
        },
    }
}

/// Bytes that agree read the same 16- and 32-bit values.
proof fn lemma_reads_agree(d: Seq<u8>, x: Seq<u8>, i: int, k: int, le: bool)
    requires
        0 <= i,
        i + 4 <= k,
        k <= d.len(),
        k <= x.len(),
        forall|m: int| 0 <= m < k ==> #[trigger] x[m] == d[m],
    ensures
        rd16(x, i, le) == rd16(d, i, le),
        rd16(x, i + 2, le) == rd16(d, i + 2, le),
        rd32(x, i, le) == rd32(d, i, le),
{
    assert(x[i] == d[i] && x[i + 1] == d[i + 1] && x[i + 2] == d[i + 2] && x[i + 3] == d[i + 3]);
}

/// The Orientation scan reads the same on data that agrees with `d` on
/// everything it reads.
proof fn lemma_scan_agrees(d: Seq<u8>, x: Seq<u8>, off: int, n: int, i: int, le: bool, k: int)
    requires
        0 <= off,
        0 <= i,
        k <= d.len(),
        k <= x.len(),
        forall|m: int| 0 <= m < k ==> #[trigger] x[m] == d[m],
        scan_reads_below(d, off, n, i, le, k),
    ensures
        orientation_scan(x, off, n, i, le) == orientation_scan(d, off, n, i, le),
    decreases n - i,
{
    if i < n {
        let e = off + 2 + i * 12;
        assert(x[e] == d[e] && x[e + 1] == d[e + 1]);
        assert(rd16(x, e, le) == rd16(d, e, le));
        if rd16(d, e, le) != TAG_ORIENTATION {
            lemma_scan_agrees(d, x, off, n, i + 1, le, k);
        } else {
            lemma_reads_agree(d, x, e + 2, k, le);
            lemma_reads_agree(d, x, e + 4, k, le);
            lemma_reads_agree(d, x, e + 8, k, le);
        }
    }
}

/// The IFD0 Orientation is the same for any data that agrees with `d` on
/// the first `k` bytes, when everything its lookup reads of `d` lies there:
/// what follows (or was cut out after) those bytes does not change it.
pub proof fn lemma_ifd0_orientation_of_agreeing_data(d: Seq<u8>, x: Seq<u8>, k: int)
    requires
        k <= d.len(),
        k <= x.len(),
        forall|m: int| 0 <= m < k ==> #[trigger] x[m] == d[m],
        ifd0_reads_below(d, k),
    ensures
        spec_ifd0_orientation(x) == spec_ifd0_orientation(d),
{
    assert(x[0] == d[0] && x[1] == d[1]);
    assert(tiff_order(x) == tiff_order(d));
    if let Some(le) = tiff_order(d) {
        lemma_reads_agree(d, x, 0, k, le);
        lemma_reads_agree(d, x, 4, k, le);
        let off = rd32(d, 4, le);
        if rd16(d, 2, le) == 42 && off != 0 {
            assert(x[off] == d[off] && x[off + 1] == d[off + 1]);
            assert(rd16(x, off, le) == rd16(d, off, le));
            lemma_scan_agrees(d, x, off, rd16(d, off, le), 0, le, k);
        }
    }
}

/// An orientation found by `orientation_scan` lies in 1..=8.
proof fn lemma_orientation_scan_range(d: Seq<u8>, off: int, n: int, i: int, le: bool)
    ensures
        orientation_scan(d, off, n, i, le) matches Some(o) ==> 1 <= o <= 8,
    decreases n - i,
{
    if i < n {
        lemma_orientation_scan_range(d, off, n, i + 1, le);
    }
}

/// An IFD0 Orientation lies in 1..=8.
pub proof fn lemma_ifd0_orientation_range(d: Seq<u8>)
    ensures
        spec_ifd0_orientation(d) matches Some(o) ==> 1 <= o <= 8,
{
    if d.len() >= 8 {
        if let Some(le) = tiff_order(d) {
            let off = rd32(d, 4, le);
            lemma_orientation_scan_range(d, off, rd16(d, off, le), 0, le);
        }
    }
}

/// EXIF/TIFF Orientation (tag 274) from IFD0. `1`–`8`, or `None` if absent.
pub fn ifd0_orientation(data: &[u8]) -> (r: Option<u16>)
    ensures
        r == spec_ifd0_orientation(data@),
{
    let len = data.len();
    if len < 8 {
        return None;
    }
    let le = if data[0] == 0x49 && data[1] == 0x49 {
        true
    } else if data[0] == 0x4d && data[1] == 0x4d {
        false
    } else {
        return None;
    };
    if endian_u16(data, 2, le)? != 42 {
        return None;
    }
    let off = endian_u32(data, 4, le)? as usize;
    if off == 0 {
        return None;
    }
    let n = endian_u16(data, off, le)? as usize;
    let mut i: usize = 0;
    while i < n
        invariant
            len == data@.len(),
            tiff_order(data@) == Some(le),
            fits(data@, off as int, 2),
            n == rd16(data@, off as int, le),
            i <= n,
            spec_ifd0_orientation(data@) == orientation_scan(data@, off as int, n as int, i as int, le),
        decreases n - i,
    {
        if !in_range(len, off, 2) || len - off - 2 < i * 12 {
            return None;
        }
        let e = off + 2 + i * 12;
        if endian_u16(data, e, le)? != TAG_ORIENTATION {
            i += 1;
            continue;
        }
        let typ = endian_u16(data, e + 2, le)?;
        let count = endian_u32(data, e + 4, le)?;
        let val = endian_u32(data, e + 8, le)?;
        let ori: u16 = if typ == TYPE_SHORT && count == 1 {
            if le {
                (val % 65536) as u16
            } else {
                (val / 65536) as u16
            }
        } else {
            (val % 65536) as u16
        };
        if 1 <= ori && ori <= 8 {
            return Some(ori);
        }
        return None;
    }
    None
}

} // verus!

verus! {

/// Where an embedded JPEG lies in the file.
#[derive(Clone, Copy, Debug)]
pub struct JpegRef {
    pub offset: u32,
    pub length: u32,
}

/// The raw CFA SubIFD of an ARW.
#[derive(Clone, Copy, Debug)]
pub struct RawIfd {
    pub width: u16,
    pub height: u16,
    pub bits: u16,
    pub compression: u16,
    pub strip_offset: u32,
    pub strip_bytes: u32,
    /// File offset of the Compression value.
    pub compression_value_at: usize,
    /// File offset of the StripByteCounts value.
    pub strip_bytes_value_at: usize,
}

/// The raw strip and the embedded JPEGs of an ARW.
#[derive(Clone, Debug)]
pub struct ArwLayout {
    pub raw: RawIfd,
    pub jpegs: Vec<JpegRef>,
}

/// What one IFD says, as the entries read so far set it.
pub struct IfdFields {
    pub newsub: Option<u32>,
    pub width: Option<u16>,
    pub height: Option<u16>,
    pub bits: Option<u16>,
    pub compression: Option<u16>,
    pub compression_at: Option<usize>,
    pub strip_offset: Option<u32>,
    pub strip_bytes: Option<u32>,
    pub strip_bytes_at: Option<usize>,
    pub jpeg_off: Option<u32>,
    pub jpeg_len: Option<u32>,
    pub subifds: Seq<u32>,
}

/// No entry read yet.
pub open spec fn empty_fields() -> IfdFields {
    IfdFields {
        newsub: None,
        width: None,
        height: None,
        bits: None,
        compression: None,
        compression_at: None,
        strip_offset: None,
        strip_bytes: None,
        strip_bytes_at: None,
        jpeg_off: None,
        jpeg_len: None,
        subifds: Seq::empty(),
    }
}

/// The little-endian 32-bit values `d[base..base + 4 * count]`.
pub open spec fn le32_array(d: Seq<u8>, base: int, count: int) -> Seq<u32> {
    Seq::new(count as nat, |k: int| le32(d, base + 4 * k) as u32)
}

/// The SubIFD offsets of a SubIFDs entry: the value itself when the array
/// fits in the 4-byte field, otherwise the array of LONGs it points at.
pub open spec fn subifd_offsets(d: Seq<u8>, typ: int, count: int, val: u32) -> core::result::Result<Seq<u32>, Error> {
    let size: int = if typ == TYPE_LONG {
        4
    } else {
        2
    };
    if count * size <= 4 {
        Ok(seq![val])
    } else if fits(d, val as int, 4 * count) {
        Ok(le32_array(d, val as int, count))
    } else {
        Err(Error::Truncated)
    }
}

/// One little-endian IFD entry at `e` applied to the fields read so far.
pub open spec fn entry_step(d: Seq<u8>, e: int, f: IfdFields) -> core::result::Result<IfdFields, Error> {
    let tag = le16(d, e);
    let typ = le16(d, e + 2);
    let count = le32(d, e + 4);
    let val = le32(d, e + 8) as u32;
    let short = (val % 65536) as u16;
    let at = (e + 8) as usize;
    if tag == TAG_NEWSUBFILETYPE && typ == TYPE_LONG && count == 1 {
        Ok(IfdFields { newsub: Some(val), ..f })
    } else if tag == TAG_IMAGE_WIDTH {
        Ok(IfdFields { width: Some(short), ..f })
    } else if tag == TAG_IMAGE_LENGTH {
        Ok(IfdFields { height: Some(short), ..f })
    } else if tag == TAG_BITS_PER_SAMPLE && count == 1 {
        Ok(IfdFields { bits: Some(short), ..f })
    } else if tag == TAG_COMPRESSION && count == 1 {
        Ok(IfdFields { compression: Some(short), compression_at: Some(at), ..f })
    } else if tag == TAG_STRIP_OFFSETS && count == 1 {
        Ok(IfdFields { strip_offset: Some(val), ..f })
    } else if tag == TAG_STRIP_BYTE_COUNTS && count == 1 {
        Ok(IfdFields { strip_bytes: Some(val), strip_bytes_at: Some(at), ..f })
    } else if tag == TAG_SUB_IFDS {
        match subifd_offsets(d, typ, count, val) {
            Ok(s) => Ok(IfdFields { subifds: f.subifds + s, ..f }),
            Err(err) => Err(err),
        }
    } else if tag == TAG_JPEG_OFFSET && count == 1 {
        Ok(IfdFields { jpeg_off: Some(val), ..f })
    } else if tag == TAG_JPEG_LENGTH && count == 1 {
        Ok(IfdFields { jpeg_len: Some(val), ..f })
    } else {
        Ok(f)
    }
}

/// Entries `i..n` of the little-endian IFD at `o` applied in order; an entry
/// that runs past the data is `Truncated`.
pub open spec fn entries_fold(d: Seq<u8>, o: int, n: int, i: int, f: IfdFields) -> core::result::Result<IfdFields, Error>
    decreases n - i,
{
    if i >= n {
        Ok(f)
    } else if !fits(d, o + 2 + 12 * i, 12) {
        Err(Error::Truncated)
    } else {
        match entry_step(d, o + 2 + 12 * i, f) {
            Ok(g) => entries_fold(d, o, n, i + 1, g),
            Err(err) => Err(err),
        }
    }
}

/// The embedded JPEG an IFD names, when it has an offset and a non-zero length.
pub open spec fn fields_jpegs(f: IfdFields) -> Seq<JpegRef> {
    match (f.jpeg_off, f.jpeg_len) {
        (Some(offset), Some(length)) => if length > 0 {
            seq![JpegRef { offset, length }]
        } else {
            Seq::empty()
        },
        _ => Seq::empty(),
    }
}

/// The raw strip an IFD describes: NewSubfileType 0, non-zero width, height,
/// strip offset and strip size, and bits and compression present.
pub open spec fn fields_raw(f: IfdFields) -> Option<RawIfd> {
    if f.newsub == Some(0u32) && f.width is Some && f.height is Some && f.bits is Some
        && f.compression is Some && f.strip_offset is Some && f.strip_bytes is Some
        && f.compression_at is Some && f.strip_bytes_at is Some && f.width->0 > 0 && f.height->0
        > 0 && f.strip_offset->0 > 0 && f.strip_bytes->0 > 0 {
        Some(
            RawIfd {
                width: f.width->0,
                height: f.height->0,
                bits: f.bits->0,
                compression: f.compression->0,
                strip_offset: f.strip_offset->0,
                strip_bytes: f.strip_bytes->0,
                compression_value_at: f.compression_at->0,
                strip_bytes_value_at: f.strip_bytes_at->0,
            },
        )
    } else {
        None
    }
}

/// What reading one IFD gives: its JPEGs, its SubIFD offsets, the next IFD
/// offset and the raw strip it describes.
pub struct IfdWalkSpec {
    pub jpegs: Seq<JpegRef>,
    pub subifds: Seq<u32>,
    pub next: u32,
    pub raw: Option<RawIfd>,
}

/// Reading the little-endian IFD at `off`.
pub open spec fn spec_walk_ifd(d: Seq<u8>, off: int) -> core::result::Result<IfdWalkSpec, Error> {
    if !fits(d, off, 2) {
        Err(Error::Truncated)
    } else {
        let n = le16(d, off);
        walk_finish(d, off, n, entries_fold(d, off, n, 0, empty_fields()))
    }
}

/// The walk of the IFD at `off` with `n` entries, once its entries are read.
pub open spec fn walk_finish(d: Seq<u8>, off: int, n: int, r: core::result::Result<IfdFields, Error>) -> core::result::Result<IfdWalkSpec, Error> {
    match r {
        Err(err) => Err(err),
        Ok(f) => if !fits(d, off + 2 + n * 12, 4) {
            Err(Error::Truncated)
        } else {
            Ok(
                IfdWalkSpec {
                    jpegs: fields_jpegs(f),
                    subifds: f.subifds,
                    next: le32(d, off + 2 + n * 12) as u32,
                    raw: fields_raw(f),
                },
            )
        },
    }
}

} // verus!

verus! {

/// What reading one IFD gives.
pub struct IfdWalk {
    pub jpegs: Vec<JpegRef>,
    pub subifds: Vec<u32>,
    pub next: u32,
    pub raw: Option<RawIfd>,
}

/// The IFD fields read so far by `walk_ifd`.
struct EntryFields {
    newsub: Option<u32>,
    width: Option<u16>,
    height: Option<u16>,
    bits: Option<u16>,
    compression: Option<u16>,
    compression_at: Option<usize>,
    strip_offset: Option<u32>,
    strip_bytes: Option<u32>,
    strip_bytes_at: Option<usize>,
    jpeg_off: Option<u32>,
    jpeg_len: Option<u32>,
    subifds: Vec<u32>,
}

impl View for EntryFields {
    type V = IfdFields;

    closed spec fn view(&self) -> IfdFields {
        IfdFields {
            newsub: self.newsub,
            width: self.width,
            height: self.height,
            bits: self.bits,
            compression: self.compression,
            compression_at: self.compression_at,
            strip_offset: self.strip_offset,
            strip_bytes: self.strip_bytes,
            strip_bytes_at: self.strip_bytes_at,
            jpeg_off: self.jpeg_off,
            jpeg_len: self.jpeg_len,
            subifds: self.subifds@,
        }
    }
}

/// Reads the SubIFD offsets of a SubIFDs entry into `out`.
fn read_subifds(data: &[u8], typ: u16, count: u32, val: u32, out: &mut Vec<u32>) -> (r: Result<()>)
    ensures
        match subifd_offsets(data@, typ as int, count as int, val) {
            Ok(s) => r is Ok && final(out)@ == old(out)@ + s,
            Err(e) => r == Err::<(), Error>(e),
        },
{
    let len = data.len();
    let type_size: u64 = if typ == TYPE_LONG {
        4
    } else {
        2
    };
    let nbytes: u64 = count as u64 * type_size;
    let ghost before = out@;
    if nbytes <= 4 {
        out.push(val);
        assert(out@ =~= before + seq![val]);
        return Ok(());
    }
    let base = val as usize;
    let mut k: usize = 0;
    while (k as u64) < count as u64
        invariant
            len == data@.len(),
            base == val,
            k <= count,
            out@ == before + le32_array(data@, base as int, k as int),
            nbytes > 4,
            nbytes == count * type_size,
            type_size == (if typ == TYPE_LONG { 4int } else { 2int }),
            k > 0 ==> base + 4 * k <= len,
        decreases count - k,
    {
        if len < base || (len - base) / 4 < k || !in_range(len, base + 4 * k, 4) {
            assert(base + 4 * k + 4 <= base + 4 * count);
            return Err(Error::Truncated);
        }
        let v = u32_at(data, base + 4 * k)?;
        out.push(v);
        k += 1;
        assert(out@ =~= before + le32_array(data@, base as int, k as int));
    }
    Ok(())
}

/// Applies the entry at `e` to the fields read so far.
fn apply_entry(data: &[u8], e: usize, f: &mut EntryFields) -> (r: Result<()>)
    requires
        fits(data@, e as int, 12),
    ensures
        match entry_step(data@, e as int, old(f)@) {
            Ok(g) => r is Ok && final(f)@ == g,
            Err(x) => r == Err::<(), Error>(x),
        },
{
    let _len = data.len(); // its length fits in a usize, which the offset arithmetic below relies on
    let tag = read16(data, e, true);
    let typ = read16(data, e + 2, true);
    let count = read32(data, e + 4, true);
    let val_at = e + 8;
    let val = read32(data, val_at, true);
    let short = (val % 65536) as u16;
    if tag == TAG_NEWSUBFILETYPE && typ == TYPE_LONG && count == 1 {
        f.newsub = Some(val);
    } else if tag == TAG_IMAGE_WIDTH {
        f.width = Some(short);
    } else if tag == TAG_IMAGE_LENGTH {
        f.height = Some(short);
    } else if tag == TAG_BITS_PER_SAMPLE && count == 1 {
        f.bits = Some(short);
    } else if tag == TAG_COMPRESSION && count == 1 {
        f.compression = Some(short);
        f.compression_at = Some(val_at);
    } else if tag == TAG_STRIP_OFFSETS && count == 1 {
        f.strip_offset = Some(val);
    } else if tag == TAG_STRIP_BYTE_COUNTS && count == 1 {
        f.strip_bytes = Some(val);
        f.strip_bytes_at = Some(val_at);
    } else if tag == TAG_SUB_IFDS {
        read_subifds(data, typ, count, val, &mut f.subifds)?;
    } else if tag == TAG_JPEG_OFFSET && count == 1 {
        f.jpeg_off = Some(val);
    } else if tag == TAG_JPEG_LENGTH && count == 1 {
        f.jpeg_len = Some(val);
    }
    Ok(())
}

fn walk_ifd(data: &[u8], off: u32) -> (r: Result<IfdWalk>)
    ensures
        match spec_walk_ifd(data@, off as int) {
            Ok(w) => r matches Ok(x) && x.jpegs@ == w.jpegs && x.subifds@ == w.subifds && x.next
                == w.next && x.raw == w.raw,
            Err(e) => r matches Err(x) && x == e,
        },
{
    let len = data.len();
    let o = off as usize;
    let n = u16_at(data, o)? as usize;
    let mut f = EntryFields {
        newsub: None,
        width: None,
        height: None,
        bits: None,
        compression: None,
        compression_at: None,
        strip_offset: None,
        strip_bytes: None,
        strip_bytes_at: None,
        jpeg_off: None,
        jpeg_len: None,
        subifds: Vec::new(),
    };
    assert(f@ =~= empty_fields());
    let mut i: usize = 0;
    while i < n
        invariant
            len == data@.len(),
            o == off as usize,
            fits(data@, o as int, 2),
            n == le16(data@, o as int),
            i <= n,
            spec_walk_ifd(data@, o as int) == walk_finish(
                data@,
                o as int,
                n as int,
                entries_fold(data@, o as int, n as int, 0, empty_fields()),
            ),
            entries_fold(data@, o as int, n as int, 0, empty_fields()) == entries_fold(
                data@,
                o as int,
                n as int,
                i as int,
                f@,
            ),
        decreases n - i,
    {
        if len - o - 2 < 12 * i || !in_range(len, o + 2 + 12 * i, 12) {
            assert(entries_fold(data@, o as int, n as int, i as int, f@) == Err::<IfdFields, Error>(Error::Truncated));
            assert(walk_finish(data@, o as int, n as int, Err(Error::Truncated)) == Err::<IfdWalkSpec, Error>(Error::Truncated));
            return Err(Error::Truncated);
        }
        let ghost before = f@;
        let step = apply_entry(data, o + 2 + 12 * i, &mut f);
        if let Err(x) = step {
            assert(entries_fold(data@, o as int, n as int, i as int, before) == Err::<IfdFields, Error>(x));
            return Err(x);
        }
        i += 1;
    }
    let mut jpegs: Vec<JpegRef> = Vec::new();
    match (f.jpeg_off, f.jpeg_len) {
        (Some(offset), Some(length)) => {
            if length > 0 {
                jpegs.push(JpegRef { offset, length });
            }
        },
        _ => {},
    }
    assert(jpegs@ =~= fields_jpegs(f@));
    if len - o - 2 < n * 12 {
        return Err(Error::Truncated);
    }
    let next = u32_at(data, o + 2 + n * 12)?;
    let raw = match (
        f.newsub,
        f.width,
        f.height,
        f.bits,
        f.compression,
        f.strip_offset,
        f.strip_bytes,
        f.compression_at,
        f.strip_bytes_at,
    ) {
        (Some(0), Some(w), Some(h), Some(b), Some(c), Some(so), Some(sb), Some(ca), Some(sba)) => {
            if w > 0 && h > 0 && so > 0 && sb > 0 {
                Some(
                    RawIfd {
                        width: w,
                        height: h,
                        bits: b,
                        compression: c,
                        strip_offset: so,
                        strip_bytes: sb,
                        compression_value_at: ca,
                        strip_bytes_value_at: sba,
                    },
                )
            } else {
                None
            }
        },
        _ => None,
    };
    Ok(IfdWalk { jpegs, subifds: f.subifds, next, raw })
}

} // verus!

verus! {

/// The IFD walk of `parse_layout`: IFD offsets are taken from the end of
/// `queue`; offset 0 is skipped; each IFD read adds its JPEGs, pushes its
/// SubIFDs and then its next IFD; the first raw strip found is kept. More
/// than 32 IFDs is an error.
pub open spec fn layout_walk(
    d: Seq<u8>,
    queue: Seq<u32>,
    seen: int,
    jpegs: Seq<JpegRef>,
    raw: Option<RawIfd>,
) -> core::result::Result<(RawIfd, Seq<JpegRef>), Error>
    decreases 32 - seen, queue.len(),
{
    if queue.len() == 0 {
        match raw {
            Some(r) => Ok((r, jpegs)),
            None => Err(Error::Format("no uncompressed raw SubIFD")),
        }
    } else {
        let off = queue.last();
        let rest = queue.drop_last();
        if off == 0 {
            layout_walk(d, rest, seen, jpegs, raw)
        } else if seen + 1 > 32 || seen < 0 {
            Err(Error::Format("too many IFDs"))
        } else if off + 2 > d.len() {
            Err(Error::Truncated)
        } else {
            match spec_walk_ifd(d, off as int) {
                Err(e) => Err(e),
                Ok(w) => layout_walk(
                    d,
                    rest + w.subifds + (if w.next != 0 {
                        seq![w.next]
                    } else {
                        Seq::empty()
                    }),
                    seen + 1,
                    jpegs + w.jpegs,
                    if raw is None {
                        w.raw
                    } else {
                        raw
                    },
                ),
            }
        }
    }
}

/// The layout of a little-endian TIFF/ARW: its first raw strip and all
/// embedded JPEGs, in the order the IFD walk meets them.
pub open spec fn spec_parse_layout(d: Seq<u8>) -> core::result::Result<(RawIfd, Seq<JpegRef>), Error> {
    if d.len() < 8 {
        Err(Error::Truncated)
    } else if d[0] != 0x49 || d[1] != 0x49 {
        Err(Error::Unsupported("big-endian TIFF"))
    } else if le16(d, 2) != 42 {
        Err(Error::Format("not TIFF"))
    } else {
        layout_walk(d, seq![le32(d, 4) as u32], 0, Seq::empty(), None)
    }
}

/// Parse enough of a TIFF/ARW prefix to locate the raw strip and embedded JPEGs.
/// `data` may be a prefix of the file: IFDs live near the start. JPEG *payloads*
/// sit before the raw strip, so a prefix of `raw.strip_offset` bytes is enough
/// to copy every preview without the compressed raw.
pub fn parse_layout(data: &[u8]) -> (r: Result<ArwLayout>)
    ensures
        match spec_parse_layout(data@) {
            Ok((raw, jpegs)) => r matches Ok(l) && l.raw == raw && l.jpegs@ == jpegs,
            Err(e) => r matches Err(x) && x == e,
        },
{
    let len = data.len();
    if len < 8 {
        return Err(Error::Truncated);
    }
    if data[0] != 0x49 || data[1] != 0x49 {
        return Err(Error::Unsupported("big-endian TIFF"));
    }
    if u16_at(data, 2)? != 42 {
        return Err(Error::Format("not TIFF"));
    }
    let mut jpegs: Vec<JpegRef> = Vec::new();
    let mut raw: Option<RawIfd> = None;
    let mut queue: Vec<u32> = Vec::new();
    queue.push(u32_at(data, 4)?);
    let mut seen: usize = 0;
    loop
        invariant
            len == data@.len(),
            seen <= 32,
            spec_parse_layout(data@) == layout_walk(data@, queue@, seen as int, jpegs@, raw),
        decreases 32 - seen, queue@.len(),
    {
        let off = match queue.pop() {
            Some(off) => off,
            None => {
                return match raw {
                    Some(r) => Ok(ArwLayout { raw: r, jpegs }),
                    None => Err(Error::Format("no uncompressed raw SubIFD")),
                };
            },
        };
        if off == 0 {
            continue;
        }
        seen += 1;
        if seen > 32 {
            return Err(Error::Format("too many IFDs"));
        }
        if !in_range(len, off as usize, 2) {
            return Err(Error::Truncated);
        }
        let w = walk_ifd(data, off)?;
        let ghost before_jpegs = jpegs@;
        let ghost before_queue = queue@;
        let mut k: usize = 0;
        while k < w.jpegs.len()
            invariant
                k <= w.jpegs@.len(),
                jpegs@ == before_jpegs + w.jpegs@.subrange(0, k as int),
            decreases w.jpegs@.len() - k,
        {
            jpegs.push(w.jpegs[k]);
            k += 1;
            assert(jpegs@ =~= before_jpegs + w.jpegs@.subrange(0, k as int));
        }
        assert(w.jpegs@.subrange(0, w.jpegs@.len() as int) =~= w.jpegs@);
        if raw.is_none() {
            raw = w.raw;
        }
        let mut k: usize = 0;
        while k < w.subifds.len()
            invariant
                k <= w.subifds@.len(),
                queue@ == before_queue + w.subifds@.subrange(0, k as int),
            decreases w.subifds@.len() - k,
        {
            queue.push(w.subifds[k]);
            k += 1;
            assert(queue@ =~= before_queue + w.subifds@.subrange(0, k as int));
        }
        assert(w.subifds@.subrange(0, w.subifds@.len() as int) =~= w.subifds@);
        if w.next != 0 {
            queue.push(w.next);
        }
        assert(queue@ =~= before_queue + w.subifds@ + (if w.next != 0 {
            seq![w.next]
        } else {
            Seq::empty()
        }));
    }
}

/// The bytes of an embedded JPEG.
pub open spec fn spec_jpeg_bytes(file: Seq<u8>, jpeg: JpegRef) -> core::result::Result<Seq<u8>, Error> {
    let start = jpeg.offset as int;
    let end = start + jpeg.length;
    if end > usize::MAX {
        Err(Error::Format("jpeg overflow"))
    } else if end > file.len() {
        Err(Error::Truncated)
    } else {
        Ok(file.subrange(start, end))
    }
}

/// The bytes of an embedded JPEG, borrowed from the file.
pub fn jpeg_bytes<'a>(file: &'a [u8], jpeg: &JpegRef) -> (r: Result<&'a [u8]>)
    ensures
        match spec_jpeg_bytes(file@, *jpeg) {
            Ok(s) => r matches Ok(b) && b@ == s,
            Err(e) => r matches Err(x) && x == e,
        },
{
    let start = jpeg.offset as usize;
    let end = match start.checked_add(jpeg.length as usize) {
        Some(end) => end,
        None => return Err(Error::Format("jpeg overflow")),
    };
    if end > file.len() {
        return Err(Error::Truncated);
    }
    Ok(&file[start..end])
}

} // verus!

verus! {

/// A raw strip with non-zero width, height, strip offset and strip size.
pub open spec fn raw_valid(r: RawIfd) -> bool {
    r.width > 0 && r.height > 0 && r.strip_offset > 0 && r.strip_bytes > 0
}

proof fn lemma_walk_raw_valid(
    d: Seq<u8>,
    queue: Seq<u32>,
    seen: int,
    jpegs: Seq<JpegRef>,
    raw: Option<RawIfd>,
)
    requires
        raw matches Some(r) ==> raw_valid(r),
    ensures
        layout_walk(d, queue, seen, jpegs, raw) matches Ok((r, _)) ==> raw_valid(r),
    decreases 32 - seen, queue.len(),
{
    if queue.len() > 0 {
        let off = queue.last();
        let rest = queue.drop_last();
        if off == 0 {
            lemma_walk_raw_valid(d, rest, seen, jpegs, raw);
        } else if !(seen + 1 > 32 || seen < 0) && !(off + 2 > d.len()) {
            match spec_walk_ifd(d, off as int) {
                Err(_) => {},
                Ok(w) => {
                    lemma_walk_raw_valid(
                        d,
                        rest + w.subifds + (if w.next != 0 {
                            seq![w.next]
                        } else {
                            Seq::empty()
                        }),
                        seen + 1,
                        jpegs + w.jpegs,
                        if raw is None {
                            w.raw
                        } else {
                            raw
                        },
                    );
                },
            }
        }
    }
}

/// The raw strip a layout names has non-zero width, height, strip offset
/// and strip size.
pub proof fn lemma_layout_raw_valid(d: Seq<u8>)
    ensures
        spec_parse_layout(d) matches Ok((r, _)) ==> raw_valid(r),
{
    if d.len() >= 8 && d[0] == 0x49 && d[1] == 0x49 && le16(d, 2) == 42 {
        lemma_walk_raw_valid(d, seq![le32(d, 4) as u32], 0, Seq::empty(), None);
    }
}

/// `p` is the first `p.len()` bytes of `d`.
pub open spec fn is_prefix(p: Seq<u8>, d: Seq<u8>) -> bool {
    p.len() <= d.len() && forall|m: int| 0 <= m < p.len() ==> #[trigger] d[m] == p[m]
}

/// Reads within a prefix give the same values.
proof fn lemma_reads_in_prefix(p: Seq<u8>, d: Seq<u8>, i: int)
    requires
        is_prefix(p, d),
        0 <= i,
        i + 4 <= p.len(),
    ensures
        le16(p, i) == le16(d, i),
        le16(p, i + 2) == le16(d, i + 2),
        le32(p, i) == le32(d, i),
{
    assert(d[i] == p[i] && d[i + 1] == p[i + 1] && d[i + 2] == p[i + 2] && d[i + 3] == p[i + 3]);
}

/// An IFD entry read within a prefix reads the same in the whole data.
proof fn lemma_entry_prefix(p: Seq<u8>, d: Seq<u8>, e: int, f: IfdFields)
    requires
        is_prefix(p, d),
        0 <= e,
        e + 12 <= p.len(),
        entry_step(p, e, f) is Ok,
    ensures
        entry_step(d, e, f) == entry_step(p, e, f),
{
    lemma_reads_in_prefix(p, d, e);
    lemma_reads_in_prefix(p, d, e + 4);
    lemma_reads_in_prefix(p, d, e + 8);
    let typ = le16(p, e + 2);
    let count = le32(p, e + 4);
    let val = le32(p, e + 8) as u32;
    if le16(p, e) == TAG_SUB_IFDS {
        let size: int = if typ == TYPE_LONG { 4 } else { 2 };
        if !(count * size <= 4) {
            assert forall|k: int| 0 <= k < count implies #[trigger] le32_array(p, val as int, count)[k]
                == le32_array(d, val as int, count)[k] by {
                lemma_reads_in_prefix(p, d, val + 4 * k);
            }
            assert(le32_array(p, val as int, count) =~= le32_array(d, val as int, count));
        }
    }
}

/// Entries read within a prefix read the same in the whole data.
proof fn lemma_entries_prefix(p: Seq<u8>, d: Seq<u8>, o: int, n: int, i: int, f: IfdFields)
    requires
        is_prefix(p, d),
        0 <= o,
        0 <= i,
        entries_fold(p, o, n, i, f) is Ok,
    ensures
        entries_fold(d, o, n, i, f) == entries_fold(p, o, n, i, f),
    decreases n - i,
{
    if i < n {
        lemma_entry_prefix(p, d, o + 2 + 12 * i, f);
        let g = entry_step(p, o + 2 + 12 * i, f)->Ok_0;
        lemma_entries_prefix(p, d, o, n, i + 1, g);
    }
}

/// An IFD read within a prefix reads the same in the whole data.
proof fn lemma_walk_ifd_prefix(p: Seq<u8>, d: Seq<u8>, off: int)
    requires
        is_prefix(p, d),
        0 <= off,
        spec_walk_ifd(p, off) is Ok,
    ensures
        spec_walk_ifd(d, off) == spec_walk_ifd(p, off),
{
    assert(d[off] == p[off] && d[off + 1] == p[off + 1]);
    let n = le16(p, off);
    lemma_entries_prefix(p, d, off, n, 0, empty_fields());
    let e = off + 2 + n * 12;
    assert(d[e] == p[e] && d[e + 1] == p[e + 1] && d[e + 2] == p[e + 2] && d[e + 3] == p[e + 3]);
}

/// The IFD walk over a prefix, when it succeeds, is the walk over the whole
/// data.
proof fn lemma_layout_walk_prefix(
    p: Seq<u8>,
    d: Seq<u8>,
    queue: Seq<u32>,
    seen: int,
    jpegs: Seq<JpegRef>,
    raw: Option<RawIfd>,
)
    requires
        is_prefix(p, d),
        layout_walk(p, queue, seen, jpegs, raw) is Ok,
    ensures
        layout_walk(d, queue, seen, jpegs, raw) == layout_walk(p, queue, seen, jpegs, raw),
    decreases 32 - seen, queue.len(),
{
    if queue.len() > 0 {
        let off = queue.last();
        let rest = queue.drop_last();
        if off == 0 {
            lemma_layout_walk_prefix(p, d, rest, seen, jpegs, raw);
        } else if seen + 1 > 32 || seen < 0 {
        } else {
            lemma_walk_ifd_prefix(p, d, off as int);
            let w = spec_walk_ifd(p, off as int)->Ok_0;
            lemma_layout_walk_prefix(
                p,
                d,
                rest + w.subifds + (if w.next != 0 {
                    seq![w.next]
                } else {
                    Seq::empty()
                }),
                seen + 1,
                jpegs + w.jpegs,
                if raw is None {
                    w.raw
                } else {
                    raw
                },
            );
        }
    }
}

/// A prefix of a TIFF/ARW that parses gives the layout of the whole file:
/// `parse_layout` on the first bytes (such as those up to the raw strip) is
/// never wrong, it only fails when an IFD it needs lies beyond them.
pub proof fn lemma_layout_of_a_prefix(d: Seq<u8>, k: int)
    requires
        0 <= k <= d.len(),
        spec_parse_layout(d.subrange(0, k)) is Ok,
    ensures
        spec_parse_layout(d) == spec_parse_layout(d.subrange(0, k)),
{
    let p = d.subrange(0, k);
    assert(is_prefix(p, d));
    assert(d[0] == p[0] && d[1] == p[1] && d[2] == p[2] && d[3] == p[3]);
    lemma_reads_in_prefix(p, d, 4);
    lemma_layout_walk_prefix(p, d, seq![le32(p, 4) as u32], 0, Seq::empty(), None);
}


/// Whether the SubIFD array an IFD entry at `e` points at (when it does not
/// fit in the entry) ends at or before `k`.
pub open spec fn subifd_array_below(d: Seq<u8>, e: int, k: int) -> bool {
    let typ = le16(d, e + 2);
    let count = le32(d, e + 4);
    let val = le32(d, e + 8);
    let size: int = if typ == TYPE_LONG {
        4
    } else {
        2
    };
    le16(d, e) == TAG_SUB_IFDS && !(count * size <= 4) ==> val + 4 * count <= k
}

/// Whether the entries `i..n` of the IFD at `o` that the walk of `d` reads,
/// and the SubIFD arrays they point at, all end at or before `k`.
pub open spec fn entries_below(d: Seq<u8>, o: int, n: int, i: int, f: IfdFields, k: int) -> bool
    decreases n - i,
{
    if i >= n {
        true
    } else if !fits(d, o + 2 + 12 * i, 12) {
        false
    } else {
        &&& o + 2 + 12 * i + 12 <= k
        &&& subifd_array_below(d, o + 2 + 12 * i, k)
        &&& match entry_step(d, o + 2 + 12 * i, f) {
            Ok(g) => entries_below(d, o, n, i + 1, g, k),
            Err(_) => false,
        }
    }
}

/// Whether the IFD at `off` (its count, entries, SubIFD arrays and next
/// pointer) lies before `k`.
pub open spec fn ifd_below(d: Seq<u8>, off: int, k: int) -> bool {
    let n = le16(d, off);
    &&& off + 2 <= k
    &&& entries_below(d, off, n, 0, empty_fields(), k)
    &&& off + 2 + n * 12 + 4 <= k
}

/// Whether every IFD the walk of `d` reads from `queue` on lies before `k`.
pub open spec fn walk_below(d: Seq<u8>, k: int, queue: Seq<u32>, seen: int) -> bool
    decreases 32 - seen, queue.len(),
{
    if queue.len() == 0 {
        true
    } else {
        let off = queue.last();
        let rest = queue.drop_last();
        if off == 0 {
            walk_below(d, k, rest, seen)
        } else if seen + 1 > 32 || seen < 0 || off + 2 > d.len() {
            true
        } else {
            match spec_walk_ifd(d, off as int) {
                Err(_) => true,
                Ok(w) => ifd_below(d, off as int, k) && walk_below(
                    d,
                    k,
                    rest + w.subifds + (if w.next != 0 {
                        seq![w.next]
                    } else {
                        Seq::empty()
                    }),
                    seen + 1,
                ),
            }
        }
    }
}

/// Whether everything `parse_layout` reads of `d` (the header, every IFD
/// table, next pointer and SubIFD array) lies in its first `k` bytes.
pub open spec fn layout_reads_below(d: Seq<u8>, k: int) -> bool {
    8 <= k && walk_below(d, k, seq![le32(d, 4) as u32], 0)
}

/// Two bytes read before `k` read the same in the first `k` bytes.
proof fn lemma_read16_below(d: Seq<u8>, k: int, i: int)
    requires
        0 <= i,
        i + 2 <= k <= d.len(),
    ensures
        le16(d.subrange(0, k), i) == le16(d, i),
{
    let p = d.subrange(0, k);
    assert(p[i] == d[i] && p[i + 1] == d[i + 1]);
}

/// Four bytes read before `k` read the same in the first `k` bytes.
proof fn lemma_read32_below(d: Seq<u8>, k: int, i: int)
    requires
        0 <= i,
        i + 4 <= k <= d.len(),
    ensures
        le32(d.subrange(0, k), i) == le32(d, i),
        le16(d.subrange(0, k), i) == le16(d, i),
        le16(d.subrange(0, k), i + 2) == le16(d, i + 2),
{
    lemma_read16_below(d, k, i);
    lemma_read16_below(d, k, i + 2);
}

/// An entry that lies before `k` reads the same in the first `k` bytes.
proof fn lemma_entry_below(d: Seq<u8>, k: int, e: int, f: IfdFields)
    requires
        0 <= e,
        e + 12 <= k <= d.len(),
        subifd_array_below(d, e, k),
    ensures
        entry_step(d.subrange(0, k), e, f) == entry_step(d, e, f),
{
    let p = d.subrange(0, k);
    lemma_read32_below(d, k, e);
    lemma_read32_below(d, k, e + 4);
    lemma_read32_below(d, k, e + 8);
    let typ = le16(d, e + 2);
    let count = le32(d, e + 4);
    let val = le32(d, e + 8) as u32;
    if le16(d, e) == TAG_SUB_IFDS {
        let size: int = if typ == TYPE_LONG { 4 } else { 2 };
        if !(count * size <= 4) {
            assert(val + 4 * count <= k);
            assert(fits(p, val as int, 4 * count) == fits(d, val as int, 4 * count));
            assert forall|j: int| 0 <= j < count implies #[trigger] le32_array(p, val as int, count)[j]
                == le32_array(d, val as int, count)[j] by {
                lemma_read32_below(d, k, val + 4 * j);
            }
            assert(le32_array(p, val as int, count) =~= le32_array(d, val as int, count));
        }
    }
}

/// Entries that lie before `k` read the same in the first `k` bytes.
proof fn lemma_entries_below(d: Seq<u8>, k: int, o: int, n: int, i: int, f: IfdFields)
    requires
        0 <= o,
        0 <= i,
        k <= d.len(),
        entries_below(d, o, n, i, f, k),
    ensures
        entries_fold(d.subrange(0, k), o, n, i, f) == entries_fold(d, o, n, i, f),
    decreases n - i,
{
    if i < n {
        let e = o + 2 + 12 * i;
        lemma_entry_below(d, k, e, f);
        let g = entry_step(d, e, f)->Ok_0;
        lemma_entries_below(d, k, o, n, i + 1, g);
    }
}

/// An IFD that lies before `k` reads the same in the first `k` bytes.
proof fn lemma_walk_ifd_below(d: Seq<u8>, k: int, off: int)
    requires
        0 <= off,
        k <= d.len(),
        ifd_below(d, off, k),
    ensures
        spec_walk_ifd(d.subrange(0, k), off) == spec_walk_ifd(d, off),
{
    lemma_read16_below(d, k, off);
    let n = le16(d, off);
    lemma_entries_below(d, k, off, n, 0, empty_fields());
    lemma_read32_below(d, k, off + 2 + n * 12);
}

/// The IFD walk over the first `k` bytes, when the walk of the whole data
/// reads nothing at or after `k`, is the walk of the whole data.
proof fn lemma_layout_walk_below(
    d: Seq<u8>,
    k: int,
    queue: Seq<u32>,
    seen: int,
    jpegs: Seq<JpegRef>,
    raw: Option<RawIfd>,
)
    requires
        k <= d.len(),
        layout_walk(d, queue, seen, jpegs, raw) is Ok,
        walk_below(d, k, queue, seen),
    ensures
        layout_walk(d.subrange(0, k), queue, seen, jpegs, raw) == layout_walk(d, queue, seen, jpegs, raw),
    decreases 32 - seen, queue.len(),
{
    if queue.len() > 0 {
        let off = queue.last();
        let rest = queue.drop_last();
        if off == 0 {
            lemma_layout_walk_below(d, k, rest, seen, jpegs, raw);
        } else {
            lemma_walk_ifd_below(d, k, off as int);
            let w = spec_walk_ifd(d, off as int)->Ok_0;
            lemma_layout_walk_below(
                d,
                k,
                rest + w.subifds + (if w.next != 0 {
                    seq![w.next]
                } else {
                    Seq::empty()
                }),
                seen + 1,
                jpegs + w.jpegs,
                if raw is None {
                    w.raw
                } else {
                    raw
                },
            );
        }
    }
}

/// A TIFF/ARW that parses, cut after everything `parse_layout` reads of it
/// (such as at its raw strip offset, when every IFD lies before the strip),
/// parses to the same layout.
pub proof fn lemma_prefix_holding_the_ifds(d: Seq<u8>, k: int)
    requires
        k <= d.len(),
        spec_parse_layout(d) is Ok,
        layout_reads_below(d, k),
    ensures
        spec_parse_layout(d.subrange(0, k)) == spec_parse_layout(d),
{
    let p = d.subrange(0, k);
    assert(p[0] == d[0] && p[1] == d[1]);
    lemma_read32_below(d, k, 4);
    lemma_read16_below(d, k, 2);
    lemma_layout_walk_below(d, k, seq![le32(d, 4) as u32], 0, Seq::empty(), None);
}

} // verus!
