//! JPEG marker scanning and the stripable ARWC view APP1.

use vstd::prelude::*;
use crate::bytes::{be16, be16_bytes, be16_of, be32, be32_bytes, be32_of, copy_range, push_all};
use crate::error::{Error, Result};
use crate::tiff::{endian_u16, endian_u32, fits, in_range, orientation_scan, rd16, rd32, spec_ifd0_orientation, tiff_order};

verus! {

/// How many bytes of `d` lie at or after position `i`.
pub open spec fn left(d: Seq<u8>, i: int) -> nat {
    if i < d.len() {
        (d.len() - i) as nat
    } else {
        0
    }
}

/// The result of a function that returns a `usize` offset, as an integer.
pub open spec fn offset_result(r: Result<usize>) -> core::result::Result<int, Error> {
    match r {
        Ok(n) => Ok(n as int),
        Err(e) => Err(e),
    }
}

/// Scan of entropy-coded data from position `i`: stuffed `FF 00`, restart
/// markers and fill bytes are skipped; the first `FF D9` ends the image and
/// the result is the offset just after it.
pub open spec fn scan_entropy(d: Seq<u8>, i: int) -> core::result::Result<int, Error>
    decreases left(d, i),
{
    if i < 0 || i >= d.len() {
        Err(Error::Truncated)
    } else if d[i] != 0xff {
        scan_entropy(d, i + 1)
    } else if i + 1 >= d.len() {
        Err(Error::Truncated)
    } else if d[i + 1] == 0xd9 {
        Ok(i + 2)
    } else if d[i + 1] == 0xff {
        scan_entropy(d, i + 1)
    } else {
        scan_entropy(d, i + 2)
    }
}

/// A marker with no length field.
pub open spec fn is_standalone_marker(m: u8) -> bool {
    m == 0xd8 || m == 0x01 || (0xd0 <= m && m <= 0xd7)
}

/// Scan from position `i`, which must hold the `FF` that opens a marker.
pub open spec fn scan_markers(d: Seq<u8>, i: int) -> core::result::Result<int, Error>
    decreases left(d, i), 1int,
{
    if i < 0 || i >= d.len() {
        Err(Error::Truncated)
    } else if d[i] != 0xff {
        Err(Error::Format("invalid JPEG marker"))
    } else {
        scan_marker_code(d, i + 1)
    }
}

/// Scan from position `j`, just after an `FF`: further fill bytes are
/// skipped, then the marker code at hand decides how to go on.
pub open spec fn scan_marker_code(d: Seq<u8>, j: int) -> core::result::Result<int, Error>
    decreases left(d, j), 0int,
{
    if j < 0 || j >= d.len() {
        Err(Error::Truncated)
    } else if d[j] == 0xff {
        scan_marker_code(d, j + 1)
    } else {
        let m = d[j];
        let k = j + 1;
        if m == 0xd9 {
            Ok(k)
        } else if is_standalone_marker(m) {
            scan_markers(d, k)
        } else if k + 2 > d.len() {
            Err(Error::Truncated)
        } else if be16(d, k) < 2 {
            if m == 0xda {
                Err(Error::Format("invalid SOS length"))
            } else {
                Err(Error::Format("invalid JPEG segment length"))
            }
        } else if k + be16(d, k) > usize::MAX {
            if m == 0xda {
                Err(Error::Format("JPEG SOS overflow"))
            } else {
                Err(Error::Format("JPEG segment overflow"))
            }
        } else if m == 0xda {
            scan_entropy(d, k + be16(d, k))
        } else {
            scan_markers(d, k + be16(d, k))
        }
    }
}

/// Where the image of a JPEG ends: the offset just after its first top-level
/// EOI (`FF D9`).
pub open spec fn spec_jpeg_end(d: Seq<u8>) -> core::result::Result<int, Error> {
    if d.len() < 4 || d[0] != 0xff || d[1] != 0xd8 {
        Err(Error::Format("not a JPEG"))
    } else {
        scan_markers(d, 2)
    }
}

/// Return the byte offset *after* the first top-level JPEG EOI (`FF D9`).
/// Viewers ignore everything from this point on.
pub fn jpeg_end(data: &[u8]) -> (r: Result<usize>)
    ensures
        offset_result(r) == spec_jpeg_end(data@),
{
    if data.len() < 4 || data[0] != 0xff || data[1] != 0xd8 {
        return Err(Error::Format("not a JPEG"));
    }
    let len = data.len();
    let mut i: usize = 2;
    loop
        invariant
            len == data@.len(),
            spec_jpeg_end(data@) == scan_markers(data@, i as int),
        decreases left(data@, i as int),
    {
        if i >= len {
            return Err(Error::Truncated);
        }
        if data[i] != 0xff {
            return Err(Error::Format("invalid JPEG marker"));
        }
        let ghost start = i;
        while i < len && data[i] == 0xff
            invariant
                len == data@.len(),
                start <= i <= len,
                spec_jpeg_end(data@) == scan_marker_code(data@, i as int),
            decreases len - i,
        {
            i += 1;
        }
        if i >= len {
            return Err(Error::Truncated);
        }
        let marker = data[i];
        i += 1;
        if marker == 0xd9 {
            return Ok(i);
        } else if marker == 0xd8 || marker == 0x01 || (0xd0 <= marker && marker <= 0xd7) {
        } else {
            if len - i < 2 {
                return Err(Error::Truncated);
            }
            let seg = (data[i] as usize) * 256 + data[i + 1] as usize;
            assert(seg == be16(data@, i as int));
            if seg < 2 {
                if marker == 0xda {
                    return Err(Error::Format("invalid SOS length"));
                }
                return Err(Error::Format("invalid JPEG segment length"));
            }
            if seg > usize::MAX - i {
                if marker == 0xda {
                    return Err(Error::Format("JPEG SOS overflow"));
                }
                return Err(Error::Format("JPEG segment overflow"));
            }
            i = i + seg;
            if marker == 0xda {
                loop
                    invariant
                        len == data@.len(),
                        spec_jpeg_end(data@) == scan_entropy(data@, i as int),
                    decreases left(data@, i as int),
                {
                    if i >= len {
                        return Err(Error::Truncated);
                    }
                    if data[i] != 0xff {
                        i += 1;
                    } else {
                        if i + 1 >= len {
                            return Err(Error::Truncated);
                        }
                        let n = data[i + 1];
                        if n == 0xd9 {
                            return Ok(i + 2);
                        } else if n == 0xff {
                            i += 1;
                        } else {
                            i += 2;
                        }
                    }
                }
            }
        }
    }
}

/// The JPEG image of `data` and what follows it.
pub fn split_jpeg_prefix(data: &[u8]) -> (r: Result<(&[u8], &[u8])>)
    ensures
        match spec_jpeg_end(data@) {
            Ok(end) => r matches Ok((a, b)) && a@ == data@.subrange(0, end) && b@ == data@.subrange(
                end,
                data@.len() as int,
            ),
            Err(e) => r == Err::<(&[u8], &[u8]), Error>(e),
        },
{
    let end = jpeg_end(data)?;
    proof {
        lemma_jpeg_end_bounds(data@);
    }
    Ok((&data[0..end], &data[end..data.len()]))
}

// ---------------------------------------------------------------------------
// Facts about the scans.

/// A successful entropy scan ends after where it started and within the data.
pub proof fn lemma_entropy_bounds(d: Seq<u8>, i: int)
    ensures
        scan_entropy(d, i) matches Ok(r) ==> 0 <= i < r <= d.len(),
    decreases left(d, i),
{
    if 0 <= i < d.len() {
        if d[i] != 0xff {
            lemma_entropy_bounds(d, i + 1);
        } else if i + 1 < d.len() && d[i + 1] != 0xd9 {
            if d[i + 1] == 0xff {
                lemma_entropy_bounds(d, i + 1);
            } else {
                lemma_entropy_bounds(d, i + 2);
            }
        }
    }
}

/// A successful marker scan ends after where it started and within the data.
pub proof fn lemma_markers_bounds(d: Seq<u8>, i: int)
    ensures
        scan_markers(d, i) matches Ok(r) ==> 0 <= i < r <= d.len(),
        scan_marker_code(d, i) matches Ok(r) ==> 0 <= i < r <= d.len(),
    decreases left(d, i),
{
    if 0 <= i < d.len() {
        if d[i] == 0xff {
            lemma_markers_bounds(d, i + 1);
        }
        if d[i] != 0xff {
            let k = i + 1;
            if is_standalone_marker(d[i]) {
                lemma_markers_bounds(d, k);
            } else if k + 2 <= d.len() && be16(d, k) >= 2 {
                if d[i] == 0xda {
                    lemma_entropy_bounds(d, k + be16(d, k));
                } else {
                    lemma_markers_bounds(d, k + be16(d, k));
                }
            }
        }
    }
}

/// A successful `jpeg_end` is an offset within the data.
pub proof fn lemma_jpeg_end_bounds(d: Seq<u8>)
    ensures
        spec_jpeg_end(d) matches Ok(r) ==> 4 <= r <= d.len(),
{
    lemma_markers_bounds(d, 2);
    if spec_jpeg_end(d) is Ok {
        let r = spec_jpeg_end(d)->Ok_0;
        assert(d[2] == 0xff);
        lemma_markers_bounds(d, 3);
        if d[3] == 0xd9 {
        } else {
            lemma_markers_bounds(d, 3);
        }
    }
}

/// Bytes `i..r` of `d2` appear in `d1` moved by `delta`.
pub open spec fn same_bytes(d1: Seq<u8>, d2: Seq<u8>, i: int, r: int, delta: int) -> bool {
    &&& 0 <= i
    &&& 0 <= i + delta
    &&& r + delta <= d1.len()
    &&& d1.len() <= usize::MAX
    &&& forall|j: int| i <= j < r ==> #[trigger] d1[j + delta] == d2[j]
}

/// An entropy scan sees only the bytes up to where it ends, wherever they sit.
pub proof fn lemma_entropy_relocate(d1: Seq<u8>, d2: Seq<u8>, i: int, delta: int, r: int)
    requires
        scan_entropy(d2, i) == Ok::<int, Error>(r),
        same_bytes(d1, d2, i, r, delta),
    ensures
        scan_entropy(d1, i + delta) == Ok::<int, Error>(r + delta),
    decreases left(d2, i),
{
    lemma_entropy_bounds(d2, i);
    lemma_entropy_bounds(d2, i + 1);
    lemma_entropy_bounds(d2, i + 2);
    assert(d1[i + delta] == d2[i]);
    if d2[i] != 0xff {
        lemma_entropy_bounds(d2, i + 1);
        lemma_entropy_relocate(d1, d2, i + 1, delta, r);
    } else {
        assert(d1[i + 1 + delta] == d2[i + 1]);
        if d2[i + 1] == 0xd9 {
        } else if d2[i + 1] == 0xff {
            lemma_entropy_bounds(d2, i + 1);
            lemma_entropy_relocate(d1, d2, i + 1, delta, r);
            assert(i + delta + 1 == i + 1 + delta);
        } else {
            lemma_entropy_bounds(d2, i + 2);
            lemma_entropy_relocate(d1, d2, i + 2, delta, r);
            assert(i + delta + 2 == i + 2 + delta);
        }
    }
}

/// A marker scan sees only the bytes up to where it ends, wherever they sit.
pub proof fn lemma_markers_relocate(d1: Seq<u8>, d2: Seq<u8>, i: int, delta: int, r: int)
    requires
        scan_markers(d2, i) == Ok::<int, Error>(r),
        same_bytes(d1, d2, i, r, delta),
    ensures
        scan_markers(d1, i + delta) == Ok::<int, Error>(r + delta),
    decreases left(d2, i), 1int,
{
    lemma_markers_bounds(d2, i);
    lemma_markers_bounds(d2, i + 1);
    assert(d1[i + delta] == d2[i]);
    lemma_marker_code_relocate(d1, d2, i + 1, delta, r);
    assert(i + delta + 1 == i + 1 + delta);
}

/// The marker-code part of `lemma_markers_relocate`.
pub proof fn lemma_marker_code_relocate(d1: Seq<u8>, d2: Seq<u8>, j: int, delta: int, r: int)
    requires
        scan_marker_code(d2, j) == Ok::<int, Error>(r),
        same_bytes(d1, d2, j, r, delta),
    ensures
        scan_marker_code(d1, j + delta) == Ok::<int, Error>(r + delta),
    decreases left(d2, j), 0int,
{
    lemma_markers_bounds(d2, j);
    assert(d1[j + delta] == d2[j]);
    if d2[j] == 0xff {
        lemma_markers_bounds(d2, j + 1);
        lemma_marker_code_relocate(d1, d2, j + 1, delta, r);
        assert(j + delta + 1 == j + 1 + delta);
    } else {
        let m = d2[j];
        let k = j + 1;
        if m == 0xd9 {
        } else if is_standalone_marker(m) {
            lemma_markers_bounds(d2, k);
            lemma_markers_relocate(d1, d2, k, delta, r);
            assert(j + delta + 1 == k + delta);
        } else {
            let l = be16(d2, k);
            if m == 0xda {
                lemma_entropy_bounds(d2, k + l);
            } else {
                lemma_markers_bounds(d2, k + l);
            }
            assert(d1[k + delta] == d2[k]);
            assert(d1[k + 1 + delta] == d2[k + 1]);
            assert(be16(d1, k + delta) == l);
            if m == 0xda {
                lemma_entropy_bounds(d2, k + l);
                lemma_entropy_relocate(d1, d2, k + l, delta, r);
                assert(k + delta + l == k + l + delta);
            } else {
                lemma_markers_bounds(d2, k + l);
                lemma_markers_relocate(d1, d2, k + l, delta, r);
                assert(k + delta + l == k + l + delta);
            }
        }
    }
}

/// Where a JPEG ends depends only on the bytes before its end: every data
/// that opens with the same bytes up to the end of a JPEG ends there too,
/// whatever follows.
pub proof fn lemma_jpeg_end_ignores_what_follows(d: Seq<u8>, d1: Seq<u8>, end: int)
    requires
        spec_jpeg_end(d) == Ok::<int, Error>(end),
        end <= d1.len() <= usize::MAX,
        d1.subrange(0, end) == d.subrange(0, end),
    ensures
        spec_jpeg_end(d1) == Ok::<int, Error>(end),
{
    lemma_jpeg_end_bounds(d);
    assert(4 <= end <= d.len());
    assert forall|j: int| 0 <= j < end implies #[trigger] d1[j] == d[j] by {
        assert(d1.subrange(0, end)[j] == d1[j]);
        assert(d.subrange(0, end)[j] == d[j]);
    }
    assert(d1[0] == d[0] && d1[1] == d[1]);
    assert forall|j: int| 2 <= j < end implies #[trigger] d1[j + 0] == d[j] by {
        assert(d1[j] == d[j]);
    }
    lemma_markers_relocate(d1, d, 2, 0, end);
}

} // verus!

verus! {

// ---------------------------------------------------------------------------
// The ARWC view APP1.

/// Software tag written into the stripable view APP1 so decode can find it
/// (the ASCII bytes `ARWC`).
pub const VIEW_SOFTWARE: [u8; 4] = [0x41, 0x52, 0x57, 0x43];

/// The bytes `Exif\0\0` that open an EXIF APP1 payload.
pub const EXIF_HEADER: [u8; 6] = [0x45, 0x78, 0x69, 0x66, 0x00, 0x00];

/// The largest thumbnail that the view APP1 carries.
pub const MAX_THUMB_LEN: usize = 60000;

/// A big-endian TIFF SHORT stored in a 4-byte value field.
pub open spec fn mm_short(v: int) -> Seq<u8> {
    be16_bytes(v) + seq![0u8, 0u8]
}

/// The 4-byte value field of a big-endian TIFF entry holding the SHORT `v`.
pub fn mm_short_value(v: u16) -> (out: [u8; 4])
    ensures
        out@ == mm_short(v as int),
{
    let b = be16_of(v);
    let out = [b[0], b[1], 0, 0];
    assert(out@ =~= mm_short(v as int));
    out
}

/// A 12-byte big-endian TIFF IFD entry.
pub open spec fn tiff_entry(tag: int, typ: int, count: int, value: Seq<u8>) -> Seq<u8> {
    be16_bytes(tag) + be16_bytes(typ) + be32_bytes(count) + value
}

/// Offset of IFD1 in the view TIFF when it carries a thumbnail.
pub open spec fn view_ifd1_offset() -> int {
    38int
}

/// Offset of the thumbnail in the view TIFF.
pub open spec fn view_thumb_offset() -> int {
    view_ifd1_offset() + 2 + 3 * 12 + 4
}

/// The big-endian TIFF of the view APP1: IFD0 with Orientation and
/// Software = `ARWC`, and, with a thumbnail, an IFD1 that points at the
/// JPEG thumbnail stored right after it.
#[verifier::opaque]
pub open spec fn view_tiff(ori: u16, thumb: Option<Seq<u8>>) -> Seq<u8> {
    match thumb {
        Some(t) => view_tiff_ifd0(ori) + be32_bytes(view_ifd1_offset()) + be16_bytes(3) + tiff_entry(
            0x0103,
            3,
            1,
            mm_short(6),
        ) + tiff_entry(0x0201, 4, 1, be32_bytes(view_thumb_offset())) + tiff_entry(
            0x0202,
            4,
            1,
            be32_bytes(t.len() as int),
        ) + be32_bytes(0) + t,
        None => view_tiff_ifd0(ori) + be32_bytes(0),
    }
}

/// Orientation forced into 1..=8.
pub open spec fn clamp_orientation(v: u16) -> u16 {
    if v < 1 {
        1
    } else if v > 8 {
        8
    } else {
        v
    }
}

/// Whether a thumbnail may go into the view APP1: a JPEG start of image, at
/// most `MAX_THUMB_LEN` bytes.
pub open spec fn thumb_fits(t: Seq<u8>) -> bool {
    t.len() >= 2 && t[0] == 0xff && t[1] == 0xd8 && t.len() <= MAX_THUMB_LEN
}

/// The thumbnail that the view APP1 carries, if any.
pub open spec fn kept_thumb(thumb: Option<Seq<u8>>) -> Option<Seq<u8>> {
    match thumb {
        Some(t) => if thumb_fits(t) {
            Some(t)
        } else {
            None
        },
        None => None,
    }
}

/// A whole APP1 segment (`FF E1`, big-endian length, payload).
pub open spec fn app1_segment(payload: Seq<u8>) -> Seq<u8> {
    seq![0xffu8, 0xe1u8] + be16_bytes(payload.len() + 2int) + payload
}

/// The view APP1 segment for an orientation and an optional thumbnail.
pub open spec fn spec_view_app1(orientation: u16, thumb: Option<Seq<u8>>) -> Seq<u8> {
    app1_segment(EXIF_HEADER@ + view_tiff(clamp_orientation(orientation), kept_thumb(thumb)))
}

/// The view TIFF is 38 bytes long without a thumbnail and 80 bytes plus the
/// thumbnail with one.
pub proof fn lemma_view_tiff_len(ori: u16, thumb: Option<Seq<u8>>)
    ensures
        view_tiff(ori, thumb).len() == match thumb {
            Some(t) => view_thumb_offset() + t.len(),
            None => 38,
        },
{
    reveal(view_tiff);
}

fn push_entry(buf: &mut Vec<u8>, tag: u16, typ: u16, count: u32, value: &[u8])
    ensures
        final(buf)@ == old(buf)@ + tiff_entry(tag as int, typ as int, count as int, value@),
{
    push_all(buf, be16_of(tag).as_slice());
    push_all(buf, be16_of(typ).as_slice());
    push_all(buf, be32_of(count).as_slice());
    push_all(buf, value);
    assert(buf@ =~= old(buf)@ + tiff_entry(tag as int, typ as int, count as int, value@));
}

/// Builds the view APP1 segment.
fn build_view_app1(orientation: u16, thumb: Option<&[u8]>) -> (r: Result<Vec<u8>>)
    ensures
        r matches Ok(v) && v@ == spec_view_app1(
            orientation,
            match thumb {
                Some(t) => Some(t@),
                None => None,
            },
        ),
    decreases
            (if thumb is Some {
                1int
            } else {
                0int
            }),
{
    let ori = if orientation < 1 {
        1
    } else if orientation > 8 {
        8
    } else {
        orientation
    };
    let thumb: Option<&[u8]> = match thumb {
        Some(t) => if t.len() >= 2 && t[0] == 0xff && t[1] == 0xd8 && t.len() <= MAX_THUMB_LEN {
            Some(t)
        } else {
            None
        },
        None => None,
    };
    let ghost kept = match thumb {
        Some(t) => Some(t@),
        None => None,
    };
    let mut tiff: Vec<u8> = vec![0x4d, 0x4d, 0x00, 0x2a, 0x00, 0x00, 0x00, 0x08];
    let ghost head = tiff@;
    push_all(&mut tiff, be16_of(2).as_slice());
    push_entry(&mut tiff, 0x0112, 3, 1, mm_short_value(ori).as_slice());
    push_entry(&mut tiff, 0x0131, 2, 4, VIEW_SOFTWARE.as_slice());
    match thumb {
        Some(t) => {
            let ifd1_off: u32 = 8 + 2 + 2 * 12 + 4;
            let thumb_off: u32 = ifd1_off + 2 + 3 * 12 + 4;
            push_all(&mut tiff, be32_of(ifd1_off).as_slice());
            push_all(&mut tiff, be16_of(3).as_slice());
            push_entry(&mut tiff, 0x0103, 3, 1, mm_short_value(6).as_slice());
            push_entry(&mut tiff, 0x0201, 4, 1, be32_of(thumb_off).as_slice());
            push_entry(&mut tiff, 0x0202, 4, 1, be32_of(t.len() as u32).as_slice());
            push_all(&mut tiff, be32_of(0).as_slice());
            push_all(&mut tiff, t);
        },
        None => {
            push_all(&mut tiff, be32_of(0).as_slice());
        },
    }
    assert(tiff@ =~= view_tiff(ori, kept)) by {
        reveal(view_tiff);
    }
    let mut payload: Vec<u8> = Vec::with_capacity(6 + tiff.len());
    push_all(&mut payload, EXIF_HEADER.as_slice());
    push_all(&mut payload, tiff.as_slice());
    let len = payload.len() + 2;
    if len > 65535 {
        return build_view_app1(ori, None);
    }
    let mut app1: Vec<u8> = vec![0xff, 0xe1];
    push_all(&mut app1, be16_of(len as u16).as_slice());
    push_all(&mut app1, payload.as_slice());
    assert(app1@ =~= spec_view_app1(orientation, match thumb { Some(t) => Some(t@), None => None }));
    Ok(app1)
}

} // verus!

verus! {

// ---------------------------------------------------------------------------
// Finding and stripping the view APP1.

/// First position at or after `i` that is past the end or not a fill byte.
pub open spec fn skip_fill(d: Seq<u8>, i: int) -> int
    decreases left(d, i),
{
    if 0 <= i < d.len() && d[i] == 0xff {
        skip_fill(d, i + 1)
    } else {
        i
    }
}

/// Among IFD entries `idx..n` of the big-endian IFD at `off`, the first
/// Software entry (tag 0x0131) is ASCII, 4 bytes, `ARWC`; an entry that runs
/// past the data ends the search with `false`.
pub open spec fn software_scan(t: Seq<u8>, off: int, n: int, idx: int) -> bool
    decreases n - idx,
{
    if idx >= n {
        false
    } else {
        let e = off + 2 + idx * 12;
        if e + 12 > t.len() {
            false
        } else if be16(t, e) != 0x0131 {
            software_scan(t, off, n, idx + 1)
        } else {
            be16(t, e + 2) == 2 && be32(t, e + 4) == 4 && t.subrange(e + 8, e + 12)
                == VIEW_SOFTWARE@
        }
    }
}

/// Whether a TIFF is big-endian and its IFD0 says Software = `ARWC`.
pub open spec fn spec_software_is_arwc(t: Seq<u8>) -> bool {
    &&& t.len() >= 8
    &&& t[0] == 0x4d
    &&& t[1] == 0x4d
    &&& t[2] == 0x00
    &&& t[3] == 0x2a
    &&& be32(t, 4) + 2 <= t.len()
    &&& software_scan(t, be32(t, 4), be16(t, be32(t, 4)), 0)
}

/// Whether an APP1 payload is the ARWC view EXIF.
#[verifier::opaque]
pub open spec fn spec_is_view_app1(payload: Seq<u8>) -> bool {
    payload.len() > 6 && payload.subrange(0, 6) == EXIF_HEADER@ && spec_software_is_arwc(
        payload.subrange(6, payload.len() as int),
    )
}

/// The camera JPEG under a view APP1: when the first segment of `j` is the
/// ARWC view APP1, `j` without it; otherwise `j` itself.
pub open spec fn spec_strip_view_exif(j: Seq<u8>) -> Seq<u8> {
    if j.len() < 8 || j[0] != 0xff || j[1] != 0xd8 {
        j
    } else {
        let i = skip_fill(j, 2);
        if i >= j.len() || j[i] != 0xe1 {
            j
        } else {
            let k = i + 1;
            if k + 2 > j.len() {
                j
            } else {
                let l = be16(j, k);
                if l < 2 || k + l > j.len() {
                    j
                } else if !spec_is_view_app1(j.subrange(k + 2, k + l)) {
                    j
                } else {
                    seq![0xffu8, 0xd8u8] + j.subrange(k + l, j.len() as int)
                }
            }
        }
    }
}

fn tiff_ifd0_software_is_arwc(tiff: &[u8]) -> (b: bool)
    ensures
        b == spec_software_is_arwc(tiff@),
{
    let len = tiff.len();
    if len < 8 || tiff[0] != 0x4d || tiff[1] != 0x4d {
        return false;
    }
    if tiff[2] != 0x00 || tiff[3] != 0x2a {
        return false;
    }
    let off = read_be32(tiff, 4) as usize;
    if off > len || len - off < 2 {
        return false;
    }
    let n = read_be16(tiff, off) as usize;
    let mut index: usize = 0;
    while index < n
        invariant
            len == tiff@.len(),
            off + 2 <= len,
            n == be16(tiff@, off as int),
            index <= n,
            spec_software_is_arwc(tiff@) == software_scan(tiff@, off as int, n as int, index as int),
        decreases n - index,
    {
        let room = len - off - 2;
        if index * 12 > room || room - index * 12 < 12 {
            return false;
        }
        let e = off + 2 + index * 12;
        let tag = read_be16(tiff, e);
        if tag != 0x0131 {
            index += 1;
            continue;
        }
        let typ = read_be16(tiff, e + 2);
        let count = read_be32(tiff, e + 4);
        let same = tiff[e + 8] == VIEW_SOFTWARE[0] && tiff[e + 9] == VIEW_SOFTWARE[1]
            && tiff[e + 10] == VIEW_SOFTWARE[2] && tiff[e + 11] == VIEW_SOFTWARE[3];
        assert(same == (tiff@.subrange(e + 8, e + 12) =~= VIEW_SOFTWARE@));
        return typ == 2 && count == 4 && same;
    }
    false
}

/// Big-endian 16-bit read at an offset known to be in range.
pub fn read_be16(d: &[u8], i: usize) -> (v: u16)
    requires
        i + 2 <= d@.len(),
    ensures
        v == be16(d@, i as int),
{
    (d[i] as u16) * 256 + d[i + 1] as u16
}

/// Big-endian 32-bit read at an offset known to be in range.
pub fn read_be32(d: &[u8], i: usize) -> (v: u32)
    requires
        i + 4 <= d@.len(),
    ensures
        v == be32(d@, i as int),
{
    let _len = d.len(); // its length fits in a usize, which the offset arithmetic below relies on
    (read_be16(d, i) as u32) * 65536 + read_be16(d, i + 2) as u32
}

fn is_arwc_view_app1(payload: &[u8]) -> (b: bool)
    ensures
        b == spec_is_view_app1(payload@),
{
    proof {
        reveal(spec_is_view_app1);
    }
    if payload.len() <= 6 {
        return false;
    }
    let starts = payload[0] == EXIF_HEADER[0] && payload[1] == EXIF_HEADER[1] && payload[2]
        == EXIF_HEADER[2] && payload[3] == EXIF_HEADER[3] && payload[4] == EXIF_HEADER[4]
        && payload[5] == EXIF_HEADER[5];
    assert(starts == (payload@.subrange(0, 6) =~= EXIF_HEADER@));
    proof {
        reveal(spec_is_view_app1);
    }
    starts && tiff_ifd0_software_is_arwc(&payload[6..payload.len()])
}

/// Remove the ARWC view APP1, restoring the camera JPEG that belongs in the ARW.
pub fn strip_view_exif(jpeg: &[u8]) -> (r: Result<Vec<u8>>)
    ensures
        r matches Ok(v) && v@ == spec_strip_view_exif(jpeg@),
{
    let len = jpeg.len();
    if len < 8 || jpeg[0] != 0xff || jpeg[1] != 0xd8 {
        return Ok(copy_range(jpeg, 0, len));
    }
    let mut i: usize = 2;
    while i < len && jpeg[i] == 0xff
        invariant
            len == jpeg@.len(),
            2 <= i <= len,
            skip_fill(jpeg@, 2) == skip_fill(jpeg@, i as int),
        decreases len - i,
    {
        i += 1;
    }
    if i >= len || jpeg[i] != 0xe1 {
        return Ok(copy_range(jpeg, 0, len));
    }
    i += 1;
    if len - i < 2 {
        return Ok(copy_range(jpeg, 0, len));
    }
    let seg = read_be16(jpeg, i) as usize;
    if seg < 2 || seg > len - i {
        return Ok(copy_range(jpeg, 0, len));
    }
    if !is_arwc_view_app1(&jpeg[i + 2..i + seg]) {
        return Ok(copy_range(jpeg, 0, len));
    }
    let mut out: Vec<u8> = Vec::with_capacity(len - (seg + 2));
    out.push(0xff);
    out.push(0xd8);
    push_all(&mut out, &jpeg[i + seg..len]);
    assert(out@ =~= spec_strip_view_exif(jpeg@));
    Ok(out)
}

/// The JPEG that `attach_view_exif` returns.
pub open spec fn spec_attach_view_exif(jpeg: Seq<u8>, orientation: u16, thumb: Option<Seq<u8>>) -> core::result::Result<Seq<u8>, Error> {
    if jpeg.len() < 2 || jpeg[0] != 0xff || jpeg[1] != 0xd8 {
        Err(Error::Format("not a JPEG"))
    } else if spec_strip_view_exif(jpeg).len() != jpeg.len() {
        Ok(jpeg)
    } else {
        Ok(seq![0xffu8, 0xd8u8] + spec_view_app1(orientation, thumb) + jpeg.subrange(
            2,
            jpeg.len() as int,
        ))
    }
}

/// The view of an optional borrowed slice.
pub open spec fn opt_view(t: Option<&[u8]>) -> Option<Seq<u8>> {
    match t {
        Some(t) => Some(t@),
        None => None,
    }
}

/// Prepend a stripable EXIF APP1 so browsers and Gallery see Orientation
/// (and a copied IFD1 thumbnail when one exists). Decode removes it.
pub fn attach_view_exif(jpeg: &[u8], orientation: u16, thumb: Option<&[u8]>) -> (r: Result<Vec<u8>>)
    ensures
        match spec_attach_view_exif(jpeg@, orientation, opt_view(thumb)) {
            Ok(v) => r matches Ok(o) && o@ == v,
            Err(e) => r == Err::<Vec<u8>, Error>(e),
        },
{
    let len = jpeg.len();
    if len < 2 || jpeg[0] != 0xff || jpeg[1] != 0xd8 {
        return Err(Error::Format("not a JPEG"));
    }
    let stripped = strip_view_exif(jpeg)?;
    if stripped.len() != len {
        return Ok(copy_range(jpeg, 0, len));
    }
    let app1 = match build_view_app1(orientation, thumb) {
        Ok(app1) => app1,
        Err(e) => {
            if thumb.is_some() {
                build_view_app1(orientation, None)?
            } else {
                return Err(e);
            }
        },
    };
    let mut out: Vec<u8> = Vec::new();
    out.push(0xff);
    out.push(0xd8);
    push_all(&mut out, app1.as_slice());
    push_all(&mut out, &jpeg[2..len]);
    assert(out@ =~= seq![0xffu8, 0xd8u8] + spec_view_app1(orientation, opt_view(thumb))
        + jpeg@.subrange(2, len as int));
    Ok(out)
}

} // verus!

verus! {

/// The first 34 bytes of every view TIFF: header and IFD0 entries.
pub open spec fn view_tiff_ifd0(ori: u16) -> Seq<u8> {
    seq![0x4du8, 0x4du8, 0x00u8, 0x2au8, 0x00u8, 0x00u8, 0x00u8, 0x08u8] + be16_bytes(2)
        + tiff_entry(0x0112, 3, 1, mm_short(ori as int)) + tiff_entry(
        0x0131,
        2,
        4,
        VIEW_SOFTWARE@,
    )
}

/// Big-endian bytes read back give the value.
pub proof fn lemma_be16_roundtrip(s: Seq<u8>, i: int, v: int)
    requires
        0 <= v < 65536,
        0 <= i,
        i + 2 <= s.len(),
        s.subrange(i, i + 2) == be16_bytes(v),
    ensures
        be16(s, i) == v,
{
    assert(s[i] == s.subrange(i, i + 2)[0]);
    assert(s[i + 1] == s.subrange(i, i + 2)[1]);
}

/// Big-endian 32-bit bytes read back give the value.
pub proof fn lemma_be32_roundtrip(s: Seq<u8>, i: int, v: int)
    requires
        0 <= v < 0x1_0000_0000,
        0 <= i,
        i + 4 <= s.len(),
        s.subrange(i, i + 4) == be32_bytes(v),
    ensures
        be32(s, i) == v,
{
    let b = be32_bytes(v);
    assert(s.subrange(i, i + 2) =~= b.subrange(0, 2));
    assert(s.subrange(i + 2, i + 4) =~= b.subrange(2, 4));
    assert(b.subrange(0, 2) =~= be16_bytes((v / 65536) % 65536));
    assert(b.subrange(2, 4) =~= be16_bytes(v % 65536));
    lemma_be16_roundtrip(s, i, (v / 65536) % 65536);
    lemma_be16_roundtrip(s, i + 2, v % 65536);
}

/// Every view TIFF names Software = `ARWC` in its IFD0.
pub proof fn lemma_view_tiff_is_arwc(ori: u16, thumb: Option<Seq<u8>>)
    ensures
        spec_software_is_arwc(view_tiff(ori, thumb)),
{
    reveal(view_tiff);
    let t = view_tiff(ori, thumb);
    let p = view_tiff_ifd0(ori);
    assert(t.subrange(0, 34) =~= p);
    assert(t.len() >= 38);
    assert(t[0] == p[0] && t[1] == p[1] && t[2] == p[2] && t[3] == p[3]);
    assert(be32_bytes(8) =~= seq![0u8, 0u8, 0u8, 8u8]);
    assert(p.subrange(4, 8) =~= be32_bytes(8));
    assert(t.subrange(4, 8) =~= p.subrange(4, 8));
    assert(p.subrange(8, 10) =~= be16_bytes(2));
    assert(t.subrange(8, 10) =~= p.subrange(8, 10));
    let e1 = tiff_entry(0x0112, 3, 1, mm_short(ori as int));
    let e2 = tiff_entry(0x0131, 2, 4, VIEW_SOFTWARE@);
    assert(p.subrange(10, 22) =~= e1);
    assert(p.subrange(22, 34) =~= e2);
    assert(e1.subrange(0, 2) =~= be16_bytes(0x0112));
    assert(e2.subrange(0, 2) =~= be16_bytes(0x0131));
    assert(e2.subrange(2, 4) =~= be16_bytes(2));
    assert(e2.subrange(4, 8) =~= be32_bytes(4));
    assert(e2.subrange(8, 12) =~= VIEW_SOFTWARE@);
    assert(t.subrange(10, 12) =~= e1.subrange(0, 2));
    assert(t.subrange(22, 24) =~= e2.subrange(0, 2));
    assert(t.subrange(24, 26) =~= e2.subrange(2, 4));
    assert(t.subrange(26, 30) =~= e2.subrange(4, 8));
    assert(t.subrange(30, 34) =~= e2.subrange(8, 12));
    lemma_be32_roundtrip(t, 4, 8);
    lemma_be16_roundtrip(t, 8, 2);
    lemma_be16_roundtrip(t, 10, 0x0112);
    lemma_be16_roundtrip(t, 22, 0x0131);
    lemma_be16_roundtrip(t, 24, 2);
    lemma_be32_roundtrip(t, 26, 4);
    assert(t.subrange(30, 34) =~= VIEW_SOFTWARE@);
    assert(software_scan(t, 8, 2, 1));
    assert(software_scan(t, 8, 2, 0));
}

/// Every view TIFF opens with the header and IFD0 of `view_tiff_ifd0`.
proof fn lemma_view_tiff_head(ori: u16, thumb: Option<Seq<u8>>)
    ensures
        view_tiff(ori, thumb).len() >= 38,
        view_tiff(ori, thumb).subrange(0, 34) == view_tiff_ifd0(ori),
{
    reveal(view_tiff);
    assert(view_tiff(ori, thumb).subrange(0, 34) =~= view_tiff_ifd0(ori));
}

/// Reads of the header and IFD0 of a view TIFF.
proof fn lemma_view_ifd0_fields(t: Seq<u8>, ori: u16)
    requires
        t.len() >= 34,
        t.subrange(0, 34) == view_tiff_ifd0(ori),
    ensures
        t[0] == 0x4d && t[1] == 0x4d,
        be16(t, 2) == 42,
        be32(t, 4) == 8,
        be16(t, 8) == 2,
        be16(t, 10) == 0x0112 && be16(t, 12) == 3 && be32(t, 14) == 1 && be32(t, 18) == ori * 65536,
{
    let p = view_tiff_ifd0(ori);
    let x0 = seq![0x4du8, 0x4du8, 0x00u8, 0x2au8, 0x00u8, 0x00u8, 0x00u8, 0x08u8];
    let x1 = x0 + be16_bytes(2);
    let e1 = tiff_entry(0x0112, 3, 1, mm_short(ori as int));
    let x2 = x1 + e1;
    assert(p == x2 + tiff_entry(0x0131, 2, 4, VIEW_SOFTWARE@));
    assert(t[0] == p[0] && t[1] == p[1]);
    assert(t.subrange(2, 4) =~= p.subrange(2, 4));
    assert(p.subrange(2, 4) =~= be16_bytes(42));
    assert(t.subrange(4, 8) =~= p.subrange(4, 8));
    assert(p.subrange(4, 8) =~= be32_bytes(8));
    assert(t.subrange(8, 10) =~= p.subrange(8, 10));
    assert(p.subrange(8, 10) =~= be16_bytes(2));
    assert(t.subrange(10, 22) =~= p.subrange(10, 22));
    assert(p.subrange(10, 22) =~= e1);
    assert(mm_short(ori as int) =~= be32_bytes(ori * 65536));
    lemma_be16_roundtrip(t, 2, 42);
    lemma_be32_roundtrip(t, 4, 8);
    lemma_be16_roundtrip(t, 8, 2);
    lemma_entry_fields(t, 10, 0x0112, 3, 1, mm_short(ori as int));
    lemma_be32_roundtrip(t, 18, ori * 65536);
}

/// The IFD0 Orientation of every view TIFF is the orientation it was made
/// with.
pub proof fn lemma_view_tiff_orientation(ori: u16, thumb: Option<Seq<u8>>)
    requires
        1 <= ori <= 8,
    ensures
        spec_ifd0_orientation(view_tiff(ori, thumb)) == Some(ori),
{
    let t = view_tiff(ori, thumb);
    lemma_view_tiff_head(ori, thumb);
    lemma_view_ifd0_fields(t, ori);
    assert(orientation_scan(t, 8, 2, 0, false) == Some(ori));
}

/// The fields that IFD1 of a view TIFF with a thumbnail is read by.
proof fn lemma_view_tiff_ifd1_fields(ori: u16, thumb: Seq<u8>)
    requires
        thumb.len() <= MAX_THUMB_LEN,
    ensures
        ({
            let t = view_tiff(ori, Some(thumb));
            &&& t.len() == view_thumb_offset() + thumb.len()
            &&& t[0] == 0x4d && t[1] == 0x4d
            &&& be32(t, 4) == 8
            &&& be16(t, 8) == 2
            &&& be32(t, 34) == 38
            &&& be16(t, 38) == 3
            &&& be16(t, 40) == 0x0103 && be16(t, 42) == 3 && be32(t, 44) == 1 && be16(t, 48) == 6
            &&& be16(t, 52) == 0x0201 && be16(t, 54) == 4 && be32(t, 56) == 1 && be32(t, 60) == 80
            &&& be16(t, 64) == 0x0202 && be16(t, 66) == 4 && be32(t, 68) == 1
            &&& be32(t, 72) == thumb.len()
            &&& t.subrange(view_thumb_offset(), t.len() as int) == thumb
        }),
{
    reveal(view_tiff);
    let t = view_tiff(ori, Some(thumb));
    let p = view_tiff_ifd0(ori);
    let c = tiff_entry(0x0103, 3, 1, mm_short(6));
    let o = tiff_entry(0x0201, 4, 1, be32_bytes(80));
    let n = tiff_entry(0x0202, 4, 1, be32_bytes(thumb.len() as int));
    let x1 = p + be32_bytes(38);
    let x2 = x1 + be16_bytes(3);
    let x3 = x2 + c;
    let x4 = x3 + o;
    let x5 = x4 + n;
    let x6 = x5 + be32_bytes(0);
    assert(t == x6 + thumb);
    assert(t.subrange(34, 38) =~= be32_bytes(38)) by {
        assert(t.subrange(34, 38) =~= x1.subrange(34, 38));
    }
    assert(t.subrange(38, 40) =~= be16_bytes(3)) by {
        assert(t.subrange(38, 40) =~= x2.subrange(38, 40));
    }
    assert(t.subrange(40, 52) =~= c) by {
        assert(t.subrange(40, 52) =~= x3.subrange(40, 52));
    }
    assert(t.subrange(52, 64) =~= o) by {
        assert(t.subrange(52, 64) =~= x4.subrange(52, 64));
    }
    assert(t.subrange(64, 76) =~= n) by {
        assert(t.subrange(64, 76) =~= x5.subrange(64, 76));
    }
    assert(t.subrange(80, t.len() as int) =~= thumb);
    lemma_view_tiff_head(ori, Some(thumb));
    lemma_view_ifd0_fields(t, ori);
    lemma_view_ifd1_rest(t, thumb.len() as int);
}

/// Reads of a big-endian IFD entry at `b`.
proof fn lemma_entry_fields(t: Seq<u8>, b: int, tag: int, typ: int, count: int, value: Seq<u8>)
    requires
        0 <= b,
        b + 12 <= t.len(),
        0 <= tag < 65536,
        0 <= typ < 65536,
        0 <= count < 0x1_0000_0000,
        value.len() == 4,
        t.subrange(b, b + 12) == tiff_entry(tag, typ, count, value),
    ensures
        be16(t, b) == tag,
        be16(t, b + 2) == typ,
        be32(t, b + 4) == count,
        t.subrange(b + 8, b + 12) == value,
{
    let e = tiff_entry(tag, typ, count, value);
    assert(t.subrange(b, b + 2) =~= e.subrange(0, 2));
    assert(e.subrange(0, 2) =~= be16_bytes(tag));
    assert(t.subrange(b + 2, b + 4) =~= e.subrange(2, 4));
    assert(e.subrange(2, 4) =~= be16_bytes(typ));
    assert(t.subrange(b + 4, b + 8) =~= e.subrange(4, 8));
    assert(e.subrange(4, 8) =~= be32_bytes(count));
    assert(t.subrange(b + 8, b + 12) =~= e.subrange(8, 12));
    assert(e.subrange(8, 12) =~= value);
    lemma_be16_roundtrip(t, b, tag);
    lemma_be16_roundtrip(t, b + 2, typ);
    lemma_be32_roundtrip(t, b + 4, count);
}

/// Reads of the IFD1 of a view TIFF with a thumbnail of `len` bytes.
proof fn lemma_view_ifd1_rest(t: Seq<u8>, len: int)
    requires
        0 <= len <= MAX_THUMB_LEN,
        t.len() >= 80,
        t.subrange(34, 38) == be32_bytes(38),
        t.subrange(38, 40) == be16_bytes(3),
        t.subrange(40, 52) == tiff_entry(0x0103, 3, 1, mm_short(6)),
        t.subrange(52, 64) == tiff_entry(0x0201, 4, 1, be32_bytes(80)),
        t.subrange(64, 76) == tiff_entry(0x0202, 4, 1, be32_bytes(len)),
    ensures
        be32(t, 34) == 38,
        be16(t, 38) == 3,
        be16(t, 40) == 0x0103 && be16(t, 42) == 3 && be32(t, 44) == 1 && be16(t, 48) == 6,
        be16(t, 52) == 0x0201 && be16(t, 54) == 4 && be32(t, 56) == 1 && be32(t, 60) == 80,
        be16(t, 64) == 0x0202 && be16(t, 66) == 4 && be32(t, 68) == 1,
        be32(t, 72) == len,
{
    lemma_be32_roundtrip(t, 34, 38);
    lemma_be16_roundtrip(t, 38, 3);
    lemma_entry_fields(t, 40, 0x0103, 3, 1, mm_short(6));
    lemma_entry_fields(t, 52, 0x0201, 4, 1, be32_bytes(80));
    lemma_entry_fields(t, 64, 0x0202, 4, 1, be32_bytes(len));
    lemma_short_value(t, 48, 6);
    lemma_be32_roundtrip(t, 60, 80);
    lemma_be32_roundtrip(t, 72, len);
}

/// A big-endian SHORT in a 4-byte value field reads back as the SHORT.
proof fn lemma_short_value(t: Seq<u8>, b: int, v: int)
    requires
        0 <= b,
        b + 4 <= t.len(),
        0 <= v < 65536,
        t.subrange(b, b + 4) == mm_short(v),
    ensures
        be16(t, b) == v,
{
    assert(t.subrange(b, b + 2) =~= mm_short(v).subrange(0, 2));
    assert(mm_short(v).subrange(0, 2) =~= be16_bytes(v));
    lemma_be16_roundtrip(t, b, v);
}

/// The IFD1 of a view TIFF with a thumbnail points at that thumbnail, in
/// every file that holds the view TIFF at `tio`.
pub proof fn lemma_view_tiff_thumbnail(ori: u16, thumb: Seq<u8>, file: Seq<u8>, tio: int)
    requires
        thumb_fits(thumb),
        0 <= tio,
        tio + view_tiff(ori, Some(thumb)).len() <= file.len() <= usize::MAX,
        file.subrange(tio, tio + view_tiff(ori, Some(thumb)).len()) == view_tiff(ori, Some(thumb)),
    ensures
        spec_ifd1_thumbnail(view_tiff(ori, Some(thumb)), file, tio)
            == Some((tio + view_thumb_offset(), tio + view_thumb_offset() + thumb.len())),
{
    let t = view_tiff(ori, Some(thumb));
    lemma_view_tiff_ifd1_fields(ori, thumb);
    let none: ThumbFields = (None, None, None);
    let s1: ThumbFields = (Some(6int), None, None);
    let s2: ThumbFields = (Some(6int), Some(80int), None);
    let s3: ThumbFields = (Some(6int), Some(80int), Some(thumb.len() as int));
    assert(ifd1_fold(t, 38, 3, 3, false, s3) == Some(s3));
    assert(ifd1_fold(t, 38, 3, 2, false, s2) == Some(s3));
    assert(ifd1_fold(t, 38, 3, 1, false, s1) == Some(s3));
    assert(ifd1_fold(t, 38, 3, 0, false, none) == Some(s3));
    assert(t.subrange(80, t.len() as int)[0] == t[80]);
    assert(t.subrange(80, t.len() as int)[1] == t[81]);
    assert(file[tio + 80] == thumb[0]) by {
        assert(file.subrange(tio, tio + t.len())[80] == t[80]);
    }
    assert(file[tio + 81] == thumb[1]) by {
        assert(file.subrange(tio, tio + t.len())[81] == t[81]);
    }
}

/// The view APP1 is an APP1 segment whose payload is the ARWC view EXIF.
pub proof fn lemma_view_app1_shape(orientation: u16, thumb: Option<Seq<u8>>)
    ensures
        ({
            let a = spec_view_app1(orientation, thumb);
            &&& 46 <= a.len() <= 65537
            &&& a[0] == 0xff
            &&& a[1] == 0xe1
            &&& be16(a, 2) == a.len() - 2
            &&& spec_is_view_app1(a.subrange(4, a.len() as int))
        }),
{
    let kept = kept_thumb(thumb);
    let t = view_tiff(clamp_orientation(orientation), kept);
    let payload = EXIF_HEADER@ + t;
    let a = spec_view_app1(orientation, thumb);
    lemma_view_tiff_len(clamp_orientation(orientation), kept);
    lemma_view_tiff_is_arwc(clamp_orientation(orientation), kept);
    assert(a.subrange(2, 4) =~= be16_bytes(payload.len() + 2int));
    lemma_be16_roundtrip(a, 2, payload.len() + 2int);
    assert(a.subrange(4, a.len() as int) =~= payload);
    assert(payload.subrange(0, 6) =~= EXIF_HEADER@);
    assert(payload.subrange(6, payload.len() as int) =~= t);
    reveal(spec_is_view_app1);
}

/// Stripping the view APP1 gives back the camera JPEG it was attached to,
/// for every camera JPEG that does not already start with one.
pub proof fn lemma_strip_undoes_attach(jpeg: Seq<u8>, orientation: u16, thumb: Option<Seq<u8>>)
    requires
        spec_strip_view_exif(jpeg) == jpeg,
        spec_attach_view_exif(jpeg, orientation, thumb) is Ok,
    ensures
        spec_strip_view_exif(spec_attach_view_exif(jpeg, orientation, thumb)->Ok_0) == jpeg,
{
    let a = spec_view_app1(orientation, thumb);
    let v = seq![0xffu8, 0xd8u8] + a + jpeg.subrange(2, jpeg.len() as int);
    lemma_view_app1_shape(orientation, thumb);
    assert(spec_attach_view_exif(jpeg, orientation, thumb)->Ok_0 == v);
    assert(v[2] == 0xff);
    assert(v[3] == 0xe1);
    assert(skip_fill(v, 3) == 3);
    assert(skip_fill(v, 2) == 3);
    assert(v.subrange(4, 6) =~= a.subrange(2, 4));
    assert(be16(v, 4) == be16(a, 2));
    let l = be16(v, 4);
    assert(v.subrange(6, 4 + l) =~= a.subrange(4, a.len() as int));
    assert(seq![0xffu8, 0xd8u8] + v.subrange(4 + l, v.len() as int) =~= jpeg);
}

/// Stripping either leaves a JPEG as it is or makes it shorter.
pub proof fn lemma_strip_shortens(j: Seq<u8>)
    ensures
        spec_strip_view_exif(j) == j || spec_strip_view_exif(j).len() < j.len(),
{
    if j.len() >= 8 && j[0] == 0xff && j[1] == 0xd8 {
        lemma_skip_fill_ge(j, 2);
    }
}

/// Attaching a view APP1 to a JPEG that already has one leaves it as it is,
/// whatever orientation and thumbnail are asked for: view APP1s never stack.
pub proof fn lemma_attach_is_idempotent(
    jpeg: Seq<u8>,
    orientation: u16,
    thumb: Option<Seq<u8>>,
    orientation2: u16,
    thumb2: Option<Seq<u8>>,
)
    requires
        spec_attach_view_exif(jpeg, orientation, thumb) is Ok,
    ensures
        spec_attach_view_exif(spec_attach_view_exif(jpeg, orientation, thumb)->Ok_0, orientation2, thumb2)
            == spec_attach_view_exif(jpeg, orientation, thumb),
{
    let v = spec_attach_view_exif(jpeg, orientation, thumb)->Ok_0;
    lemma_strip_shortens(jpeg);
    if spec_strip_view_exif(jpeg).len() == jpeg.len() {
        lemma_strip_undoes_attach(jpeg, orientation, thumb);
        lemma_view_app1_shape(orientation, thumb);
        let a = spec_view_app1(orientation, thumb);
        assert(v == seq![0xffu8, 0xd8u8] + a + jpeg.subrange(2, jpeg.len() as int));
        assert(v.len() == jpeg.len() + a.len());
        assert(v[0] == 0xff && v[1] == 0xd8);
    }
}

/// What readers find in the view APP1: an APP1 EXIF segment whose TIFF
/// (at 10) says Software = `ARWC` and the orientation asked for, forced into
/// 1..=8; 48 bytes long without a thumbnail, and with one that fits, an
/// IFD1 that points at it.
pub proof fn lemma_view_app1_reads(orientation: u16, thumb: Option<Seq<u8>>)
    ensures
        ({
            let a = spec_view_app1(orientation, thumb);
            let t = a.subrange(10, a.len() as int);
            &&& a[0] == 0xff && a[1] == 0xe1
            &&& be16(a, 2) == a.len() - 2
            &&& a.subrange(4, 10) == EXIF_HEADER@
            &&& spec_software_is_arwc(t)
            &&& spec_ifd0_orientation(t) == Some(clamp_orientation(orientation))
            &&& kept_thumb(thumb) is None ==> a.len() == 48
            &&& kept_thumb(thumb) matches Some(x) ==> spec_ifd1_thumbnail(t, a, 10) == Some(
                (10 + view_thumb_offset(), 10 + view_thumb_offset() + x.len()),
            ) && a.subrange(10 + view_thumb_offset(), 10 + view_thumb_offset() + x.len()) == x
        }),
{
    let c = clamp_orientation(orientation);
    let kt = kept_thumb(thumb);
    let tiff = view_tiff(c, kt);
    let payload = EXIF_HEADER@ + tiff;
    let a = spec_view_app1(orientation, thumb);
    lemma_view_app1_shape(orientation, thumb);
    lemma_view_tiff_len(c, kt);
    assert(a.subrange(10, a.len() as int) =~= tiff);
    assert(a.subrange(4, 10) =~= EXIF_HEADER@);
    lemma_view_tiff_is_arwc(c, kt);
    lemma_view_tiff_orientation(c, kt);
    if let Some(x) = kt {
        lemma_view_tiff_thumbnail(c, x, a, 10);
        lemma_view_tiff_ifd1_fields(c, x);
        let st = 10 + view_thumb_offset();
        assert(a.subrange(st, st + x.len()) =~= tiff.subrange(view_thumb_offset(), tiff.len() as int));
    }
}

/// Only a big-endian TIFF can say Software = `ARWC`: a camera's
/// little-endian EXIF is never taken for the view APP1.
pub proof fn lemma_view_needs_big_endian(t: Seq<u8>)
    requires
        t.len() < 8 || t[0] != 0x4d || t[1] != 0x4d,
    ensures
        !spec_software_is_arwc(t),
{
}

/// A view APP1 attached to a JPEG that had none is the first segment of
/// the result: an APP1 EXIF segment at 2 whose TIFF starts at 12.
proof fn lemma_fresh_view_segment(jpeg: Seq<u8>, orientation: u16, thumb: Option<Seq<u8>>)
    requires
        spec_strip_view_exif(jpeg) == jpeg,
        spec_attach_view_exif(jpeg, orientation, thumb) is Ok,
    ensures
        ({
            let v = spec_attach_view_exif(jpeg, orientation, thumb)->Ok_0;
            let tiff = view_tiff(clamp_orientation(orientation), kept_thumb(thumb));
            let l = 8 + tiff.len() as int;
            &&& v.len() >= 4 && v[0] == 0xff && v[1] == 0xd8 && v[2] == 0xff && v[3] == 0xe1
            &&& be16(v, 4) == l
            &&& 4 + l <= v.len()
            &&& is_exif_payload(v.subrange(6, 4 + l))
            &&& v.subrange(12, 4 + l) == tiff
        }),
{
    let c = clamp_orientation(orientation);
    let kt = kept_thumb(thumb);
    let tiff = view_tiff(c, kt);
    let payload = EXIF_HEADER@ + tiff;
    let a = spec_view_app1(orientation, thumb);
    let v = seq![0xffu8, 0xd8u8] + a + jpeg.subrange(2, jpeg.len() as int);
    lemma_view_app1_shape(orientation, thumb);
    lemma_view_tiff_len(c, kt);
    assert(spec_attach_view_exif(jpeg, orientation, thumb)->Ok_0 == v);
    let l = a.len() - 2;
    assert(v[2] == 0xff && v[3] == 0xe1);
    assert(v.subrange(4, 6) =~= a.subrange(2, 4));
    assert(be16(v, 4) == be16(a, 2));
    assert(a.subrange(4, a.len() as int) =~= payload);
    assert(v.subrange(6, 4 + l) =~= payload);
    assert(payload.subrange(0, 6) =~= EXIF_HEADER@);
    assert(v.subrange(12, 4 + l) =~= tiff);
}

/// A view APP1 attached to a JPEG that had none carries the orientation
/// asked for, forced into 1..=8: that is the EXIF Orientation viewers read.
pub proof fn lemma_attach_sets_orientation(jpeg: Seq<u8>, orientation: u16, thumb: Option<Seq<u8>>)
    requires
        spec_strip_view_exif(jpeg) == jpeg,
        spec_attach_view_exif(jpeg, orientation, thumb) is Ok,
    ensures
        spec_jpeg_exif_orientation(spec_attach_view_exif(jpeg, orientation, thumb)->Ok_0)
            == Some(clamp_orientation(orientation)),
{
    let v = spec_attach_view_exif(jpeg, orientation, thumb)->Ok_0;
    let tiff = view_tiff(clamp_orientation(orientation), kept_thumb(thumb));
    let l = 8 + tiff.len() as int;
    lemma_fresh_view_segment(jpeg, orientation, thumb);
    lemma_view_tiff_orientation(clamp_orientation(orientation), kept_thumb(thumb));
    let f = has_orientation(v);
    assert(f(4, l));
    assert(exif_walk_code(v, 3, f) == Some((4int, l)));
    assert(exif_walk(v, 2, f) == Some((4int, l)));
}

/// The orientation of a view APP1 attached to a JPEG that had none is read
/// from the first bytes alone: any cut of the result that keeps the start
/// of image and the view APP1 (50 bytes without a thumbnail) reads it too.
#[verifier::rlimit(40)]
pub proof fn lemma_orientation_in_first_bytes(jpeg: Seq<u8>, orientation: u16, thumb: Option<Seq<u8>>, k: int)
    requires
        spec_strip_view_exif(jpeg) == jpeg,
        spec_attach_view_exif(jpeg, orientation, thumb) is Ok,
        2 + spec_view_app1(orientation, thumb).len() <= k <= spec_attach_view_exif(jpeg, orientation, thumb)->Ok_0.len(),
    ensures
        spec_jpeg_exif_orientation(spec_attach_view_exif(jpeg, orientation, thumb)->Ok_0.subrange(0, k))
            == Some(clamp_orientation(orientation)),
        kept_thumb(thumb) is None ==> 2 + spec_view_app1(orientation, thumb).len() == 50,
{
    let v = spec_attach_view_exif(jpeg, orientation, thumb)->Ok_0;
    let p = v.subrange(0, k);
    let c = clamp_orientation(orientation);
    let tiff = view_tiff(c, kept_thumb(thumb));
    let l = 8 + tiff.len() as int;
    lemma_fresh_view_segment(jpeg, orientation, thumb);
    lemma_view_app1_shape(orientation, thumb);
    lemma_view_tiff_len(c, kept_thumb(thumb));
    lemma_view_tiff_orientation(c, kept_thumb(thumb));
    lemma_view_app1_reads(orientation, thumb);
    assert(4 + l <= k);
    assert(p[0] == 0xff && p[1] == 0xd8 && p[2] == 0xff && p[3] == 0xe1);
    assert(p[4] == v[4] && p[5] == v[5]);
    assert(be16(p, 4) == l);
    assert(p.subrange(6, 4 + l) =~= v.subrange(6, 4 + l));
    assert(p.subrange(12, 4 + l) =~= v.subrange(12, 4 + l));
    let f = has_orientation(p);
    assert(f(4, l));
    assert(exif_walk_code(p, 3, f) == Some((4int, l)));
    assert(exif_walk(p, 2, f) == Some((4int, l)));
}

/// A view APP1 attached to a JPEG that had none, with a thumbnail that fits,
/// carries that thumbnail where EXIF readers find it.
pub proof fn lemma_attach_carries_thumbnail(jpeg: Seq<u8>, orientation: u16, thumb: Seq<u8>)
    requires
        spec_strip_view_exif(jpeg) == jpeg,
        spec_attach_view_exif(jpeg, orientation, Some(thumb)) is Ok,
        spec_attach_view_exif(jpeg, orientation, Some(thumb))->Ok_0.len() <= usize::MAX,
        thumb_fits(thumb),
    ensures
        ({
            let v = spec_attach_view_exif(jpeg, orientation, Some(thumb))->Ok_0;
            spec_jpeg_exif_thumbnail(v) matches Some((s, e)) && v.subrange(s, e) == thumb
        }),
{
    let c = clamp_orientation(orientation);
    let v = spec_attach_view_exif(jpeg, orientation, Some(thumb))->Ok_0;
    let tiff = view_tiff(c, Some(thumb));
    let l = 8 + tiff.len() as int;
    assert(kept_thumb(Some(thumb)) == Some(thumb));
    lemma_fresh_view_segment(jpeg, orientation, Some(thumb));
    lemma_view_tiff_thumbnail(c, thumb, v, 12);
    lemma_view_tiff_ifd1_fields(c, thumb);
    let f = has_thumbnail(v);
    assert(f(4, l));
    assert(exif_walk_code(v, 3, f) == Some((4int, l)));
    assert(exif_walk(v, 2, f) == Some((4int, l)));
    let st = 12 + view_thumb_offset();
    assert(v.subrange(st, st + thumb.len()) =~= tiff.subrange(view_thumb_offset(), tiff.len() as int));
}

} // verus!

verus! {

// ---------------------------------------------------------------------------
// Reading EXIF from the APP1 segments of a JPEG.

/// Whether an APP1 payload opens with `Exif\0\0` and holds more.
pub open spec fn is_exif_payload(p: Seq<u8>) -> bool {
    p.len() > 6 && p.subrange(0, 6) == EXIF_HEADER@
}

/// What the EXIF readers look for in one APP1 EXIF payload.
pub enum ExifQuery {
    /// IFD0 Orientation.
    Orientation,
    /// The IFD1 JPEG thumbnail.
    Thumbnail,
}

/// The header segments of `d` from position `i` (which must hold an `FF`),
/// up to the first SOS or EOI: `Some((marker position, segment end))` of the
/// first APP1 EXIF segment from which `found` gives an answer, `None` if
/// there is none or a segment is cut short.
pub open spec fn exif_walk(d: Seq<u8>, i: int, found: spec_fn(int, int) -> bool) -> Option<(int, int)>
    decreases left(d, i), 1int,
{
    if i < 0 || i >= d.len() || d[i] != 0xff {
        None
    } else {
        exif_walk_code(d, i + 1, found)
    }
}

/// `exif_walk` from position `j`, just after an `FF`.
pub open spec fn exif_walk_code(d: Seq<u8>, j: int, found: spec_fn(int, int) -> bool) -> Option<(int, int)>
    decreases left(d, j), 0int,
{
    if j < 0 || j >= d.len() {
        None
    } else if d[j] == 0xff {
        exif_walk_code(d, j + 1, found)
    } else {
        let m = d[j];
        let k = j + 1;
        if is_standalone_marker(m) {
            exif_walk(d, k, found)
        } else if m == 0xd9 || m == 0xda {
            None
        } else if k + 2 > d.len() {
            None
        } else {
            let l = be16(d, k);
            if l < 2 || k + l > d.len() {
                None
            } else if m == 0xe1 && is_exif_payload(d.subrange(k + 2, k + l)) && found(k, l) {
                Some((k, l))
            } else {
                exif_walk(d, k + l, found)
            }
        }
    }
}

/// The EXIF walk from a marker that the JPEG scan passes reads nothing at or
/// after where the scan ends: on any data that agrees with `d` up to there,
/// it finds the same orientation segment.
proof fn lemma_walk_prefix(d: Seq<u8>, d2: Seq<u8>, i: int, r: int)
    requires
        scan_markers(d, i) == Ok::<int, Error>(r),
        r <= d2.len(),
        forall|m: int| 0 <= m < r ==> #[trigger] d2[m] == d[m],
    ensures
        exif_walk(d, i, has_orientation(d)) == exif_walk(d2, i, has_orientation(d2)),
    decreases left(d, i), 1int,
{
    lemma_markers_bounds(d, i);
    lemma_markers_bounds(d, i + 1);
    lemma_walk_code_prefix(d, d2, i + 1, r);
}

/// The marker-code part of `lemma_walk_prefix`.
proof fn lemma_walk_code_prefix(d: Seq<u8>, d2: Seq<u8>, j: int, r: int)
    requires
        scan_marker_code(d, j) == Ok::<int, Error>(r),
        r <= d2.len(),
        forall|m: int| 0 <= m < r ==> #[trigger] d2[m] == d[m],
    ensures
        exif_walk_code(d, j, has_orientation(d)) == exif_walk_code(d2, j, has_orientation(d2)),
    decreases left(d, j), 0int,
{
    lemma_markers_bounds(d, j);
    assert(d2[j] == d[j]);
    if d[j] == 0xff {
        lemma_markers_bounds(d, j + 1);
        lemma_walk_code_prefix(d, d2, j + 1, r);
    } else {
        let m = d[j];
        let k = j + 1;
        if m == 0xd9 || m == 0xda {
        } else if is_standalone_marker(m) {
            lemma_markers_bounds(d, k);
            lemma_walk_prefix(d, d2, k, r);
        } else {
            let l = be16(d, k);
            lemma_markers_bounds(d, k + l);
            assert(d2[k] == d[k] && d2[k + 1] == d[k + 1]);
            assert(be16(d2, k) == l);
            assert(k + l < r);
            assert(d2.subrange(k + 2, k + l) =~= d.subrange(k + 2, k + l));
            if l >= 8 {
                assert(d2.subrange(k + 8, k + l) =~= d.subrange(k + 8, k + l));
                assert(has_orientation(d)(k, l) == has_orientation(d2)(k, l));
            }
            lemma_walk_prefix(d, d2, k + l, r);
        }
    }
}

/// The EXIF Orientation of a JPEG is found before its end: cutting what
/// follows the end of image off does not change it.
pub proof fn lemma_orientation_ignores_what_follows(d: Seq<u8>)
    requires
        spec_jpeg_end(d) is Ok,
    ensures
        spec_jpeg_exif_orientation(d.subrange(0, spec_jpeg_end(d)->Ok_0)) == spec_jpeg_exif_orientation(d),
{
    let r = spec_jpeg_end(d)->Ok_0;
    lemma_jpeg_end_bounds(d);
    let d2 = d.subrange(0, r);
    lemma_walk_prefix(d, d2, 2, r);
    let w = exif_walk(d, 2, has_orientation(d));
    if w is Some {
        let (k, l) = w->Some_0;
        lemma_walk_found_bounds(d, 2, r);
        assert(d2.subrange(k + 8, k + l) =~= d.subrange(k + 8, k + l));
    }
}

/// A segment the EXIF walk finds lies before the end of the JPEG scan.
proof fn lemma_walk_found_bounds(d: Seq<u8>, i: int, r: int)
    requires
        scan_markers(d, i) == Ok::<int, Error>(r),
    ensures
        exif_walk(d, i, has_orientation(d)) matches Some((k, l)) ==> 0 <= k && 8 <= k + 8 <= k + l < r,
    decreases left(d, i), 1int,
{
    lemma_markers_bounds(d, i);
    lemma_markers_bounds(d, i + 1);
    lemma_walk_code_found_bounds(d, i + 1, r);
}

/// The marker-code part of `lemma_walk_found_bounds`.
proof fn lemma_walk_code_found_bounds(d: Seq<u8>, j: int, r: int)
    requires
        scan_marker_code(d, j) == Ok::<int, Error>(r),
    ensures
        exif_walk_code(d, j, has_orientation(d)) matches Some((k, l)) ==> 0 <= k && 8 <= k + 8 <= k + l < r,
    decreases left(d, j), 0int,
{
    lemma_markers_bounds(d, j);
    if d[j] == 0xff {
        lemma_markers_bounds(d, j + 1);
        lemma_walk_code_found_bounds(d, j + 1, r);
    } else {
        let m = d[j];
        let k = j + 1;
        if m == 0xd9 || m == 0xda {
        } else if is_standalone_marker(m) {
            lemma_markers_bounds(d, k);
            lemma_walk_found_bounds(d, k, r);
        } else {
            let l = be16(d, k);
            lemma_markers_bounds(d, k + l);
            lemma_walk_found_bounds(d, k + l, r);
        }
    }
}

/// The first fill-free position is at or after where skipping started.
proof fn lemma_skip_fill_ge(d: Seq<u8>, i: int)
    ensures
        skip_fill(d, i) >= i,
        0 <= i ==> (skip_fill(d, i) < d.len() ==> d[skip_fill(d, i)] != 0xff),
        0 <= i <= d.len() ==> skip_fill(d, i) <= d.len(),
    decreases left(d, i),
{
    if 0 <= i < d.len() && d[i] == 0xff {
        lemma_skip_fill_ge(d, i + 1);
    }
}

/// A found segment moved `delta` bytes further on.
pub open spec fn shift_found(r: Option<(int, int)>, delta: int) -> Option<(int, int)> {
    match r {
        Some((k, l)) => Some((k + delta, l)),
        None => None,
    }
}

/// The EXIF walk over data that holds `d2`'s bytes from 2 on, moved `delta`
/// bytes further on, finds the same segment, moved as far.
proof fn lemma_walk_shift(d1: Seq<u8>, d2: Seq<u8>, delta: int, i: int)
    requires
        0 <= delta,
        2 <= i,
        d1.len() == d2.len() + delta,
        forall|j: int| 2 <= j < d2.len() ==> #[trigger] d1[j + delta] == d2[j],
    ensures
        exif_walk(d1, i + delta, has_orientation(d1)) == shift_found(exif_walk(d2, i, has_orientation(d2)), delta),
    decreases left(d2, i), 1int,
{
    if i < d2.len() {
        assert(d1[i + delta] == d2[i]);
        lemma_walk_code_shift(d1, d2, delta, i + 1);
    }
}

/// The marker-code part of `lemma_walk_shift`.
proof fn lemma_walk_code_shift(d1: Seq<u8>, d2: Seq<u8>, delta: int, j: int)
    requires
        0 <= delta,
        2 <= j,
        d1.len() == d2.len() + delta,
        forall|m: int| 2 <= m < d2.len() ==> #[trigger] d1[m + delta] == d2[m],
    ensures
        exif_walk_code(d1, j + delta, has_orientation(d1)) == shift_found(
            exif_walk_code(d2, j, has_orientation(d2)),
            delta,
        ),
    decreases left(d2, j), 0int,
{
    if j < d2.len() {
        assert(d1[j + delta] == d2[j]);
        if d2[j] == 0xff {
            lemma_walk_code_shift(d1, d2, delta, j + 1);
        } else {
            let m = d2[j];
            let k = j + 1;
            if is_standalone_marker(m) {
                lemma_walk_shift(d1, d2, delta, k);
            } else if m == 0xd9 || m == 0xda {
            } else if k + 2 <= d2.len() {
                assert(d1[k + delta] == d2[k] && d1[k + 1 + delta] == d2[k + 1]);
                assert(be16(d1, k + delta) == be16(d2, k));
                let l = be16(d2, k);
                if l >= 2 && k + l <= d2.len() {
                    assert(d1.subrange(k + delta + 2, k + delta + l) =~= d2.subrange(k + 2, k + l)) by {
                        assert forall|x: int| 0 <= x < l - 2 implies d1.subrange(k + delta + 2, k + delta + l)[x]
                            == #[trigger] d2.subrange(k + 2, k + l)[x] by {
                            assert(d1[(k + 2 + x) + delta] == d2[k + 2 + x]);
                        }
                    }
                    if l >= 8 {
                        assert(d1.subrange(k + delta + 8, k + delta + l) =~= d2.subrange(k + 8, k + l)) by {
                            assert forall|x: int| 0 <= x < l - 8 implies d1.subrange(k + delta + 8, k + delta + l)[x]
                                == #[trigger] d2.subrange(k + 8, k + l)[x] by {
                                assert(d1[(k + 8 + x) + delta] == d2[k + 8 + x]);
                            }
                        }
                    }
                    lemma_walk_shift(d1, d2, delta, k + l);
                }
            }
        }
    }
}

/// A marker segment: `FF`, the marker, the big-endian length (the payload's
/// plus the two length bytes), the payload.
pub open spec fn marker_segment(m: u8, payload: Seq<u8>) -> Seq<u8> {
    seq![0xffu8, m] + be16_bytes(payload.len() + 2int) + payload
}

/// The EXIF orientation of a JPEG does not depend on the header segments
/// before its EXIF APP1 that carry none (APP0 JFIF, DQT, other APPn, an APP1
/// without an EXIF IFD0 Orientation): putting such a segment right after
/// the start of image changes nothing.
pub proof fn lemma_orientation_skips_other_segments(m: u8, payload: Seq<u8>, rest: Seq<u8>)
    requires
        m != 0xff,
        !is_standalone_marker(m),
        m != 0xd9,
        m != 0xda,
        payload.len() + 2 < 65536,
        m != 0xe1 || !(is_exif_payload(payload) && spec_ifd0_orientation(
            payload.subrange(6, payload.len() as int),
        ) is Some),
    ensures
        spec_jpeg_exif_orientation(seq![0xffu8, 0xd8u8] + marker_segment(m, payload) + rest)
            == spec_jpeg_exif_orientation(seq![0xffu8, 0xd8u8] + rest),
{
    let seg = marker_segment(m, payload);
    let d1 = seq![0xffu8, 0xd8u8] + seg + rest;
    let d2 = seq![0xffu8, 0xd8u8] + rest;
    let delta = seg.len() as int;
    let l: int = payload.len() + 2int;
    assert(delta == l + 2);
    assert(d1[2] == 0xff && d1[3] == m);
    assert(d1.subrange(4, 6) =~= be16_bytes(l));
    lemma_be16_roundtrip(d1, 4, l);
    assert(d1.subrange(6, 4 + l) =~= payload);
    if l >= 8 {
        assert(d1.subrange(12, 4 + l) =~= payload.subrange(6, payload.len() as int));
    }
    let f1 = has_orientation(d1);
    assert(!(m == 0xe1 && is_exif_payload(d1.subrange(6, 4 + l)) && f1(4, l)));
    assert(exif_walk_code(d1, 3, f1) == exif_walk(d1, 4 + l, f1));
    assert(exif_walk(d1, 2, f1) == exif_walk(d1, 2 + delta, f1));
    assert forall|j: int| 2 <= j < d2.len() implies #[trigger] d1[j + delta] == d2[j] by {}
    lemma_walk_shift(d1, d2, delta, 2);
    let w = exif_walk(d2, 2, has_orientation(d2));
    if w is Some {
        let (k, kl) = w->Some_0;
        lemma_walk_found_in(d2, 2);
        assert(d1.subrange(k + delta + 8, k + delta + kl) =~= d2.subrange(k + 8, k + kl)) by {
            assert forall|x: int| 0 <= x < kl - 8 implies d1.subrange(k + delta + 8, k + delta + kl)[x]
                == #[trigger] d2.subrange(k + 8, k + kl)[x] by {
                assert(d1[(k + 8 + x) + delta] == d2[k + 8 + x]);
            }
        }
    } else if d2.len() < 4 {
        assert(exif_walk(d2, 2, has_orientation(d2)) is None);
    }
}

/// A segment the EXIF walk finds lies within the data, after where it
/// started, and has room for the EXIF header.
proof fn lemma_walk_found_in(d: Seq<u8>, i: int)
    requires
        0 <= i,
    ensures
        exif_walk(d, i, has_orientation(d)) matches Some((k, l)) ==> i < k && 9 <= l && k + l <= d.len(),
    decreases left(d, i), 1int,
{
    if 0 <= i < d.len() && d[i] == 0xff {
        lemma_walk_code_found_in(d, i + 1);
    }
}

/// The marker-code part of `lemma_walk_found_in`.
proof fn lemma_walk_code_found_in(d: Seq<u8>, j: int)
    requires
        0 <= j,
    ensures
        exif_walk_code(d, j, has_orientation(d)) matches Some((k, l)) ==> j < k && 9 <= l && k + l <= d.len(),
    decreases left(d, j), 0int,
{
    if j < d.len() {
        if d[j] == 0xff {
            lemma_walk_code_found_in(d, j + 1);
        } else {
            let m = d[j];
            let k = j + 1;
            if is_standalone_marker(m) {
                lemma_walk_found_in(d, k);
            } else if m == 0xd9 || m == 0xda {
            } else if k + 2 <= d.len() {
                let l = be16(d, k);
                if l >= 2 && k + l <= d.len() {
                    lemma_walk_found_in(d, k + l);
                }
            }
        }
    }
}

/// Whether the APP1 EXIF segment whose length field is at `k` has an IFD0
/// Orientation.
pub open spec fn has_orientation(d: Seq<u8>) -> spec_fn(int, int) -> bool {
    |k: int, l: int| spec_ifd0_orientation(d.subrange(k + 8, k + l)) is Some
}

/// EXIF Orientation from the first APP1 EXIF segment that has one.
pub open spec fn spec_jpeg_exif_orientation(d: Seq<u8>) -> Option<u16> {
    if d.len() < 4 || d[0] != 0xff || d[1] != 0xd8 {
        None
    } else {
        match exif_walk(d, 2, has_orientation(d)) {
            Some((k, l)) => spec_ifd0_orientation(d.subrange(k + 8, k + l)),
            None => None,
        }
    }
}

/// EXIF Orientation from JPEG APP1, if present.
pub fn jpeg_exif_orientation(data: &[u8]) -> (r: Option<u16>)
    ensures
        r == spec_jpeg_exif_orientation(data@),
{
    let len = data.len();
    if len < 4 || data[0] != 0xff || data[1] != 0xd8 {
        return None;
    }
    let ghost found = has_orientation(data@);
    let mut i: usize = 2;
    loop
        invariant
            len == data@.len(),
            found == has_orientation(data@),
            exif_walk(data@, 2, found) == exif_walk(data@, i as int, found),
            spec_jpeg_exif_orientation(data@) == match exif_walk(data@, 2, found) {
                Some((k, l)) => spec_ifd0_orientation(data@.subrange(k + 8, k + l)),
                None => None,
            },
        decreases left(data@, i as int),
    {
        if i >= len || data[i] != 0xff {
            return None;
        }
        let ghost start = i;
        while i < len && data[i] == 0xff
            invariant
                len == data@.len(),
                start <= i <= len,
                exif_walk(data@, 2, found) == exif_walk_code(data@, i as int, found),
            decreases len - i,
        {
            i += 1;
        }
        if i >= len {
            return None;
        }
        let marker = data[i];
        i += 1;
        if marker == 0xd8 || marker == 0x01 || (0xd0 <= marker && marker <= 0xd7) {
        } else if marker == 0xd9 || marker == 0xda {
            return None;
        } else {
            if len - i < 2 {
                return None;
            }
            let seg = read_be16(data, i) as usize;
            if seg < 2 || seg > len - i {
                return None;
            }
            let payload = &data[i + 2..i + seg];
            let k = i;
            i += seg;
            if marker == 0xe1 && payload.len() > 6 && payload[0] == EXIF_HEADER[0] && payload[1]
                == EXIF_HEADER[1] && payload[2] == EXIF_HEADER[2] && payload[3] == EXIF_HEADER[3]
                && payload[4] == EXIF_HEADER[4] && payload[5] == EXIF_HEADER[5] {
                assert(payload@.subrange(0, 6) =~= EXIF_HEADER@);
                assert(payload@.subrange(6, payload@.len() as int) =~= data@.subrange(
                    k + 8,
                    k + seg,
                ));
                if let Some(ori) = crate::tiff::ifd0_orientation(&payload[6..payload.len()]) {
                    return Some(ori);
                }
            } else {
                proof {
                    if marker == 0xe1 && payload@.len() > 6 {
                        assert(!(payload@.subrange(0, 6) =~= EXIF_HEADER@));
                    }
                }
            }
        }
    }
}

} // verus!

verus! {

/// Compression, JPEG offset and JPEG length as the IFD1 entries set them.
pub type ThumbFields = (Option<int>, Option<int>, Option<int>);

/// Entries `idx..n` of the IFD at `ifd` folded into `st`: an entry of count 1
/// and type SHORT or LONG sets compression (0x0103), JPEG offset (0x0201) or
/// JPEG length (0x0202), a later entry overriding an earlier one. `None`
/// when an entry that is read runs past the data.
pub open spec fn ifd1_fold(t: Seq<u8>, ifd: int, n: int, idx: int, le: bool, st: ThumbFields) -> Option<ThumbFields>
    decreases n - idx,
{
    if idx >= n {
        Some(st)
    } else {
        let e = ifd + 2 + idx * 12;
        if !fits(t, e, 8) {
            None
        } else {
            let tag = rd16(t, e, le);
            let typ = rd16(t, e + 2, le);
            let count = rd32(t, e + 4, le);
            if count != 1 || (typ != 3 && typ != 4) {
                ifd1_fold(t, ifd, n, idx + 1, le, st)
            } else if !fits(t, e + 8, if typ == 3 { 2 } else { 4 }) {
                None
            } else {
                let val = if typ == 3 { rd16(t, e + 8, le) } else { rd32(t, e + 8, le) };
                let next = if tag == 0x0103 {
                    (Some(val), st.1, st.2)
                } else if tag == 0x0201 {
                    (st.0, Some(val), st.2)
                } else if tag == 0x0202 {
                    (st.0, st.1, Some(val))
                } else {
                    st
                };
                ifd1_fold(t, ifd, n, idx + 1, le, next)
            }
        }
    }
}

/// The JPEG thumbnail that IFD1 of the EXIF TIFF `t` points at, as a range
/// of `file`, where `t` starts at `tio` in `file`: IFD1 must not name a
/// compression other than JPEG (6), must name an offset and a length of
/// 2..=60000 bytes, and the bytes must start with `FF D8`.
pub open spec fn spec_ifd1_thumbnail(t: Seq<u8>, file: Seq<u8>, tio: int) -> Option<(int, int)> {
    if t.len() < 8 {
        None
    } else {
        match tiff_order(t) {
            None => None,
            Some(le) => {
                let first = rd32(t, 4, le);
                if !fits(t, first, 2) {
                    None
                } else {
                    let nx = first + 2 + rd16(t, first, le) * 12;
                    if !fits(t, nx, 4) || rd32(t, nx, le) == 0 {
                        None
                    } else {
                        let ifd1 = rd32(t, nx, le);
                        if !fits(t, ifd1, 2) {
                            None
                        } else {
                            match ifd1_fold(t, ifd1, rd16(t, ifd1, le), 0, le, (None, None, None)) {
                                None => None,
                                Some(f) => thumb_range(f, file, tio),
                            }
                        }
                    }
                }
            },
        }
    }
}

/// The thumbnail range named by folded IFD1 fields, checked against `file`.
pub open spec fn thumb_range(f: ThumbFields, file: Seq<u8>, tio: int) -> Option<(int, int)> {
    let (comp, joff, jlen) = f;
    if comp is Some && comp != Some(6int) {
        None
    } else if joff is None || jlen is None {
        None
    } else {
        let off = joff->0;
        let len = jlen->0;
        let start = tio + off;
        let end = start + len;
        if len < 2 || len > 60000 || end > usize::MAX || end > file.len() {
            None
        } else if file[start] == 0xff && file[start + 1] == 0xd8 {
            Some((start, end))
        } else {
            None
        }
    }
}

fn jpeg_ifd1_thumbnail<'a>(tiff: &'a [u8], file: &'a [u8], tiff_in_file_offset: usize) -> (r:
    Option<&'a [u8]>)
    ensures
        match spec_ifd1_thumbnail(tiff@, file@, tiff_in_file_offset as int) {
            Some((s, e)) => r matches Some(t) && t@ == file@.subrange(s, e),
            None => r is None,
        },
{
    let tlen = tiff.len();
    if tlen < 8 {
        return None;
    }
    let le = if tiff[0] == 0x49 && tiff[1] == 0x49 {
        true
    } else if tiff[0] == 0x4d && tiff[1] == 0x4d {
        false
    } else {
        return None;
    };
    let first = endian_u32(tiff, 4, le)? as usize;
    let n0 = endian_u16(tiff, first, le)? as usize;
    if n0 * 12 > tlen - first - 2 {
        return None;
    }
    let next = endian_u32(tiff, first + 2 + n0 * 12, le)?;
    if next == 0 {
        return None;
    }
    let ifd1 = next as usize;
    let n1 = endian_u16(tiff, ifd1, le)? as usize;
    let mut jpeg_off: Option<u32> = None;
    let mut jpeg_len: Option<u32> = None;
    let mut compression: Option<u32> = None;
    let mut index: usize = 0;
    while index < n1
        invariant
            tlen == tiff@.len(),
            tiff_order(tiff@) == Some(le),
            fits(tiff@, ifd1 as int, 2),
            n1 == rd16(tiff@, ifd1 as int, le),
            index <= n1,
            spec_ifd1_thumbnail(tiff@, file@, tiff_in_file_offset as int) == match ifd1_fold(
                tiff@,
                ifd1 as int,
                n1 as int,
                0,
                le,
                (None, None, None),
            ) {
                None => None,
                Some(f) => thumb_range(f, file@, tiff_in_file_offset as int),
            },
            ifd1_fold(tiff@, ifd1 as int, n1 as int, 0, le, (None, None, None)) == ifd1_fold(
                tiff@,
                ifd1 as int,
                n1 as int,
                index as int,
                le,
                (opt_int(compression), opt_int(jpeg_off), opt_int(jpeg_len)),
            ),
        decreases n1 - index,
    {
        if tlen - ifd1 - 2 < index * 12 {
            return None;
        }
        let e = ifd1 + 2 + index * 12;
        if !in_range(tlen, e, 8) {
            return None;
        }
        let tag = endian_u16(tiff, e, le)?;
        let typ = endian_u16(tiff, e + 2, le)?;
        let count = endian_u32(tiff, e + 4, le)?;
        if count != 1 || (typ != 3 && typ != 4) {
            index += 1;
            continue;
        }
        let val: u32 = if typ == 3 {
            endian_u16(tiff, e + 8, le)? as u32
        } else {
            endian_u32(tiff, e + 8, le)?
        };
        if tag == 0x0103 {
            compression = Some(val);
        } else if tag == 0x0201 {
            jpeg_off = Some(val);
        } else if tag == 0x0202 {
            jpeg_len = Some(val);
        }
        index += 1;
    }
    if compression.is_some() && compression != Some(6u32) {
        return None;
    }
    let off = jpeg_off? as usize;
    let len = jpeg_len? as usize;
    if len < 2 || len > MAX_THUMB_LEN {
        return None;
    }
    let start = tiff_in_file_offset.checked_add(off)?;
    let end = start.checked_add(len)?;
    if end > file.len() {
        return None;
    }
    let thumb = &file[start..end];
    if thumb[0] == 0xff && thumb[1] == 0xd8 {
        Some(thumb)
    } else {
        None
    }
}

/// An optional 32-bit value as an optional integer.
pub open spec fn opt_int(v: Option<u32>) -> Option<int> {
    match v {
        Some(x) => Some(x as int),
        None => None,
    }
}

/// Whether the APP1 EXIF segment whose length field is at `k` points at an
/// IFD1 thumbnail.
pub open spec fn has_thumbnail(d: Seq<u8>) -> spec_fn(int, int) -> bool {
    |k: int, l: int| spec_ifd1_thumbnail(d.subrange(k + 8, k + l), d, k + 8) is Some
}

/// The IFD1 JPEG thumbnail of the first APP1 EXIF segment that has one, as a
/// range of `d`.
pub open spec fn spec_jpeg_exif_thumbnail(d: Seq<u8>) -> Option<(int, int)> {
    if d.len() < 4 || d[0] != 0xff || d[1] != 0xd8 {
        None
    } else {
        match exif_walk(d, 2, has_thumbnail(d)) {
            Some((k, l)) => spec_ifd1_thumbnail(d.subrange(k + 8, k + l), d, k + 8),
            None => None,
        }
    }
}

/// IFD1 JPEG thumbnail from any APP1 in `jpeg`, if present.
pub fn jpeg_exif_thumbnail(data: &[u8]) -> (r: Option<&[u8]>)
    ensures
        match spec_jpeg_exif_thumbnail(data@) {
            Some((s, e)) => r matches Some(t) && t@ == data@.subrange(s, e),
            None => r is None,
        },
{
    let len = data.len();
    if len < 4 || data[0] != 0xff || data[1] != 0xd8 {
        return None;
    }
    let ghost found = has_thumbnail(data@);
    let mut i: usize = 2;
    loop
        invariant
            len == data@.len(),
            found == has_thumbnail(data@),
            exif_walk(data@, 2, found) == exif_walk(data@, i as int, found),
            spec_jpeg_exif_thumbnail(data@) == match exif_walk(data@, 2, found) {
                Some((k, l)) => spec_ifd1_thumbnail(data@.subrange(k + 8, k + l), data@, k + 8),
                None => None,
            },
        decreases left(data@, i as int),
    {
        if i >= len || data[i] != 0xff {
            return None;
        }
        let ghost start = i;
        while i < len && data[i] == 0xff
            invariant
                len == data@.len(),
                start <= i <= len,
                exif_walk(data@, 2, found) == exif_walk_code(data@, i as int, found),
            decreases len - i,
        {
            i += 1;
        }
        if i >= len {
            return None;
        }
        let marker = data[i];
        i += 1;
        if marker == 0xd8 || marker == 0x01 || (0xd0 <= marker && marker <= 0xd7) {
        } else if marker == 0xd9 || marker == 0xda {
            return None;
        } else {
            if len - i < 2 {
                return None;
            }
            let seg = read_be16(data, i) as usize;
            if seg < 2 || seg > len - i {
                return None;
            }
            let payload = &data[i + 2..i + seg];
            let k = i;
            i += seg;
            if marker == 0xe1 && payload.len() > 6 && payload[0] == EXIF_HEADER[0] && payload[1]
                == EXIF_HEADER[1] && payload[2] == EXIF_HEADER[2] && payload[3] == EXIF_HEADER[3]
                && payload[4] == EXIF_HEADER[4] && payload[5] == EXIF_HEADER[5] {
                assert(payload@.subrange(0, 6) =~= EXIF_HEADER@);
                assert(payload@.subrange(6, payload@.len() as int) =~= data@.subrange(
                    k + 8,
                    k + seg,
                ));
                let tiff = &payload[6..payload.len()];
                let tiff_in_file = k + 8;
                if let Some(thumb) = jpeg_ifd1_thumbnail(tiff, data, tiff_in_file) {
                    return Some(thumb);
                }
            } else {
                proof {
                    if marker == 0xe1 && payload@.len() > 6 {
                        assert(!(payload@.subrange(0, 6) =~= EXIF_HEADER@));
                    }
                }
            }
        }
    }
}

} // verus!
