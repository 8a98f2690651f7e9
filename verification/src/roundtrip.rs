//! What encoding, decoding, inspecting and previewing promise of each other.

use vstd::prelude::*;
use crate::bytes::be16;
use crate::codec::{
    FOOTER_LEN,
    arw_footer, compressed_strip, container_info, strip_frame, decode_outcome, decode_would_panic, encode_meta, encode_outcome,
    geometry_ok, lemma_footer_roundtrip, lemma_restore_undoes_elide, lemma_trailer_roundtrip, spec_check_raw,
    spec_decode_mid, spec_decode_rest, spec_decode_strip, spec_elide_jpeg, spec_encode_head, spec_encode_layout,
    spec_encode_parts, spec_encode_preview, spec_extract_preview, spec_footer_bytes, spec_inspect, spec_is_encoded,
    spec_orig_footer, spec_preview_orientation, spec_restore_header, spec_shuffled_strip, spec_trailer_bytes,
    spec_trailer_meta, spec_view_thumb, starts_jpeg, DecodeMid, InfoSpec, Kind, TrailerMeta,
};
use crate::compression::{sha1_digest, zstd_decompressed};
use crate::error::Error;
use crate::jpeg::{
    clamp_orientation, lemma_markers_relocate, scan_marker_code, scan_markers, spec_jpeg_end,
    spec_jpeg_exif_orientation, spec_strip_view_exif,
};
use crate::tiff::{spec_parse_layout, JpegRef, RawIfd};
use crate::transform::{spec_inverse, spec_pixels_from_le_bytes, spec_pixels_to_le_bytes};

verus! {

/// Whether the camera JPEG of an ARW already opens with an ARWC view APP1
/// (then encoding leaves it as it is and decoding strips it).
pub open spec fn camera_jpeg_has_view_app1(arw: Seq<u8>) -> bool {
    match spec_encode_preview(arw) {
        Ok((_, _, full, eoi)) => spec_strip_view_exif(full.subrange(0, eoi)) != full.subrange(0, eoi),
        Err(_) => false,
    }
}

/// The orientation `encode` writes into the view APP1 of an ARW: that of
/// its camera JPEG's EXIF, else of its TIFF IFD0, else 1.
pub open spec fn encoded_orientation(arw: Seq<u8>) -> u16 {
    match spec_encode_preview(arw) {
        Ok((_, _, full, eoi)) => spec_preview_orientation(full.subrange(0, eoi), arw),
        Err(_) => 1,
    }
}

/// Where in the ARW the camera JPEG that `encode` puts first lies.
pub open spec fn camera_jpeg_offset(arw: Seq<u8>) -> int {
    match spec_encode_preview(arw) {
        Ok((off, _, _, _)) => off as int,
        Err(_) => 0,
    }
}

/// The camera JPEG `encode` puts first (behind the view APP1): the largest
/// embedded JPEG of the ARW up to its end of image.
pub open spec fn encoded_camera_jpeg(arw: Seq<u8>) -> Seq<u8> {
    match spec_encode_preview(arw) {
        Ok((_, _, full, eoi)) => full.subrange(0, eoi),
        Err(_) => Seq::empty(),
    }
}

/// The JPEG `encode` writes for an ARW whose camera JPEG has no view APP1
/// yet: the camera JPEG with the view APP1 after its start of image.
#[verifier::opaque]
pub open spec fn encoded_view(arw: Seq<u8>) -> Seq<u8> {
    match spec_encode_preview(arw) {
        Ok((off, len, full, eoi)) => {
            let jpegs = spec_encode_layout(arw)->Ok_0.1;
            let jpeg = full.subrange(0, eoi);
            let ori = spec_preview_orientation(jpeg, arw);
            let thumb = spec_view_thumb(jpeg, arw, jpegs, off, len);
            seq![0xffu8, 0xd8u8] + crate::jpeg::spec_view_app1(ori, thumb) + full.subrange(2, eoi)
        },
        Err(_) => Seq::empty(),
    }
}

/// The JPEG of an encoded container ends where its view JPEG ends.
proof fn lemma_view_jpeg_end(view: Seq<u8>, full: Seq<u8>, eoi: int, a: Seq<u8>, tail: Seq<u8>)
    requires
        spec_jpeg_end(full) == Ok::<int, Error>(eoi),
        eoi <= full.len(),
        a.len() >= 6,
        a.len() <= 65537,
        a[0] == 0xff,
        a[1] == 0xe1,
        be16(a, 2) == a.len() - 2,
        view == seq![0xffu8, 0xd8u8] + a + full.subrange(2, eoi),
        (view + tail).len() <= usize::MAX,
    ensures
        spec_jpeg_end(view + tail) == Ok::<int, Error>(view.len() as int),
{
    let out = view + tail;
    let al = a.len() as int;
    assert(out[0] == 0xff && out[1] == 0xd8);
    assert(out[2] == a[0] && out[3] == a[1]);
    assert(out[4] == a[2] && out[5] == a[3]);
    assert(be16(out, 4) == al - 2);
    assert(scan_markers(full, 2) == Ok::<int, Error>(eoi));
    assert forall|j: int| 2 <= j < eoi implies #[trigger] out[j + al] == full[j] by {
        assert(out[j + al] == view[j + al]);
        assert(view[j + al] == full.subrange(2, eoi)[j - 2]);
    }
    crate::jpeg::lemma_markers_bounds(full, 2);
    lemma_markers_relocate(out, full, 2, al, eoi);
    assert(scan_marker_code(out, 3) == scan_markers(out, 4 + (al - 2)));
    assert(scan_markers(out, 2) == scan_marker_code(out, 3));
}

/// The shuffled strip is as long as the raw strip.
proof fn lemma_shuffled_len(arw: Seq<u8>, raw: RawIfd)
    requires
        spec_check_raw(arw, raw) is Ok,
    ensures
        spec_shuffled_strip(arw, raw).len() == raw.strip_bytes,
        raw.strip_bytes % 2 == 0,
        (raw.strip_bytes as int / 2) == raw.width * raw.height,
{
    assert(raw.strip_bytes == raw.width * raw.height * 2);
}

/// What `encode` put in front of the zstd frame, taken apart.
proof fn lemma_encode_head_parts(arw: Seq<u8>)
    requires
        spec_encode_parts(arw) is Ok,
        !camera_jpeg_has_view_app1(arw),
    ensures
        ({
            let (head, shuffled) = spec_encode_parts(arw)->Ok_0;
            let (raw, jpegs) = spec_encode_layout(arw)->Ok_0;
            let (off, len, full, eoi) = spec_encode_preview(arw)->Ok_0;
            let jpeg = full.subrange(0, eoi);
            let padding = full.subrange(eoi, full.len() as int);
            let ori = spec_preview_orientation(jpeg, arw);
            let thumb = spec_view_thumb(jpeg, arw, jpegs, off, len);
            let a = crate::jpeg::spec_view_app1(ori, thumb);
            let view = seq![0xffu8, 0xd8u8] + a + full.subrange(2, eoi);
            let header = arw.subrange(0, raw.strip_offset as int);
            let elided = spec_elide_jpeg(header, off as int, len as int)->Ok_0;
            let meta = encode_meta(raw, off, len, elided.len() as int, padding.len() as int);
            &&& spec_parse_layout(arw) == Ok::<(RawIfd, Seq<JpegRef>), Error>((raw, jpegs))
            &&& spec_check_raw(arw, raw) is Ok
            &&& spec_jpeg_end(full) == Ok::<int, Error>(eoi)
            &&& 4 <= eoi <= full.len()
            &&& full.len() == len
            &&& off + len <= raw.strip_offset
            &&& full == header.subrange(off as int, off + len)
            &&& spec_strip_view_exif(view) == jpeg
            &&& a.len() >= 6 && a.len() <= 65537 && a[0] == 0xff && a[1] == 0xe1 && be16(a, 2) == a.len() - 2
            &&& spec_elide_jpeg(header, off as int, len as int) is Ok
            &&& elided.len() == raw.strip_offset - len
            &&& meta.jpeg_len == jpeg.len() + padding.len()
            &&& meta.header_elided_len == elided.len()
            &&& meta.jpeg_padding_len == padding.len()
            &&& meta.width == raw.width
            &&& meta.orig_strip_bytes == raw.strip_bytes
            &&& meta.orig_strip_offset == raw.strip_offset
            &&& meta.jpeg_tiff_offset == off
            &&& head == view + spec_trailer_bytes(meta) + elided + padding
            &&& shuffled == spec_shuffled_strip(arw, raw)
            &&& jpeg + padding == full
        }),
{
    reveal(spec_encode_layout);
    reveal(spec_encode_preview);
    reveal(spec_encode_head);
    let (raw, jpegs) = spec_encode_layout(arw)->Ok_0;
    let (off, len, full, eoi) = spec_encode_preview(arw)->Ok_0;
    crate::jpeg::lemma_jpeg_end_bounds(full);
    let jpeg = full.subrange(0, eoi);
    let padding = full.subrange(eoi, full.len() as int);
    let ori = spec_preview_orientation(jpeg, arw);
    let thumb = spec_view_thumb(jpeg, arw, jpegs, off, len);
    let a = crate::jpeg::spec_view_app1(ori, thumb);
    crate::jpeg::lemma_view_app1_shape(ori, thumb);
    crate::jpeg::lemma_strip_undoes_attach(jpeg, ori, thumb);
    assert(jpeg.subrange(2, eoi as int) =~= full.subrange(2, eoi));
    let header = arw.subrange(0, raw.strip_offset as int);
    assert(full =~= header.subrange(off as int, off + len));
    assert(jpeg + padding =~= full);
}

/// The parts of what follows the JPEG in a container.
proof fn lemma_rest_split(tb: Seq<u8>, elided: Seq<u8>, padding: Seq<u8>, z: Seq<u8>, f: Seq<u8>)
    requires
        tb.len() == 40,
        f.len() == 32,
    ensures
        ({
            let rest = tb + elided + padding + z + f;
            let ee = 40 + elided.len() as int;
            let pe = ee + padding.len() as int;
            &&& rest.len() == pe + z.len() + 32
            &&& rest == tb + (elided + padding + z + f)
            &&& rest.subrange(40, ee) == elided
            &&& rest.subrange(ee, pe) == padding
            &&& rest.subrange(pe, rest.len() - 32) == z
        }),
{
    let rest = tb + elided + padding + z + f;
    let ee = 40 + elided.len() as int;
    let pe = ee + padding.len() as int;
    assert(rest =~= tb + (elided + padding + z + f));
    assert(rest.subrange(40, ee) =~= elided);
    assert(rest.subrange(ee, pe) =~= padding);
    assert(rest.subrange(pe, rest.len() - 32) =~= z);
}

/// What follows the JPEG of a container decodes, up to the payload, into the
/// TIFF header that the camera JPEG goes back into.
proof fn lemma_decode_rest(
    jpeg: Seq<u8>,
    meta: TrailerMeta,
    elided: Seq<u8>,
    padding: Seq<u8>,
    z: Seq<u8>,
    f: Seq<u8>,
    footer: (u64, Seq<u8>),
    header: Seq<u8>,
)
    requires
        f.len() == 32,
        meta.jpeg_len == jpeg.len() + padding.len(),
        meta.header_elided_len == elided.len(),
        meta.jpeg_padding_len == padding.len(),
        spec_restore_header(elided, jpeg + padding, meta.jpeg_tiff_offset as int) == Ok::<Seq<u8>, Error>(header),
        header.len() == meta.orig_strip_offset,
    ensures
        spec_decode_rest(jpeg, spec_trailer_bytes(meta) + elided + padding + z + f, Some(footer))
            == Ok::<DecodeMid, Error>(DecodeMid { header, payload: z, meta, footer: Some(footer) }),
{
    let tb = spec_trailer_bytes(meta);
    let rest = tb + elided + padding + z + f;
    lemma_trailer_roundtrip(meta, elided + padding + z + f);
    lemma_rest_split(tb, elided, padding, z, f);
    assert(spec_trailer_meta(rest) == Ok::<TrailerMeta, Error>(meta));
    let ee = 40 + elided.len() as int;
    let pe = ee + padding.len() as int;
    assert(rest.subrange(40, ee) == elided);
    assert(rest.subrange(ee, pe) == padding);
    assert(rest.subrange(pe, rest.len() - 32) == z);
    assert(spec_decode_rest(jpeg, rest, Some(footer))
        == Ok::<DecodeMid, Error>(DecodeMid { header, payload: z, meta, footer: Some(footer) })) by {
        reveal(spec_decode_rest);
    }
}

/// What follows the JPEG of a container cut before its footer decodes, up to
/// the payload, into the TIFF header that the camera JPEG goes back into.
proof fn lemma_decode_rest_no_footer(
    jpeg: Seq<u8>,
    meta: TrailerMeta,
    elided: Seq<u8>,
    padding: Seq<u8>,
    z: Seq<u8>,
    header: Seq<u8>,
)
    requires
        meta.jpeg_len == jpeg.len() + padding.len(),
        meta.header_elided_len == elided.len(),
        meta.jpeg_padding_len == padding.len(),
        spec_restore_header(elided, jpeg + padding, meta.jpeg_tiff_offset as int) == Ok::<Seq<u8>, Error>(header),
        header.len() == meta.orig_strip_offset,
    ensures
        spec_decode_rest(jpeg, spec_trailer_bytes(meta) + elided + padding + z, None)
            == Ok::<DecodeMid, Error>(DecodeMid { header, payload: z, meta, footer: None }),
{
    let tb = spec_trailer_bytes(meta);
    let rest = tb + elided + padding + z;
    lemma_trailer_roundtrip(meta, elided + padding + z);
    assert(rest =~= tb + (elided + padding + z));
    let ee = 40 + elided.len() as int;
    let pe = ee + padding.len() as int;
    assert(rest.subrange(40, ee) =~= elided);
    assert(rest.subrange(ee, pe) =~= padding);
    assert(rest.subrange(pe, rest.len() as int) =~= z);
    assert(spec_decode_rest(jpeg, rest, None)
        == Ok::<DecodeMid, Error>(DecodeMid { header, payload: z, meta, footer: None })) by {
        reveal(spec_decode_rest);
    }
}

/// A file that opens with a JPEG decodes, up to the payload, as what follows
/// the JPEG does.
proof fn lemma_decode_mid_split(view: Seq<u8>, tail: Seq<u8>)
    requires
        spec_jpeg_end(view + tail) == Ok::<int, Error>(view.len() as int),
    ensures
        spec_decode_mid(view + tail) == spec_decode_rest(
            spec_strip_view_exif(view),
            tail,
            spec_orig_footer(view + tail),
        ),
{
    reveal(spec_decode_mid);
    let out = view + tail;
    assert(out.subrange(0, view.len() as int) =~= view);
    assert(out.subrange(view.len() as int, out.len() as int) =~= tail);
}

/// A checked raw strip is whole rows of a non-zero width.
proof fn lemma_checked_geometry(arw: Seq<u8>, raw: RawIfd)
    requires
        spec_check_raw(arw, raw) is Ok,
        raw.width > 0,
    ensures
        geometry_ok(raw.width, raw.strip_bytes),
        spec_shuffled_strip(arw, raw).len() == raw.strip_bytes,
{
    lemma_shuffled_len(arw, raw);
    assert((raw.width * raw.height) % (raw.width as int) == 0) by {
        vstd::arithmetic::div_mod::lemma_mod_multiples_basic(raw.height as int, raw.width as int);
        assert(raw.width * raw.height == raw.height * raw.width) by (nonlinear_arith);
    }
}

/// Undoing the shuffle of a checked raw strip gives its bytes back.
proof fn lemma_unshuffled_strip(arw: Seq<u8>, raw: RawIfd)
    requires
        spec_check_raw(arw, raw) is Ok,
        raw.width > 0,
    ensures
        spec_pixels_to_le_bytes(spec_inverse(spec_shuffled_strip(arw, raw), raw.width as nat))
            == arw.subrange(raw.strip_offset as int, arw.len() as int),
{
    lemma_shuffled_len(arw, raw);
    let w = raw.width as nat;
    let so = raw.strip_offset as int;
    let strip = arw.subrange(so, so + raw.strip_bytes);
    let px = spec_pixels_from_le_bytes(strip);
    assert(spec_shuffled_strip(arw, raw) == crate::transform::spec_forward(px, w));
    crate::transform::lemma_inverse_undoes_forward(px, w);
    crate::transform::lemma_le_samples_roundtrip(strip);
}

/// The raw strip comes back from its shuffled image, and the rebuilt ARW
/// matches its footer.
proof fn lemma_strip_roundtrip(arw: Seq<u8>, raw: RawIfd)
    requires
        spec_check_raw(arw, raw) is Ok,
        raw.width > 0,
        arw.len() <= u64::MAX,
        sha1_digest(arw).len() == 20,
    ensures
        geometry_ok(raw.width, raw.strip_bytes),
        spec_shuffled_strip(arw, raw).len() == raw.strip_bytes,
        spec_decode_strip(
            arw.subrange(0, raw.strip_offset as int),
            spec_shuffled_strip(arw, raw),
            raw.width,
            raw.strip_bytes,
            Some((arw.len() as u64, sha1_digest(arw))),
        ) == Ok::<Seq<u8>, Error>(arw),
{
    lemma_checked_geometry(arw, raw);
    lemma_unshuffled_strip(arw, raw);
    let so = raw.strip_offset as int;
    assert(arw.subrange(0, so) + arw.subrange(so, arw.len() as int) =~= arw);
}

/// What `encode` put in front of the zstd frame, named: the view JPEG, the
/// camera JPEG inside it, the trailer header, the elided TIFF header, the
/// JPEG padding and the raw IFD.
proof fn lemma_encoded_head(arw: Seq<u8>) -> (r: (Seq<u8>, Seq<u8>, TrailerMeta, Seq<u8>, Seq<u8>, RawIfd))
    requires
        arw.len() <= usize::MAX,
        spec_encode_parts(arw) is Ok,
        !camera_jpeg_has_view_app1(arw),
    ensures
        ({
            let (view, jpeg, meta, elided, padding, raw) = r;
            let (head, shuffled) = spec_encode_parts(arw)->Ok_0;
            &&& head == view + spec_trailer_bytes(meta) + elided + padding
            &&& shuffled == spec_shuffled_strip(arw, raw)
            &&& forall|tail: Seq<u8>| (view + tail).len() <= usize::MAX
                ==> #[trigger] spec_jpeg_end(view + tail) == Ok::<int, Error>(view.len() as int)
            &&& view == encoded_view(arw)
            &&& jpeg == encoded_camera_jpeg(arw)
            &&& spec_strip_view_exif(view) == jpeg
            &&& spec_strip_view_exif(jpeg) == jpeg
            &&& forall|tail: Seq<u8>| (jpeg + tail).len() <= usize::MAX
                ==> #[trigger] spec_jpeg_end(jpeg + tail) == Ok::<int, Error>(jpeg.len() as int)
            &&& meta.jpeg_len == jpeg.len() + padding.len()
            &&& meta.header_elided_len == elided.len()
            &&& meta.jpeg_padding_len == padding.len()
            &&& meta.width == raw.width
            &&& meta.orig_strip_bytes == raw.strip_bytes
            &&& meta.orig_strip_offset == raw.strip_offset
            &&& raw.strip_offset <= arw.len()
            &&& raw.width > 0
            &&& spec_check_raw(arw, raw) is Ok
            &&& spec_restore_header(elided, jpeg + padding, meta.jpeg_tiff_offset as int)
                == Ok::<Seq<u8>, Error>(arw.subrange(0, raw.strip_offset as int))
            &&& meta.jpeg_tiff_offset == camera_jpeg_offset(arw)
        }),
{
    lemma_encode_head_parts(arw);
    let (raw, jpegs) = spec_encode_layout(arw)->Ok_0;
    let (off, len, full, eoi) = spec_encode_preview(arw)->Ok_0;
    crate::tiff::lemma_layout_raw_valid(arw);
    let jpeg = full.subrange(0, eoi);
    let padding = full.subrange(eoi, full.len() as int);
    let ori = spec_preview_orientation(jpeg, arw);
    let thumb = spec_view_thumb(jpeg, arw, jpegs, off, len);
    let a = crate::jpeg::spec_view_app1(ori, thumb);
    let view = seq![0xffu8, 0xd8u8] + a + full.subrange(2, eoi);
    let header = arw.subrange(0, raw.strip_offset as int);
    let elided = spec_elide_jpeg(header, off as int, len as int)->Ok_0;
    let meta = encode_meta(raw, off, len, elided.len() as int, padding.len() as int);
    assert forall|tail: Seq<u8>| (view + tail).len() <= usize::MAX
        implies #[trigger] spec_jpeg_end(view + tail) == Ok::<int, Error>(view.len() as int) by {
        lemma_view_jpeg_end(view, full, eoi, a, tail);
    }
    assert forall|tail: Seq<u8>| (jpeg + tail).len() <= usize::MAX
        implies #[trigger] spec_jpeg_end(jpeg + tail) == Ok::<int, Error>(jpeg.len() as int) by {
        assert((jpeg + tail).subrange(0, eoi) =~= full.subrange(0, eoi));
        crate::jpeg::lemma_jpeg_end_ignores_what_follows(full, jpeg + tail, eoi);
    }
    lemma_restore_undoes_elide(header, off as int, len as int);
    assert(view == encoded_view(arw)) by {
        reveal(encoded_view);
    }
    (view, jpeg, meta, elided, padding, raw)
}

/// A container whose JPEG is `front` (the camera JPEG once its view APP1
/// is stripped), followed by what `encode` writes after the view JPEG,
/// decodes to the ARW.
proof fn lemma_front_decodes(
    arw: Seq<u8>,
    out: Seq<u8>,
    front: Seq<u8>,
    jpeg: Seq<u8>,
    meta: TrailerMeta,
    elided: Seq<u8>,
    padding: Seq<u8>,
    z: Seq<u8>,
    raw: RawIfd,
)
    requires
        arw.len() <= usize::MAX,
        out.len() <= usize::MAX,
        sha1_digest(arw).len() == 20,
        out == front + spec_trailer_bytes(meta) + elided + padding + z + arw_footer(arw),
        spec_jpeg_end(out) == Ok::<int, Error>(front.len() as int),
        spec_strip_view_exif(front) == jpeg,
        compressed_strip(z, spec_shuffled_strip(arw, raw)),
        meta.jpeg_len == jpeg.len() + padding.len(),
        meta.header_elided_len == elided.len(),
        meta.jpeg_padding_len == padding.len(),
        meta.width == raw.width,
        meta.orig_strip_bytes == raw.strip_bytes,
        meta.orig_strip_offset == raw.strip_offset,
        raw.strip_offset <= arw.len(),
        raw.width > 0,
        spec_check_raw(arw, raw) is Ok,
        spec_restore_header(elided, jpeg + padding, meta.jpeg_tiff_offset as int)
            == Ok::<Seq<u8>, Error>(arw.subrange(0, raw.strip_offset as int)),
    ensures
        !decode_would_panic(out),
        decode_outcome(out, Ok(arw)),
{
    let header = arw.subrange(0, raw.strip_offset as int);
    let tb = spec_trailer_bytes(meta);
    let n = arw.len() as u64;
    let h = sha1_digest(arw);
    let f = spec_footer_bytes(n, h);
    let tail = tb + elided + padding + z + f;
    assert(out =~= front + tail);
    lemma_decode_mid_split(front, tail);
    assert(out =~= (front + tb + elided + padding + z) + f);
    lemma_footer_roundtrip(front + tb + elided + padding + z, n, h);
    lemma_decode_rest(jpeg, meta, elided, padding, z, f, (n, h), header);
    assert(spec_decode_mid(out) == Ok::<DecodeMid, Error>(DecodeMid { header, payload: z, meta, footer: Some((n, h)) }));
    lemma_strip_roundtrip(arw, raw);
    assert(zstd_decompressed(z, raw.strip_bytes as nat) == Some(spec_shuffled_strip(arw, raw)));
}

/// Decoding an encoded ARW gives the ARW back, bit for bit, for every ARW
/// whose camera JPEG does not already open with an ARWC view APP1; and
/// decoding it never reaches an unusable strip geometry.
pub proof fn lemma_decode_undoes_encode(arw: Seq<u8>, level: i32, out: Seq<u8>)
    requires
        arw.len() <= usize::MAX,
        out.len() <= usize::MAX,
        encode_outcome(arw, level, Ok(out)),
        !camera_jpeg_has_view_app1(arw),
    ensures
        !decode_would_panic(out),
        decode_outcome(out, Ok(arw)),
{
    let (head, shuffled) = spec_encode_parts(arw)->Ok_0;
    let z = strip_frame(shuffled, level);
    let (view, jpeg, meta, elided, padding, raw) = lemma_encoded_head(arw);
    let tail = spec_trailer_bytes(meta) + elided + padding + z + arw_footer(arw);
    assert(out =~= view + tail);
    assert(spec_jpeg_end(view + tail) == Ok::<int, Error>(view.len() as int));
    assert(out =~= view + spec_trailer_bytes(meta) + elided + padding + z + arw_footer(arw));
    lemma_front_decodes(arw, out, view, jpeg, meta, elided, padding, z, raw);
}

/// A container with its view APP1 stripped off is the camera JPEG followed
/// by the rest of the container.
proof fn lemma_legacy_shape(out: Seq<u8>, view: Seq<u8>, tail: Seq<u8>, jpeg: Seq<u8>)
    requires
        out == view + tail,
        spec_strip_view_exif(view) == jpeg,
    ensures
        spec_strip_view_exif(out.subrange(0, view.len() as int)) + out.subrange(view.len() as int, out.len() as int)
            == jpeg + tail,
        (jpeg + tail).len() <= out.len(),
{
    let e = view.len() as int;
    assert(out.subrange(0, e) =~= view);
    assert(out.subrange(e, out.len() as int) =~= tail);
    crate::jpeg::lemma_strip_shortens(view);
}

/// A container cut before its footer (as files written before the footer
/// existed are) still decodes to the ARW, unless the cut file happens to end
/// in what reads as a footer; for every ARW whose camera JPEG does not
/// already open with an ARWC view APP1.
pub proof fn lemma_decode_without_footer(arw: Seq<u8>, level: i32, out: Seq<u8>)
    requires
        arw.len() <= usize::MAX,
        out.len() <= usize::MAX,
        encode_outcome(arw, level, Ok(out)),
        !camera_jpeg_has_view_app1(arw),
        spec_orig_footer(out.subrange(0, out.len() - FOOTER_LEN)) is None,
    ensures
        out.len() >= FOOTER_LEN,
        !decode_would_panic(out.subrange(0, out.len() - FOOTER_LEN)),
        decode_outcome(out.subrange(0, out.len() - FOOTER_LEN), Ok(arw)),
{
    let (head, shuffled) = spec_encode_parts(arw)->Ok_0;
    let z = strip_frame(shuffled, level);
    let (view, jpeg, meta, elided, padding, raw) = lemma_encoded_head(arw);
    let n = arw.len() as u64;
    let h = sha1_digest(arw);
    let f = spec_footer_bytes(n, h);
    lemma_footer_roundtrip(head + z, n, h);
    let cut = out.subrange(0, out.len() - FOOTER_LEN);
    let tail = spec_trailer_bytes(meta) + elided + padding + z;
    assert(cut =~= view + tail);
    assert(spec_jpeg_end(view + tail) == Ok::<int, Error>(view.len() as int));
    lemma_decode_mid_split(view, tail);
    let header = arw.subrange(0, raw.strip_offset as int);
    lemma_decode_rest_no_footer(jpeg, meta, elided, padding, z, header);
    assert(spec_decode_mid(cut) == Ok::<DecodeMid, Error>(DecodeMid { header, payload: z, meta, footer: None }));
    lemma_strip_no_footer(arw, raw);
    assert(zstd_decompressed(z, raw.strip_bytes as nat) == Some(spec_shuffled_strip(arw, raw)));
}

/// The raw strip comes back from its shuffled image when there is no footer
/// to check.
#[verifier::rlimit(40)]
proof fn lemma_strip_no_footer(arw: Seq<u8>, raw: RawIfd)
    requires
        spec_check_raw(arw, raw) is Ok,
        raw.width > 0,
    ensures
        geometry_ok(raw.width, raw.strip_bytes),
        spec_shuffled_strip(arw, raw).len() == raw.strip_bytes,
        spec_decode_strip(
            arw.subrange(0, raw.strip_offset as int),
            spec_shuffled_strip(arw, raw),
            raw.width,
            raw.strip_bytes,
            None,
        ) == Ok::<Seq<u8>, Error>(arw),
{
    lemma_checked_geometry(arw, raw);
    lemma_unshuffled_strip(arw, raw);
    let so = raw.strip_offset as int;
    assert(arw.subrange(0, so) + arw.subrange(so, arw.len() as int) =~= arw);
}

/// A container whose view APP1 was stripped off again (as files encoded
/// before the view APP1 existed are) still decodes to the ARW, for every
/// ARW whose camera JPEG does not already open with an ARWC view APP1.
#[verifier::rlimit(40)]
pub proof fn lemma_decode_without_view_app1(arw: Seq<u8>, level: i32, out: Seq<u8>)
    requires
        arw.len() <= usize::MAX,
        out.len() <= usize::MAX,
        encode_outcome(arw, level, Ok(out)),
        !camera_jpeg_has_view_app1(arw),
    ensures
        spec_jpeg_end(out) is Ok,
        ({
            let e = spec_jpeg_end(out)->Ok_0;
            let legacy = spec_strip_view_exif(out.subrange(0, e)) + out.subrange(e, out.len() as int);
            &&& !decode_would_panic(legacy)
            &&& decode_outcome(legacy, Ok(arw))
        }),
{
    let (head, shuffled) = spec_encode_parts(arw)->Ok_0;
    let z = strip_frame(shuffled, level);
    let (view, jpeg, meta, elided, padding, raw) = lemma_encoded_head(arw);
    let tail = spec_trailer_bytes(meta) + elided + padding + z + arw_footer(arw);
    assert(out =~= view + tail);
    assert(spec_jpeg_end(view + tail) == Ok::<int, Error>(view.len() as int));
    lemma_legacy_shape(out, view, tail, jpeg);
    let legacy = jpeg + tail;
    assert(spec_jpeg_end(jpeg + tail) == Ok::<int, Error>(jpeg.len() as int));
    assert(legacy =~= jpeg + spec_trailer_bytes(meta) + elided + padding + z + arw_footer(arw));
    lemma_front_decodes(arw, legacy, jpeg, jpeg, meta, elided, padding, z, raw);
}

/// The viewable JPEG of a file that opens with a JPEG is the same for every
/// prefix of the file that holds the whole JPEG: no byte after the JPEG's
/// end is needed to extract it.
pub proof fn lemma_preview_of_a_prefix(data: Seq<u8>, k: int)
    requires
        data.len() <= usize::MAX,
        starts_jpeg(data),
        spec_jpeg_end(data) is Ok,
        spec_jpeg_end(data)->Ok_0 <= k <= data.len(),
    ensures
        spec_extract_preview(data.subrange(0, k)) == spec_extract_preview(data),
        spec_extract_preview(data) == Ok::<Seq<u8>, Error>(data.subrange(0, spec_jpeg_end(data)->Ok_0)),
{
    let e = spec_jpeg_end(data)->Ok_0;
    let p = data.subrange(0, k);
    crate::jpeg::lemma_jpeg_end_bounds(data);
    assert(p.subrange(0, e) =~= data.subrange(0, e));
    crate::jpeg::lemma_jpeg_end_ignores_what_follows(data, p, e);
    assert(p[0] == data[0] && p[1] == data[1]);
}

/// What `encode` put in front of the zstd frame: a JPEG that ends where the
/// trailer header starts, the trailer header, the elided TIFF header and the
/// JPEG padding; and the raw IFD it read.
proof fn lemma_encoded_layout(arw: Seq<u8>) -> (r: (Seq<u8>, TrailerMeta, Seq<u8>, Seq<u8>, RawIfd))
    requires
        arw.len() <= usize::MAX,
        spec_encode_parts(arw) is Ok,
    ensures
        ({
            let (view, meta, elided, padding, raw) = r;
            let (head, shuffled) = spec_encode_parts(arw)->Ok_0;
            &&& head == view + spec_trailer_bytes(meta) + elided + padding
            &&& forall|tail: Seq<u8>| (view + tail).len() <= usize::MAX
                ==> #[trigger] spec_jpeg_end(view + tail) == Ok::<int, Error>(view.len() as int)
            &&& spec_parse_layout(arw) is Ok
            &&& spec_parse_layout(arw)->Ok_0.0 == raw
            &&& meta.width == raw.width
            &&& meta.height == raw.height
            &&& meta.header_elided_len == elided.len()
            &&& !camera_jpeg_has_view_app1(arw) ==> spec_jpeg_exif_orientation(view)
                == Some(clamp_orientation(encoded_orientation(arw)))
            &&& camera_jpeg_has_view_app1(arw) ==> view == encoded_camera_jpeg(arw)
        }),
{
    reveal(spec_encode_layout);
    reveal(spec_encode_preview);
    reveal(spec_encode_head);
    let (raw, jpegs) = spec_encode_layout(arw)->Ok_0;
    let (off, len, full, eoi) = spec_encode_preview(arw)->Ok_0;
    crate::jpeg::lemma_jpeg_end_bounds(full);
    let jpeg = full.subrange(0, eoi);
    let padding = full.subrange(eoi, full.len() as int);
    let ori = spec_preview_orientation(jpeg, arw);
    let thumb = spec_view_thumb(jpeg, arw, jpegs, off, len);
    let view = crate::jpeg::spec_attach_view_exif(jpeg, ori, thumb)->Ok_0;
    let header = arw.subrange(0, raw.strip_offset as int);
    let elided = spec_elide_jpeg(header, off as int, len as int)->Ok_0;
    let meta = encode_meta(raw, off, len, elided.len() as int, padding.len() as int);
    crate::jpeg::lemma_strip_shortens(jpeg);
    if spec_strip_view_exif(jpeg).len() != jpeg.len() {
        assert(view == jpeg);
        assert forall|tail: Seq<u8>| (view + tail).len() <= usize::MAX
            implies #[trigger] spec_jpeg_end(view + tail) == Ok::<int, Error>(view.len() as int) by {
            assert((view + tail).subrange(0, eoi) =~= full.subrange(0, eoi));
            crate::jpeg::lemma_jpeg_end_ignores_what_follows(full, view + tail, eoi);
        }
    } else {
        let a = crate::jpeg::spec_view_app1(ori, thumb);
        crate::jpeg::lemma_view_app1_shape(ori, thumb);
        assert(jpeg.subrange(2, eoi as int) =~= full.subrange(2, eoi));
        assert(view == seq![0xffu8, 0xd8u8] + a + full.subrange(2, eoi));
        assert forall|tail: Seq<u8>| (view + tail).len() <= usize::MAX
            implies #[trigger] spec_jpeg_end(view + tail) == Ok::<int, Error>(view.len() as int) by {
            lemma_view_jpeg_end(view, full, eoi, a, tail);
        }
        crate::jpeg::lemma_strip_shortens(jpeg);
        if spec_strip_view_exif(jpeg) == jpeg {
            crate::jpeg::lemma_attach_sets_orientation(jpeg, ori, thumb);
        }
    }
    (view, meta, elided, padding, raw)
}

/// `inspect` of a JPEG followed by a readable trailer header.
proof fn lemma_inspect_container(out: Seq<u8>, end: int, meta: TrailerMeta)
    requires
        spec_jpeg_end(out) == Ok::<int, Error>(end),
        out.subrange(end, out.len() as int).len() >= 4,
        out.subrange(end, out.len() as int).subrange(0, 4) == crate::codec::MAGIC@,
        spec_trailer_meta(out.subrange(end, out.len() as int)) == Ok::<TrailerMeta, Error>(meta),
    ensures
        spec_inspect(out) == Ok::<InfoSpec, Error>(container_info(out, end, meta)),
{
    reveal(spec_inspect);
    crate::jpeg::lemma_jpeg_end_bounds(out);
}

/// The fields of `inspect` of a container with a footer.
proof fn lemma_container_info_fields(out: Seq<u8>, end: int, meta: TrailerMeta, n: u64, h: Seq<u8>)
    requires
        spec_orig_footer(out) == Some((n, h)),
    ensures
        ({
            let i = container_info(out, end, meta);
            &&& i.kind == Kind::JpegContainer
            &&& i.encoded
            &&& i.preview_bytes == end as u32
            &&& i.width == meta.width
            &&& i.height == meta.height
            &&& i.orig_bytes == Some(n)
            &&& i.orig_sha1 == Some(h)
            &&& spec_jpeg_exif_orientation(out.subrange(0, end)) matches Some(o) ==> i.orientation == o
        }),
{
}

/// An encoded ARW is an encoded container: `inspect` sees a JPEG container
/// whose preview ends where its JPEG ends, with the ARW's raw size, its size
/// and SHA-1 from the footer, and (when the camera JPEG had no view APP1 yet)
/// the orientation that encoding wrote into the view APP1; and encoding it
/// again is refused.
pub proof fn lemma_encoded_is_a_container(arw: Seq<u8>, level: i32, out: Seq<u8>)
    requires
        arw.len() <= usize::MAX,
        out.len() <= usize::MAX,
        encode_outcome(arw, level, Ok(out)),
    ensures
        spec_jpeg_end(out) is Ok,
        spec_inspect(out) matches Ok(i) && {
            &&& i.kind == Kind::JpegContainer
            &&& i.encoded
            &&& i.preview_bytes == (spec_jpeg_end(out)->Ok_0) as u32
            &&& i.width == spec_parse_layout(arw)->Ok_0.0.width
            &&& i.height == spec_parse_layout(arw)->Ok_0.0.height
            &&& i.orig_bytes == Some(arw.len() as u64)
            &&& i.orig_sha1 == Some(sha1_digest(arw))
            &&& !camera_jpeg_has_view_app1(arw) ==> i.orientation == clamp_orientation(encoded_orientation(arw))
            &&& camera_jpeg_has_view_app1(arw) ==> (spec_jpeg_exif_orientation(encoded_camera_jpeg(arw)) matches Some(
                o,
            ) ==> i.orientation == o)
        },
        spec_is_encoded(out),
        spec_encode_parts(out) == Err::<(Seq<u8>, Seq<u8>), Error>(Error::Format("already encoded")),
{
    let (end, meta) = lemma_container_parts(arw, level, out);
    lemma_inspect_container(out, end, meta);
    lemma_container_info_fields(out, end, meta, arw.len() as u64, sha1_digest(arw));
    assert(spec_encode_parts(out) == Err::<(Seq<u8>, Seq<u8>), Error>(Error::Format("already encoded"))) by {
        reveal(spec_encode_layout);
    }
}

/// The parts of an encoded ARW that `inspect` reads: where its JPEG ends,
/// its trailer header, its footer.
proof fn lemma_container_parts(arw: Seq<u8>, level: i32, out: Seq<u8>) -> (r: (int, TrailerMeta))
    requires
        arw.len() <= usize::MAX,
        out.len() <= usize::MAX,
        encode_outcome(arw, level, Ok(out)),
    ensures
        ({
            let (end, meta) = r;
            &&& spec_jpeg_end(out) == Ok::<int, Error>(end)
            &&& out.subrange(end, out.len() as int).len() >= 4
            &&& out.subrange(end, out.len() as int).subrange(0, 4) == crate::codec::MAGIC@
            &&& spec_trailer_meta(out.subrange(end, out.len() as int)) == Ok::<TrailerMeta, Error>(meta)
            &&& spec_orig_footer(out) == Some((arw.len() as u64, sha1_digest(arw)))
            &&& meta.width == spec_parse_layout(arw)->Ok_0.0.width
            &&& meta.height == spec_parse_layout(arw)->Ok_0.0.height
            &&& !camera_jpeg_has_view_app1(arw) ==> spec_jpeg_exif_orientation(out.subrange(0, end))
                == Some(clamp_orientation(encoded_orientation(arw)))
            &&& camera_jpeg_has_view_app1(arw) ==> out.subrange(0, end) == encoded_camera_jpeg(arw)
        }),
{
    let (head, shuffled) = spec_encode_parts(arw)->Ok_0;
    let z = strip_frame(shuffled, level);
    let (view, meta, elided, padding, raw) = lemma_encoded_layout(arw);
    let tb = spec_trailer_bytes(meta);
    let n = arw.len() as u64;
    let h = sha1_digest(arw);
    let f = spec_footer_bytes(n, h);
    let tail = tb + elided + padding + z + f;
    assert(out =~= view + tail);
    assert(spec_jpeg_end(view + tail) == Ok::<int, Error>(view.len() as int));
    let end = view.len() as int;
    crate::jpeg::lemma_jpeg_end_bounds(out);
    assert(out.subrange(end, out.len() as int) =~= tb + (elided + padding + z + f));
    lemma_trailer_roundtrip(meta, elided + padding + z + f);
    assert(out.subrange(end, out.len() as int).subrange(0, 4) == crate::codec::MAGIC@) by {
        reveal(spec_trailer_meta);
    }
    assert(out =~= (view + tb + elided + padding + z) + f);
    lemma_footer_roundtrip(view + tb + elided + padding + z, n, h);
    assert(out.subrange(0, end) =~= view);
    (end, meta)
}

/// What an encoded ARW shows first, for an ARW whose camera JPEG has no
/// view APP1 yet: a JPEG longer than the camera JPEG, which strips back to
/// the camera JPEG and carries the orientation `encode` wrote, forced into
/// 1..=8.
pub proof fn lemma_encoded_view(arw: Seq<u8>, level: i32, out: Seq<u8>)
    requires
        arw.len() <= usize::MAX,
        out.len() <= usize::MAX,
        encode_outcome(arw, level, Ok(out)),
        !camera_jpeg_has_view_app1(arw),
    ensures
        spec_jpeg_end(out) is Ok,
        ({
            let e = spec_jpeg_end(out)->Ok_0;
            &&& e > encoded_camera_jpeg(arw).len()
            &&& spec_strip_view_exif(out.subrange(0, e)) == encoded_camera_jpeg(arw)
            &&& spec_jpeg_exif_orientation(out.subrange(0, e)) == Some(clamp_orientation(encoded_orientation(arw)))
        }),
{
    let (head, shuffled) = spec_encode_parts(arw)->Ok_0;
    let z = strip_frame(shuffled, level);
    let (view, jpeg, meta, elided, padding, raw) = lemma_encoded_head(arw);
    let tail = spec_trailer_bytes(meta) + elided + padding + z + arw_footer(arw);
    assert(out =~= view + tail);
    assert(spec_jpeg_end(view + tail) == Ok::<int, Error>(view.len() as int));
    assert(out.subrange(0, view.len() as int) =~= view);
    lemma_encoded_view_facts(arw);
}

/// The view JPEG `encode` writes is longer than the camera JPEG and carries
/// the orientation it was given.
proof fn lemma_encoded_view_facts(arw: Seq<u8>)
    requires
        spec_encode_parts(arw) is Ok,
        !camera_jpeg_has_view_app1(arw),
    ensures
        encoded_view(arw).len() > encoded_camera_jpeg(arw).len(),
        spec_jpeg_exif_orientation(encoded_view(arw)) == Some(clamp_orientation(encoded_orientation(arw))),
{
    reveal(spec_encode_layout);
    reveal(spec_encode_preview);
    reveal(spec_encode_head);
    let (raw, jpegs) = spec_encode_layout(arw)->Ok_0;
    let (off, len, full, eoi) = spec_encode_preview(arw)->Ok_0;
    crate::jpeg::lemma_jpeg_end_bounds(full);
    let jpeg = full.subrange(0, eoi);
    let ori = spec_preview_orientation(jpeg, arw);
    let thumb = spec_view_thumb(jpeg, arw, jpegs, off, len);
    let a = crate::jpeg::spec_view_app1(ori, thumb);
    crate::jpeg::lemma_view_app1_shape(ori, thumb);
    assert(jpeg.subrange(2, eoi as int) =~= full.subrange(2, eoi));
    assert(crate::jpeg::spec_attach_view_exif(jpeg, ori, thumb)->Ok_0 == encoded_view(arw)) by {
        reveal(encoded_view);
    }
    crate::jpeg::lemma_attach_sets_orientation(jpeg, ori, thumb);
}

/// `inspect` reports the same orientation for an encoded ARW as for the ARW
/// itself: for every ARW whose camera JPEG has no view APP1 yet, and for
/// every ARW whose camera JPEG already has one and carries an EXIF
/// orientation.
pub proof fn lemma_encoded_keeps_orientation(arw: Seq<u8>, level: i32, out: Seq<u8>)
    requires
        arw.len() <= usize::MAX,
        out.len() <= usize::MAX,
        encode_outcome(arw, level, Ok(out)),
        !camera_jpeg_has_view_app1(arw) || spec_jpeg_exif_orientation(encoded_camera_jpeg(arw)) is Some,
    ensures
        spec_inspect(out) is Ok,
        spec_inspect(arw) is Ok,
        spec_inspect(out)->Ok_0.orientation == spec_inspect(arw)->Ok_0.orientation,
{
    lemma_encoded_is_a_container(arw, level, out);
    lemma_arw_orientation(arw);
}

/// `inspect` of an ARW that encodes reports the orientation `encode` writes.
proof fn lemma_arw_orientation(arw: Seq<u8>)
    requires
        spec_encode_parts(arw) is Ok,
    ensures
        spec_inspect(arw) is Ok,
        spec_inspect(arw)->Ok_0.orientation == clamp_orientation(encoded_orientation(arw)),
        1 <= encoded_orientation(arw) <= 8,
{
    reveal(spec_encode_layout);
    reveal(spec_encode_preview);
    reveal(spec_inspect);
    let (raw, jpegs) = spec_encode_layout(arw)->Ok_0;
    let (off, len, full, eoi) = spec_encode_preview(arw)->Ok_0;
    assert(spec_parse_layout(arw) is Ok);
    assert(!starts_jpeg(arw));
    assert(spec_inspect(arw) == Ok::<InfoSpec, Error>(crate::codec::arw_info(arw, raw)));
    crate::jpeg::lemma_orientation_ignores_what_follows(full);
    let o = spec_preview_orientation(full.subrange(0, eoi), arw);
    assert(o == spec_preview_orientation(full, arw));
    crate::tiff::lemma_ifd0_orientation_range(arw);
    let ex = spec_jpeg_exif_orientation(full);
    if ex is Some {
        let w = crate::jpeg::exif_walk(full, 2, crate::jpeg::has_orientation(full));
        let (k, l) = w->Some_0;
        crate::tiff::lemma_ifd0_orientation_range(full.subrange(k + 8, k + l));
    }
    assert(1 <= o <= 8);
}

/// `inspect` of a JPEG followed by a trailer header, an elided TIFF
/// header, padding, a payload and a footer: a container whose orientation
/// is read from the JPEG, else from the elided TIFF header.
proof fn lemma_inspect_jpeg_and_trailer(
    jpeg: Seq<u8>,
    meta: TrailerMeta,
    elided: Seq<u8>,
    padding: Seq<u8>,
    z: Seq<u8>,
    f: Seq<u8>,
)
    requires
        f.len() == 32,
        meta.header_elided_len == elided.len(),
        (jpeg + spec_trailer_bytes(meta) + elided + padding + z + f).len() <= usize::MAX,
        spec_jpeg_end(jpeg + spec_trailer_bytes(meta) + elided + padding + z + f)
            == Ok::<int, Error>(jpeg.len() as int),
    ensures
        spec_inspect(jpeg + spec_trailer_bytes(meta) + elided + padding + z + f) matches Ok(i)
            && i.orientation == spec_preview_orientation(jpeg, elided),
{
    let tb = spec_trailer_bytes(meta);
    let legacy = jpeg + tb + elided + padding + z + f;
    let end = jpeg.len() as int;
    crate::jpeg::lemma_jpeg_end_bounds(legacy);
    let rest = legacy.subrange(end, legacy.len() as int);
    assert(rest =~= tb + (elided + padding + z + f));
    lemma_trailer_roundtrip(meta, elided + padding + z + f);
    assert(rest.subrange(0, 4) == crate::codec::MAGIC@) by {
        reveal(spec_trailer_meta);
    }
    lemma_inspect_container(legacy, end, meta);
    lemma_rest_split(tb, elided, padding, z, f);
    assert(rest =~= tb + elided + padding + z + f);
    assert(legacy.subrange(0, end) =~= jpeg);
}

/// The elided TIFF header of an ARW has the ARW's IFD0 Orientation, when
/// everything the lookup reads lies before where the JPEG was cut out.
proof fn lemma_elided_ifd0_orientation(arw: Seq<u8>, elided: Seq<u8>, cut: Seq<u8>, off: int, so: int)
    requires
        0 <= so <= arw.len(),
        spec_restore_header(elided, cut, off) == Ok::<Seq<u8>, Error>(arw.subrange(0, so)),
        crate::tiff::ifd0_reads_below(arw, off),
    ensures
        crate::tiff::spec_ifd0_orientation(elided) == crate::tiff::spec_ifd0_orientation(arw),
{
    let header = arw.subrange(0, so);
    assert(header == elided.subrange(0, off) + cut + elided.subrange(off, elided.len() as int));
    assert forall|m: int| 0 <= m < off implies #[trigger] elided[m] == arw[m] by {
        assert(header[m] == elided.subrange(0, off)[m]);
    }
    crate::tiff::lemma_ifd0_orientation_of_agreeing_data(arw, elided, off);
}

/// A container whose view APP1 was stripped off again (as files encoded
/// before the view APP1 existed are) reports the ARW's orientation: the
/// camera JPEG's EXIF orientation, else the IFD0 Orientation kept in the
/// elided TIFF header of the trailer, which is the ARW's own (else 1). This
/// holds for every ARW whose camera JPEG has no view APP1 yet, and either
/// carries an EXIF orientation or has its IFD0 Orientation (as Sony writes
/// it) before the camera JPEG.
#[verifier::rlimit(40)]
pub proof fn lemma_legacy_container_keeps_orientation(arw: Seq<u8>, level: i32, out: Seq<u8>)
    requires
        arw.len() <= usize::MAX,
        out.len() <= usize::MAX,
        encode_outcome(arw, level, Ok(out)),
        !camera_jpeg_has_view_app1(arw),
        spec_jpeg_exif_orientation(encoded_camera_jpeg(arw)) is Some
            || crate::tiff::ifd0_reads_below(arw, camera_jpeg_offset(arw)),
    ensures
        spec_jpeg_end(out) is Ok,
        ({
            let e = spec_jpeg_end(out)->Ok_0;
            let legacy = spec_strip_view_exif(out.subrange(0, e)) + out.subrange(e, out.len() as int);
            &&& spec_inspect(legacy) is Ok
            &&& spec_inspect(arw) is Ok
            &&& spec_inspect(legacy)->Ok_0.orientation == spec_inspect(arw)->Ok_0.orientation
        }),
{
    let (head, shuffled) = spec_encode_parts(arw)->Ok_0;
    let z = strip_frame(shuffled, level);
    let (view, jpeg, meta, elided, padding, raw) = lemma_encoded_head(arw);
    let tb = spec_trailer_bytes(meta);
    let f = arw_footer(arw);
    lemma_footer_roundtrip(Seq::empty(), arw.len() as u64, sha1_digest(arw));
    let tail = tb + elided + padding + z + f;
    assert(out =~= view + tail);
    assert(spec_jpeg_end(view + tail) == Ok::<int, Error>(view.len() as int));
    lemma_legacy_shape(out, view, tail, jpeg);
    let legacy = jpeg + tail;
    assert(legacy =~= jpeg + tb + elided + padding + z + f);
    assert(spec_jpeg_end(jpeg + tail) == Ok::<int, Error>(jpeg.len() as int));
    lemma_inspect_jpeg_and_trailer(jpeg, meta, elided, padding, z, f);
    lemma_arw_orientation(arw);
    if spec_jpeg_exif_orientation(jpeg) is None {
        lemma_elided_ifd0_orientation(arw, elided, jpeg + padding, meta.jpeg_tiff_offset as int, raw.strip_offset as int);
        crate::tiff::lemma_ifd0_orientation_range(arw);
    }
}

} // verus!
