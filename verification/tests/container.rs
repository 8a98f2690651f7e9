//! Encoding, decoding, inspecting and previewing synthetic Sony-like ARW files.

#![allow(dead_code)]

use sha1::{Digest, Sha1};
use compress_arw::{
    decode, decode_checked, encode, encode_with_level, encode_with_progress, extract_preview, inspect,
    is_encoded, jpeg_end, parse_layout, Error, Kind, FOOTER_LEN, FOOTER_MAGIC, MAGIC,
};

// ---------------------------------------------------------------------------
// A runtime generator of uncompressed 14-bit ARW files. No real photos.

#[derive(Clone, Copy)]
pub enum Pixels {
    Constant(u16),
    Gradient,
    Wrap,
    Lcg(u32),
}

#[derive(Clone)]
pub struct JpegSpec {
    pub app1: Vec<u8>,
    pub entropy: Vec<u8>,
    pub padding: usize,
}

impl JpegSpec {
    pub fn tiny() -> Self {
        Self {
            app1: Vec::new(),
            entropy: vec![0x11, 0x22],
            padding: 0,
        }
    }

    pub fn with_exif(tag: &[u8]) -> Self {
        let mut app1 = b"Exif\x00\x00".to_vec();
        app1.extend_from_slice(tag);
        Self {
            app1,
            entropy: vec![0x10, 0xff, 0x20], // 0xff will be stuffed
            padding: 0,
        }
    }
}

pub struct Spec {
    pub width: u16,
    pub height: u16,
    pub pixels: Pixels,
    pub preview: JpegSpec,
    pub thumb: Option<JpegSpec>,
    pub make: Option<&'static str>,
    pub orientation: u16,
}

impl Spec {
    pub fn new(width: u16, height: u16) -> Self {
        Self {
            width,
            height,
            pixels: Pixels::Gradient,
            preview: JpegSpec::with_exif(b"SONY-ILCE-TEST"),
            thumb: None,
            make: Some("SONY"),
            orientation: 1,
        }
    }
}

pub fn build_jpeg(spec: &JpegSpec) -> Vec<u8> {
    let mut j = vec![0xff, 0xd8];
    if !spec.app1.is_empty() {
        let len = spec.app1.len() + 2;
        j.extend_from_slice(&[0xff, 0xe1]);
        j.extend_from_slice(&(len as u16).to_be_bytes());
        j.extend_from_slice(&spec.app1);
    }
    j.extend_from_slice(&[0xff, 0xda, 0x00, 0x02]);
    for &b in &spec.entropy {
        j.push(b);
        if b == 0xff {
            j.push(0x00);
        }
    }
    j.extend_from_slice(&[0xff, 0xd9]);
    j.extend(std::iter::repeat(0xaa).take(spec.padding));
    j
}

fn put_u16(buf: &mut Vec<u8>, v: u16) {
    buf.extend_from_slice(&v.to_le_bytes());
}
fn put_u32(buf: &mut Vec<u8>, v: u32) {
    buf.extend_from_slice(&v.to_le_bytes());
}
fn entry(buf: &mut Vec<u8>, tag: u16, typ: u16, count: u32, val: u32) {
    put_u16(buf, tag);
    put_u16(buf, typ);
    put_u32(buf, count);
    put_u32(buf, val);
}

fn fill_pixels(spec: &Spec) -> Vec<u16> {
    let n = spec.width as usize * spec.height as usize;
    (0..n)
        .map(|i| {
            let x = (i % spec.width as usize) as u16;
            let y = (i / spec.width as usize) as u16;
            match spec.pixels {
                Pixels::Constant(v) => v & 0x3fff,
                Pixels::Gradient => (x.wrapping_mul(13).wrapping_add(y.wrapping_mul(7))) & 0x3fff,
                Pixels::Wrap => {
                    if i % 3 == 0 {
                        0
                    } else if i % 3 == 1 {
                        0xffff
                    } else {
                        0x3fff
                    }
                }
                Pixels::Lcg(seed) => {
                    let mut s = seed.wrapping_add(i as u32).wrapping_mul(1664525).wrapping_add(1013904223);
                    s ^= s << 13;
                    (s as u16) & 0x3fff
                }
            }
        })
        .collect()
}

/// Uncompressed 14-bit CFA ARW: IFD0 JPEG preview, optional IFD1 thumb, SubIFD strip at EOF.
pub fn build_arw(spec: Spec) -> Vec<u8> {
    let preview = build_jpeg(&spec.preview);
    let thumb = spec.thumb.as_ref().map(build_jpeg);
    let pixels = fill_pixels(&spec);
    let strip_bytes = (pixels.len() * 2) as u32;

    let make = spec.make.map(|s| {
        let mut b = s.as_bytes().to_vec();
        b.push(0);
        b
    });

    let ifd0_n = 6u16 + u16::from(make.is_some());
    let ifd0_size = 2 + ifd0_n as usize * 12 + 4;
    let ifd1_n = 4u16;
    let ifd1_size = if thumb.is_some() {
        2 + ifd1_n as usize * 12 + 4
    } else {
        0
    };
    let sub_n = 7u16;
    let sub_size = 2 + sub_n as usize * 12 + 4;

    let mut off = 8usize;
    let ifd0_off = off;
    off += ifd0_size;
    let ifd1_off = off;
    off += ifd1_size;
    let make_off = off;
    off += make.as_ref().map(|m| m.len()).unwrap_or(0);
    let jpeg_off = off;
    off += preview.len();
    let thumb_off = off;
    off += thumb.as_ref().map(|t| t.len()).unwrap_or(0);
    let sub_off = off;
    off += sub_size;
    let strip_off = off;

    let mut buf = Vec::with_capacity(strip_off + strip_bytes as usize);
    buf.extend_from_slice(b"II");
    put_u16(&mut buf, 42);
    put_u32(&mut buf, ifd0_off as u32);

    put_u16(&mut buf, ifd0_n);
    entry(&mut buf, 254, 4, 1, 1);
    entry(&mut buf, 259, 3, 1, 6);
    if let Some(m) = &make {
        entry(&mut buf, 271, 2, m.len() as u32, make_off as u32);
    }
    entry(&mut buf, 274, 3, 1, spec.orientation as u32);
    entry(&mut buf, 330, 4, 1, sub_off as u32);
    entry(&mut buf, 513, 4, 1, jpeg_off as u32);
    entry(&mut buf, 514, 4, 1, preview.len() as u32);
    put_u32(
        &mut buf,
        if thumb.is_some() { ifd1_off as u32 } else { 0 },
    );

    if let Some(t) = &thumb {
        put_u16(&mut buf, ifd1_n);
        entry(&mut buf, 254, 4, 1, 1);
        entry(&mut buf, 259, 3, 1, 6);
        entry(&mut buf, 513, 4, 1, thumb_off as u32);
        entry(&mut buf, 514, 4, 1, t.len() as u32);
        put_u32(&mut buf, 0);
    }

    if let Some(m) = &make {
        buf.extend_from_slice(m);
    }
    assert_eq!(buf.len(), jpeg_off);
    buf.extend_from_slice(&preview);
    if let Some(t) = &thumb {
        assert_eq!(buf.len(), thumb_off);
        buf.extend_from_slice(t);
    }
    assert_eq!(buf.len(), sub_off);
    put_u16(&mut buf, sub_n);
    entry(&mut buf, 254, 4, 1, 0);
    entry(&mut buf, 256, 3, 1, spec.width as u32);
    entry(&mut buf, 257, 3, 1, spec.height as u32);
    entry(&mut buf, 258, 3, 1, 14);
    entry(&mut buf, 259, 3, 1, 1);
    entry(&mut buf, 273, 4, 1, strip_off as u32);
    entry(&mut buf, 279, 4, 1, strip_bytes);
    put_u32(&mut buf, 0);

    assert_eq!(buf.len(), strip_off);
    for p in pixels {
        put_u16(&mut buf, p);
    }
    buf
}

pub fn default_arw() -> Vec<u8> {
    build_arw(Spec::new(16, 8))
}

// ---------------------------------------------------------------------------
// Errors.

#[test]
fn empty_and_truncated() {
    assert!(matches!(
        inspect(&[]),
        Err(Error::Truncated) | Err(Error::Format(_))
    ));
    assert!(encode(&[0xff, 0xd8]).is_err());
    assert!(decode(&[0xff, 0xd8, 0xff, 0xd9]).is_err());
}

#[test]
fn jpeg_without_trailer() {
    let j = [0xff, 0xd8, 0xff, 0xd9];
    assert!(matches!(inspect(&j), Err(Error::Format(_))));
    assert!(!compress_arw::is_encoded(&j));
}

#[test]
fn already_encoded_refused() {
    let enc = encode(&default_arw()).unwrap();
    assert!(matches!(encode(&enc), Err(Error::Format(_))));
}

#[test]
fn non_uncompressed_strip_refused() {
    let mut arw = default_arw();
    let layout = compress_arw::parse_layout(&arw).unwrap();
    let at = layout.raw.compression_value_at;
    arw[at] = 7;
    arw[at + 1] = 0;
    assert!(matches!(
        encode(&arw),
        Err(Error::Unsupported("raw strip is not uncompressed"))
    ));
}

#[test]
fn twelve_bit_refused() {
    let mut arw = default_arw();
    let off = find_bits_per_sample(&arw);
    arw[off] = 12;
    arw[off + 1] = 0;
    assert!(matches!(
        encode(&arw),
        Err(Error::Unsupported("expected 14-bit raw"))
    ));
}

fn find_bits_per_sample(arw: &[u8]) -> usize {
    // TIFF entry: tag 258 (0x02 0x01), type SHORT (0x03 0x00), count 1, value 14.
    for i in 0..arw.len().saturating_sub(12) {
        if arw[i] == 0x02
            && arw[i + 1] == 0x01
            && arw[i + 2] == 0x03
            && arw[i + 3] == 0x00
            && arw[i + 8] == 14
            && arw[i + 9] == 0
        {
            return i + 8;
        }
    }
    panic!("bits entry not found");
}

#[test]
fn strip_not_at_eof_refused() {
    let mut arw = default_arw();
    arw.push(0xff);
    assert!(matches!(encode(&arw), Err(Error::Unsupported(_))));
}

#[test]
fn truncated_container() {
    let enc = encode_with_level(&default_arw(), 3).unwrap();
    assert!(decode(&enc[..enc.len() / 2]).is_err());
    assert!(extract_preview(&enc[..3]).is_err());
}

#[test]
fn corrupt_zstd_payload() {
    let mut enc = encode_with_level(&default_arw(), 3).unwrap();
    let last = enc.len() - compress_arw::FOOTER_LEN - 1;
    enc[last] ^= 0xff;
    assert!(matches!(
        decode(&enc),
        Err(Error::Zstd(_)) | Err(Error::Format(_))
    ));
}

#[test]
fn tampered_sha1_is_rejected() {
    let mut enc = encode_with_level(&default_arw(), 3).unwrap();
    let sha1_byte = enc.len() - compress_arw::FOOTER_LEN + 8;
    enc[sha1_byte] ^= 0xff;
    assert!(matches!(
        decode(&enc),
        Err(Error::Integrity("SHA-1 mismatch"))
    ));
}

#[test]
fn tampered_orig_size_is_rejected() {
    let mut enc = encode_with_level(&default_arw(), 3).unwrap();
    let size_byte = enc.len() - compress_arw::FOOTER_LEN;
    enc[size_byte] ^= 0x01;
    assert!(matches!(
        decode(&enc),
        Err(Error::Integrity("uncompressed size mismatch"))
    ));
}

#[test]
fn big_endian_tiff_refused() {
    let mut t = b"MM\x00\x2a\x00\x00\x00\x08".to_vec();
    t.resize(64, 0);
    assert!(encode(&t).is_err());
}

// ---------------------------------------------------------------------------
// Layout.

#[test]
fn layout_finds_raw_and_preview() {
    let arw = default_arw();
    let layout = parse_layout(&arw).unwrap();
    assert_eq!(layout.raw.width, 16);
    assert_eq!(layout.raw.height, 8);
    assert_eq!(layout.raw.bits, 14);
    assert_eq!(layout.raw.compression, 1);
    assert_eq!(
        layout.raw.strip_bytes as usize,
        16 * 8 * 2
    );
    assert_eq!(
        layout.raw.strip_offset as usize + layout.raw.strip_bytes as usize,
        arw.len()
    );
    assert_eq!(layout.jpegs.len(), 1);
    let j = &layout.jpegs[0];
    assert_eq!(&arw[j.offset as usize..j.offset as usize + 2], &[0xff, 0xd8]);
}

#[test]
fn layout_finds_both_jpegs() {
    let mut spec = Spec::new(8, 4);
    spec.thumb = Some(JpegSpec::tiny());
    let arw = build_arw(spec);
    let layout = parse_layout(&arw).unwrap();
    assert_eq!(layout.jpegs.len(), 2);
    assert!(layout.jpegs[0].length != layout.jpegs[1].length);
}

#[test]
fn prefix_without_strip_still_parses_ifds() {
    let arw = default_arw();
    let layout = parse_layout(&arw).unwrap();
    let header = &arw[..layout.raw.strip_offset as usize];
    let from_header = parse_layout(header).unwrap();
    assert_eq!(from_header.raw.width, layout.raw.width);
    assert_eq!(from_header.jpegs.len(), layout.jpegs.len());
}

// ---------------------------------------------------------------------------
// Preview.

#[test]
fn preview_from_arw_is_largest_jpeg() {
    let mut spec = Spec::new(8, 4);
    spec.preview = JpegSpec::with_exif(b"BIG-PREVIEW");
    spec.thumb = Some(JpegSpec {
        app1: b"Exif\x00\x00SMOL".to_vec(),
        entropy: vec![0x01],
        padding: 0,
    });
    let arw = build_arw(spec);
    let prev = extract_preview(&arw).unwrap();
    assert!(prev.windows(11).any(|w| w == b"BIG-PREVIEW"));
    assert!(!prev.windows(4).any(|w| w == b"SMOL"));
}

#[test]
fn preview_from_container_does_not_need_trailer() {
    let arw = default_arw();
    let enc = encode_with_level(&arw, 3).unwrap();
    let eoi = jpeg_end(&enc).unwrap();
    let from_full = extract_preview(&enc).unwrap();
    let from_prefix = extract_preview(&enc[..eoi]).unwrap();
    assert_eq!(from_full, from_prefix);
    assert_eq!(from_full[0], 0xff);
    assert_eq!(*from_full.last().unwrap(), 0xd9);
    assert_eq!(inspect(&enc).unwrap().preview_bytes as usize, eoi);
}

#[test]
fn preview_bytes_is_enough_for_range_fetch() {
    let arw = default_arw();
    let enc = encode_with_level(&arw, 3).unwrap();
    let n = inspect(&enc).unwrap().preview_bytes as usize;
    assert!(n < enc.len(), "raw trailer must sit after the JPEG");
    let jpeg = extract_preview(&enc[..n]).unwrap();
    assert_eq!(jpeg.len(), n);
}

#[test]
fn generated_jpeg_scan_matches_builder() {
    let spec = JpegSpec::with_exif(b"HELLO");
    let j = build_jpeg(&spec);
    assert_eq!(jpeg_end(&j).unwrap(), j.len() - spec.padding);
}

#[test]
fn inspect_raw_arw_is_not_encoded() {
    let info = inspect(&default_arw()).unwrap();
    assert!(!info.encoded);
    assert_eq!(info.width, 16);
    assert_eq!(info.height, 8);
    assert_eq!(info.orientation, 1);
}

#[test]
fn inspect_reads_tiff_orientation_and_keeps_it_after_encode() {
    let mut spec = Spec::new(8, 4);
    spec.orientation = 8;
    let arw = build_arw(spec);
    assert_eq!(inspect(&arw).unwrap().orientation, 8);
    let enc = encode_with_level(&arw, 3).unwrap();
    assert_eq!(inspect(&enc).unwrap().orientation, 8);
}

// ---------------------------------------------------------------------------
// Round trips.

fn roundtrip_ok(arw: &[u8], level: i32) {
    let enc = encode_with_level(arw, level).unwrap();
    let dec = decode(&enc).unwrap();
    assert_eq!(dec, arw, "bit-identical at zstd level {level}");
}

#[test]
fn default_synthetic_is_bit_identical() {
    roundtrip_ok(&default_arw(), 3);
}

#[test]
fn many_sizes_and_pixel_patterns() {
    let sizes = [(2, 2), (8, 4), (10, 7), (32, 16), (64, 48)];
    let patterns = [
        Pixels::Constant(0),
        Pixels::Constant(0x3fff),
        Pixels::Gradient,
        Pixels::Wrap,
        Pixels::Lcg(1),
        Pixels::Lcg(0xC0FFEE),
    ];
    for (w, h) in sizes {
        for pixels in patterns {
            let mut spec = Spec::new(w, h);
            spec.pixels = pixels;
            let arw = build_arw(spec);
            roundtrip_ok(&arw, 1);
        }
    }
}

#[test]
fn zstd_levels_decode_the_same() {
    let arw = default_arw();
    let a = encode_with_level(&arw, 1).unwrap();
    let b = encode_with_level(&arw, 3).unwrap();
    let c = encode_with_level(&arw, 9).unwrap();
    assert_eq!(decode(&a).unwrap(), arw);
    assert_eq!(decode(&b).unwrap(), arw);
    assert_eq!(decode(&c).unwrap(), arw);
    assert_eq!(decode(&encode(&arw).unwrap()).unwrap(), arw);
}

#[test]
fn is_encoded_tracks_container() {
    let arw = default_arw();
    assert!(!compress_arw::is_encoded(&arw));
    let enc = encode_with_level(&arw, 3).unwrap();
    assert!(compress_arw::is_encoded(&enc));
}

#[test]
fn output_is_jpeg_with_trailer() {
    let enc = encode(&default_arw()).unwrap();
    assert_eq!(&enc[..2], &[0xff, 0xd8]);
    let eoi = jpeg_end(&enc).unwrap();
    assert!(eoi < enc.len());
    assert_eq!(&enc[eoi..eoi + 4], MAGIC);
    assert_eq!(&enc[enc.len() - 4..], FOOTER_MAGIC);
    let info = inspect(&enc).unwrap();
    assert_eq!(info.kind, Kind::JpegContainer);
    assert!(info.encoded);
    assert_eq!(info.preview_bytes, eoi as u32);
    assert_eq!(info.orig_bytes, Some(default_arw().len() as u64));
    assert!(info.orig_sha1.is_some());
}

#[test]
fn jpeg_padding_after_eoi_is_restored() {
    let mut spec = Spec::new(12, 6);
    spec.preview.padding = 17;
    let arw = build_arw(spec);
    roundtrip_ok(&arw, 3);
    let enc = encode_with_level(&arw, 3).unwrap();
    let preview = extract_preview(&enc).unwrap();
    assert_eq!(
        preview.last(),
        Some(&0xd9),
        "padding must not leak into the viewable JPEG"
    );
}

#[test]
fn thumbnail_ifd_survives_roundtrip() {
    let mut spec = Spec::new(8, 8);
    spec.thumb = Some(JpegSpec {
        app1: b"Exif\x00\x00THUMB".to_vec(),
        entropy: vec![0x33],
        padding: 0,
    });
    let arw = build_arw(spec);
    assert_eq!(compress_arw::parse_layout(&arw).unwrap().jpegs.len(), 2);
    roundtrip_ok(&arw, 3);
}

#[test]
fn make_ascii_and_exif_survive() {
    let arw = default_arw();
    assert!(arw.windows(4).any(|w| w == b"SONY"));
    let enc = encode_with_level(&arw, 3).unwrap();
    let prev = extract_preview(&enc).unwrap();
    assert!(prev.windows(4).any(|w| w == b"Exif"));
    assert!(prev.windows(14).any(|w| w == b"SONY-ILCE-TEST"));
    let dec = decode(&enc).unwrap();
    assert!(dec.windows(4).any(|w| w == b"SONY"));
}

#[test]
fn view_exif_carries_tiff_orientation_and_strips_on_decode() {
    let mut spec = Spec::new(8, 4);
    spec.orientation = 6;
    spec.thumb = Some(JpegSpec {
        app1: b"Exif\x00\x00THUMB".to_vec(),
        entropy: vec![0x33],
        padding: 0,
    });
    let arw = build_arw(spec);
    assert_eq!(inspect(&arw).unwrap().orientation, 6);
    let enc = encode_with_level(&arw, 3).unwrap();
    let prev = extract_preview(&enc).unwrap();
    assert_eq!(compress_arw::jpeg_exif_orientation(prev), Some(6));
    assert_eq!(
        compress_arw::jpeg_exif_orientation(&enc[..512]),
        Some(6),
        "orientation must sit in the first 512 bytes"
    );
    let thumb = compress_arw::jpeg_exif_thumbnail(prev).expect("copied TIFF IFD1 JPEG");
    assert_eq!(&thumb[..2], &[0xff, 0xd8]);
    assert!(thumb.windows(5).any(|w| w == b"THUMB"));
    assert_eq!(inspect(&enc).unwrap().orientation, 6);
    roundtrip_ok(&arw, 3);
}

#[test]
fn view_exif_orientation_fits_in_the_first_64_bytes_without_a_thumb() {
    let mut spec = Spec::new(8, 4);
    spec.orientation = 8;
    let arw = build_arw(spec);
    let enc = encode_with_level(&arw, 3).unwrap();
    assert_eq!(compress_arw::jpeg_exif_orientation(&enc[..64]), Some(8));
    roundtrip_ok(&arw, 3);
}

#[test]
fn encode_progress_reaches_100() {
    let arw = default_arw();
    let mut seen = Vec::new();
    let enc = encode_with_progress(&arw, 3, |pct| seen.push(pct)).unwrap();
    assert_eq!(decode(&enc).unwrap(), arw);
    assert!(!seen.is_empty());
    assert_eq!(*seen.last().unwrap(), 100);
    assert!(seen.windows(2).all(|w| w[0] <= w[1]));
}

#[test]
fn footer_stores_orig_size_and_sha1() {
    let arw = default_arw();
    let enc = encode_with_level(&arw, 3).unwrap();
    assert_eq!(enc.len() >= FOOTER_LEN, true);
    let f = &enc[enc.len() - FOOTER_LEN..];
    assert_eq!(&f[28..32], FOOTER_MAGIC);
    assert_eq!(
        u64::from_le_bytes(f[0..8].try_into().unwrap()),
        arw.len() as u64
    );
    let mut want = [0u8; 20];
    want.copy_from_slice(&Sha1::digest(&arw));
    assert_eq!(&f[8..28], &want);
    let info = inspect(&enc).unwrap();
    assert_eq!(info.orig_bytes, Some(arw.len() as u64));
    assert_eq!(info.orig_sha1, Some(want));
    assert_eq!(info.orig_sha1_hex().unwrap().len(), 40);
}

#[test]
fn decode_still_works_without_footer() {
    let arw = default_arw();
    let enc = encode_with_level(&arw, 3).unwrap();
    let stripped = &enc[..enc.len() - FOOTER_LEN];
    assert_ne!(&stripped[stripped.len() - 4..], FOOTER_MAGIC);
    assert_eq!(decode(stripped).unwrap(), arw);
}

#[test]
fn decode_accepts_legacy_files_without_view_exif() {
    let arw = default_arw();
    let enc = encode_with_level(&arw, 3).unwrap();
    let eoi = jpeg_end(&enc).unwrap();
    let camera = compress_arw::strip_view_exif(&enc[..eoi]).unwrap();
    let mut legacy = camera;
    legacy.extend_from_slice(&enc[eoi..]);
    assert_eq!(
        compress_arw::jpeg_exif_orientation(&legacy[..eoi.min(256)]),
        None
    );
    assert_eq!(decode(&legacy).unwrap(), arw);
}

// ---------------------------------------------------------------------------
// More cases.

#[test]
fn decode_checked_agrees_with_decode() {
    let arw = default_arw();
    let enc = encode_with_level(&arw, 3).unwrap();
    assert_eq!(decode_checked(&enc), Some(Ok(arw)));
    assert_eq!(decode_checked(&[0xff, 0xd8, 0xff, 0xd9]), Some(decode(&[0xff, 0xd8, 0xff, 0xd9])));
}

#[test]
fn decode_checked_refuses_a_zero_width_trailer() {
    let arw = default_arw();
    let mut enc = encode_with_level(&arw, 3).unwrap();
    let eoi = jpeg_end(&enc).unwrap();
    // The trailer header's width field.
    enc[eoi + 8] = 0;
    enc[eoi + 9] = 0;
    assert_eq!(decode_checked(&enc), None);
}

#[test]
fn decode_checked_reports_a_bad_payload_before_the_geometry() {
    let arw = default_arw();
    let mut enc = encode_with_level(&arw, 3).unwrap();
    let eoi = jpeg_end(&enc).unwrap();
    enc[eoi + 8] = 0;
    enc[eoi + 9] = 0;
    let last = enc.len() - FOOTER_LEN - 1;
    enc[last] ^= 0xff;
    assert!(matches!(
        decode_checked(&enc),
        Some(Err(Error::Zstd(_))) | Some(Err(Error::Format(_)))
    ));
}

#[test]
fn trailer_with_wrong_version_is_unsupported() {
    let mut enc = encode_with_level(&default_arw(), 3).unwrap();
    let eoi = jpeg_end(&enc).unwrap();
    enc[eoi + 4] = 9;
    assert_eq!(decode(&enc), Err(Error::Unsupported("unknown ARWZ version")));
    assert!(matches!(inspect(&enc), Err(Error::Unsupported(_))));
}

#[test]
fn trailer_jpeg_length_must_match() {
    let mut enc = encode_with_level(&default_arw(), 3).unwrap();
    let eoi = jpeg_end(&enc).unwrap();
    enc[eoi + 16] ^= 0x01;
    assert_eq!(decode(&enc), Err(Error::Format("JPEG length does not match trailer")));
}

#[test]
fn a_jpeg_followed_by_anything_else_is_no_container() {
    let mut j = vec![0xff, 0xd8, 0xff, 0xd9];
    j.extend_from_slice(b"NOPE and more bytes");
    assert_eq!(decode(&j), Err(Error::Truncated));
    j.resize(80, 0);
    assert!(!is_encoded(&j));
    assert!(matches!(decode(&j), Err(Error::Format("missing ARWZ trailer"))));
}

#[test]
fn short_trailer_is_truncated() {
    let enc = encode_with_level(&default_arw(), 3).unwrap();
    let eoi = jpeg_end(&enc).unwrap();
    assert_eq!(decode(&enc[..eoi + 20]), Err(Error::Truncated));
}

#[test]
fn orig_sha1_hex_is_the_lower_case_digest() {
    let arw = default_arw();
    let enc = encode_with_level(&arw, 3).unwrap();
    let want: String = Sha1::digest(&arw).iter().map(|b| format!("{b:02x}")).collect();
    assert_eq!(inspect(&enc).unwrap().orig_sha1_hex(), Some(want));
    assert_eq!(inspect(&arw).unwrap().orig_sha1_hex(), None);
}

#[test]
fn inspect_reports_the_container_geometry() {
    let mut spec = Spec::new(10, 6);
    spec.orientation = 3;
    let arw = build_arw(spec);
    let enc = encode_with_level(&arw, 3).unwrap();
    let info = inspect(&enc).unwrap();
    assert_eq!(info.kind, Kind::JpegContainer);
    assert_eq!((info.width, info.height), (10, 6));
    assert_eq!(info.orientation, 3);
    let raw = inspect(&arw).unwrap();
    assert_eq!(raw.kind, Kind::SonyArw);
    assert_eq!(raw.orig_bytes, Some(arw.len() as u64));
    assert_eq!(raw.preview_bytes, parse_layout(&arw).unwrap().raw.strip_offset);
    assert!(!raw.encoded);
}

#[test]
fn the_payload_is_smaller_than_a_constant_strip() {
    let mut spec = Spec::new(64, 48);
    spec.pixels = Pixels::Constant(0x1234);
    let arw = build_arw(spec);
    let enc = encode_with_level(&arw, 3).unwrap();
    assert!(enc.len() < arw.len());
    assert_eq!(decode(&enc).unwrap(), arw);
}

#[test]
fn error_messages() {
    assert_eq!(Error::Format("not a JPEG").message(), "invalid ARW: not a JPEG");
    assert_eq!(Error::Unsupported("big-endian TIFF").message(), "unsupported ARW: big-endian TIFF");
    assert_eq!(Error::Truncated.message(), "truncated file");
    assert_eq!(Error::Zstd("bad frame".to_string()).message(), "zstd: bad frame");
    assert_eq!(Error::Integrity("SHA-1 mismatch").message(), "integrity check failed: SHA-1 mismatch");
}

#[test]
fn progress_starts_at_0_and_stays_within_100() {
    let arw = default_arw();
    let mut seen = Vec::new();
    encode_with_progress(&arw, 1, |pct| seen.push(pct)).unwrap();
    assert_eq!(seen[0], 0);
    assert!(seen.iter().all(|&p| p <= 100));
    assert!(seen.windows(2).all(|w| w[0] < w[1]));
    let mut failed = Vec::new();
    assert!(encode_with_progress(&[0u8; 3], 1, |pct| failed.push(pct)).is_err());
    assert_eq!(failed, vec![0]);
}

#[test]
fn encode_is_encode_with_level_at_the_default_level() {
    let arw = default_arw();
    assert_eq!(compress_arw::DEFAULT_LEVEL, 19);
    assert_eq!(encode(&arw).unwrap(), encode_with_level(&arw, compress_arw::DEFAULT_LEVEL).unwrap());
    let mut seen = Vec::new();
    assert_eq!(
        encode_with_progress(&arw, 5, |p| seen.push(p)).unwrap(),
        encode_with_level(&arw, 5).unwrap()
    );
    assert!(encode_with_level(&arw, 1).unwrap() != encode_with_level(&arw, 19).unwrap() || arw.len() < 64);
}

#[test]
fn out_of_range_levels_are_clamped_not_refused() {
    let arw = default_arw();
    assert_eq!(decode(&encode_with_level(&arw, 1000).unwrap()).unwrap(), arw);
    assert_eq!(decode(&encode_with_level(&arw, -1000).unwrap()).unwrap(), arw);
}
