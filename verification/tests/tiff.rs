use compress_arw::tiff::ifd0_orientation;
use compress_arw::{parse_layout, Error};

#[test]
fn rejects_short_and_big_endian() {
    assert!(matches!(parse_layout(&[]), Err(Error::Truncated)));
    assert!(matches!(parse_layout(b"MMMMMMMM"), Err(Error::Unsupported(_))));
}

#[test]
fn rejects_non_tiff_magic() {
    let mut d = b"II\x00\x00\x08\x00\x00\x00".to_vec();
    d.extend_from_slice(&[0; 32]);
    assert!(matches!(parse_layout(&d), Err(Error::Format(_))));
}

#[test]
fn reads_ifd0_orientation_le_and_be() {
    let mut le = b"II*\x00\x08\x00\x00\x00".to_vec();
    le.extend_from_slice(&1u16.to_le_bytes());
    le.extend_from_slice(&274u16.to_le_bytes());
    le.extend_from_slice(&3u16.to_le_bytes());
    le.extend_from_slice(&1u32.to_le_bytes());
    le.extend_from_slice(&8u32.to_le_bytes());
    le.extend_from_slice(&0u32.to_le_bytes());
    assert_eq!(ifd0_orientation(&le), Some(8));

    let mut be = b"MM\x00*\x00\x00\x00\x08".to_vec();
    be.extend_from_slice(&1u16.to_be_bytes());
    be.extend_from_slice(&274u16.to_be_bytes());
    be.extend_from_slice(&3u16.to_be_bytes());
    be.extend_from_slice(&1u32.to_be_bytes());
    be.extend_from_slice(&0x0008_0000u32.to_be_bytes());
    be.extend_from_slice(&0u32.to_be_bytes());
    assert_eq!(ifd0_orientation(&be), Some(8));
    assert_eq!(ifd0_orientation(&[]), None);
}

#[test]
fn layout_without_raw_ifd_is_a_format_error() {
    // A little-endian TIFF whose only IFD has no entries.
    let mut d = b"II*\x00\x08\x00\x00\x00".to_vec();
    d.extend_from_slice(&0u16.to_le_bytes());
    d.extend_from_slice(&0u32.to_le_bytes());
    assert!(matches!(parse_layout(&d), Err(Error::Format(_))));
}
