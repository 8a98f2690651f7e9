use compress_arw::jpeg::split_jpeg_prefix;
use compress_arw::{attach_view_exif, jpeg_end, jpeg_exif_orientation, jpeg_exif_thumbnail, strip_view_exif, Error};

#[test]
fn finds_eoi() {
    let j = [0xff, 0xd8, 0xff, 0xd9];
    assert_eq!(jpeg_end(&j).unwrap(), 4);
    let extra = [0xff, 0xd8, 0xff, 0xda, 0x00, 0x02, 0xff, 0xd9, b'A', b'B'];
    assert_eq!(jpeg_end(&extra).unwrap(), 8);
    assert_eq!(jpeg_end(&[0xff, 0xd8, 0xff, 0xd9]).unwrap(), 4);
}

#[test]
fn app1_then_sos() {
    let mut j = vec![0xff, 0xd8, 0xff, 0xe1, 0x00, 0x06, b'E', b'x', b'i', b'f'];
    j.extend_from_slice(&[0xff, 0xda, 0x00, 0x02, 0xff, 0xd9]);
    assert_eq!(jpeg_end(&j).unwrap(), j.len());
}

#[test]
fn stuffed_ff_in_entropy_is_not_eoi() {
    let j = [
        0xff, 0xd8, 0xff, 0xda, 0x00, 0x02, 0x11, 0xff, 0x00, 0x22, 0xff, 0xd9,
    ];
    assert_eq!(jpeg_end(&j).unwrap(), j.len());
}

#[test]
fn restart_markers_in_scan() {
    let j = [
        0xff, 0xd8, 0xff, 0xda, 0x00, 0x02, 0xff, 0xd0, 0xaa, 0xff, 0xd9,
    ];
    assert_eq!(jpeg_end(&j).unwrap(), j.len());
}

#[test]
fn extra_after_eoi_ignored() {
    let j = [0xff, 0xd8, 0xff, 0xd9, b'A', b'R', b'W', b'Z'];
    assert_eq!(jpeg_end(&j).unwrap(), 4);
    let (pre, rest) = split_jpeg_prefix(&j).unwrap();
    assert_eq!(pre, &j[..4]);
    assert_eq!(rest, b"ARWZ");
}

#[test]
fn truncated_and_not_jpeg() {
    assert!(jpeg_end(&[]).is_err());
    assert!(jpeg_end(&[0xff]).is_err());
    assert!(jpeg_end(&[0x00, 0xd8, 0xff, 0xd9]).is_err());
    assert!(jpeg_end(&[0xff, 0xd8, 0xff, 0xda, 0x00, 0x02]).is_err());
}

#[test]
fn reads_app1_exif_orientation() {
    let mut tiff = b"II*\x00\x08\x00\x00\x00".to_vec();
    tiff.extend_from_slice(&1u16.to_le_bytes());
    tiff.extend_from_slice(&274u16.to_le_bytes());
    tiff.extend_from_slice(&3u16.to_le_bytes());
    tiff.extend_from_slice(&1u32.to_le_bytes());
    tiff.extend_from_slice(&6u32.to_le_bytes());
    tiff.extend_from_slice(&0u32.to_le_bytes());
    let mut app1 = b"Exif\x00\x00".to_vec();
    app1.extend_from_slice(&tiff);
    let mut j = vec![0xff, 0xd8, 0xff, 0xe1];
    j.extend_from_slice(&((app1.len() + 2) as u16).to_be_bytes());
    j.extend_from_slice(&app1);
    j.extend_from_slice(&[0xff, 0xda, 0x00, 0x02, 0xff, 0xd9]);
    assert_eq!(jpeg_exif_orientation(&j), Some(6));
    assert_eq!(jpeg_exif_orientation(&[0xff, 0xd8, 0xff, 0xd9]), None);
}

#[test]
fn view_exif_is_stripped_back_to_the_camera_jpeg() {
    let camera = [0xff, 0xd8, 0xff, 0xda, 0x00, 0x02, 0xff, 0xd9];
    let thumb = [0xff, 0xd8, 0xff, 0xd9];
    let view = attach_view_exif(&camera, 6, Some(&thumb)).unwrap();
    assert_eq!(jpeg_exif_orientation(&view), Some(6));
    assert_eq!(jpeg_exif_thumbnail(&view), Some(thumb.as_slice()));
    assert_eq!(strip_view_exif(&view).unwrap(), camera);
    assert_eq!(strip_view_exif(&camera).unwrap(), camera);
}

#[test]
fn jpeg_end_errors_by_kind() {
    assert!(matches!(jpeg_end(&[]), Err(Error::Format("not a JPEG"))));
    assert!(matches!(jpeg_end(&[0x00, 0xd8, 0xff, 0xd9]), Err(Error::Format(_))));
    // A marker segment whose length runs past the end of the data.
    assert_eq!(jpeg_end(&[0xff, 0xd8, 0xff, 0xe1, 0x00, 0x10, 0x00]), Err(Error::Truncated));
}

#[test]
fn view_exif_without_thumbnail_keeps_orientation_only() {
    let camera = [0xff, 0xd8, 0xff, 0xda, 0x00, 0x02, 0x11, 0xff, 0xd9];
    let view = attach_view_exif(&camera, 3, None).unwrap();
    assert_eq!(&view[..4], &[0xff, 0xd8, 0xff, 0xe1]);
    assert_eq!(jpeg_exif_orientation(&view[..64.min(view.len())]), Some(3));
    assert_eq!(jpeg_exif_thumbnail(&view), None);
    assert_eq!(jpeg_end(&view).unwrap(), view.len());
    assert_eq!(strip_view_exif(&view).unwrap(), camera);
}

#[test]
fn attach_refuses_what_is_not_a_jpeg() {
    assert!(matches!(attach_view_exif(&[0x00, 0x01], 1, None), Err(Error::Format(_))));
}

#[test]
fn split_without_jpeg_is_an_error() {
    assert!(split_jpeg_prefix(&[0x00, 0x00]).is_err());
}

#[test]
fn attaching_twice_keeps_the_first_view() {
    let camera = [0xff, 0xd8, 0xff, 0xda, 0x00, 0x02, 0xff, 0xd9];
    let view = attach_view_exif(&camera, 6, None).unwrap();
    let again = attach_view_exif(&view, 3, Some(&[0xff, 0xd8, 0xff, 0xd9])).unwrap();
    assert_eq!(again, view);
    assert_eq!(jpeg_exif_orientation(&again), Some(6));
}
