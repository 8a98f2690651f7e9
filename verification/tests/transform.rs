use compress_arw::transform::{forward, inverse, pixels_from_le_bytes, pixels_to_le_bytes};

#[test]
fn roundtrip_small() {
    let width = 8;
    let src: Vec<u16> = (0..32).map(|i| ((i * 17 + 3) & 0x3fff) as u16).collect();
    let enc = forward(&src, width);
    let dec = inverse(&enc, width);
    assert_eq!(src, dec);
}

fn roundtrip(width: usize, src: Vec<u16>) {
    assert_eq!(src.len() % width, 0);
    assert_eq!(inverse(&forward(&src, width), width), src);
}

#[test]
fn constant_and_zero() {
    roundtrip(8, vec![0; 32]);
    roundtrip(8, vec![0x3fff; 32]);
    roundtrip(2, vec![7, 9]);
}

#[test]
fn wrapping_deltas() {
    roundtrip(4, vec![0, 1, 0xffff, 0, 2, 0xfffe, 3, 4]);
}

#[test]
fn odd_height_even_width() {
    roundtrip(6, (0..18).map(|i| (i * 999) as u16).collect());
}

#[test]
fn high_bytes_split() {
    let src: Vec<u16> = (0..16).map(|i| 0x3e00 + i).collect();
    let enc = forward(&src, 8);
    let n = src.len();
    assert!(enc[n..].iter().all(|&b| b <= 0x3f), "14-bit high plane");
    assert_eq!(inverse(&enc, 8), src);
}

#[test]
fn le_pixel_bytes() {
    let px = vec![0x1234u16, 0x3fff];
    let b = pixels_to_le_bytes(&px);
    assert_eq!(b, [0x34, 0x12, 0xff, 0x3f]);
    assert_eq!(pixels_from_le_bytes(&b), px);
}

#[test]
fn forward_planes_of_a_tiny_image() {
    // Width 4: the first two samples of a row are kept, the others are the
    // wrapping difference to the sample two to the left.
    let src = vec![10u16, 20, 13, 18, 0x0102, 0x0304, 0x0101, 0x0404];
    let enc = forward(&src, 4);
    assert_eq!(enc.len(), 16);
    let deltas: Vec<u16> = vec![10, 20, 3, 0xfffe, 0x0102, 0x0304, 0xffff, 0x0100];
    let lo: Vec<u8> = deltas.iter().map(|d| (d & 0xff) as u8).collect();
    let hi: Vec<u8> = deltas.iter().map(|d| (d >> 8) as u8).collect();
    assert_eq!(&enc[..8], lo.as_slice());
    assert_eq!(&enc[8..], hi.as_slice());
}

#[test]
fn odd_length_strip_drops_the_last_byte() {
    assert_eq!(pixels_from_le_bytes(&[0x01, 0x02, 0x03]), vec![0x0201u16]);
    assert_eq!(pixels_to_le_bytes(&[]), Vec::<u8>::new());
}

#[test]
fn forward_of_inverse_gives_the_shuffled_image_back() {
    let shuffled: Vec<u8> = (0..48u32).map(|i| (i * 37 + 11) as u8).collect();
    for width in [1usize, 2, 3, 4, 6, 8, 12] {
        assert_eq!(forward(&inverse(&shuffled, width), width), shuffled);
    }
}
