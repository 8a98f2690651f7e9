use compress_arw::{decoded_output_path, encoded_output_path, has_encoded_extension, ENCODED_EXTENSION};
use std::path::Path;

#[test]
fn encoded_extension_from_arw() {
    assert_eq!(
        Path::new(&encoded_output_path("OCT00527.ARW")),
        Path::new("OCT00527.ARWC.JPG")
    );
    assert_eq!(
        Path::new(&encoded_output_path("/tmp/shot.arw")),
        Path::new("/tmp/shot.ARWC.JPG")
    );
    assert!(has_encoded_extension("shot.arwc.jpg"));
    assert!(has_encoded_extension("SHOT.ARWC.JPG"));
    assert!(!has_encoded_extension("shot.jpg"));
    assert!(!has_encoded_extension("shot.ARW"));
}

#[test]
fn decoded_extension_from_arwc() {
    assert_eq!(
        Path::new(&decoded_output_path("OCT00527.arwc.jpg")),
        Path::new("OCT00527.ARW")
    );
    assert_eq!(
        Path::new(&decoded_output_path("/tmp/shot.ARWC.JPG")),
        Path::new("/tmp/shot.ARW")
    );
}

#[test]
fn output_paths_without_or_with_other_extensions() {
    assert_eq!(encoded_output_path("shot"), "shot.ARWC.JPG");
    assert_eq!(encoded_output_path("dir.d/shot.tar.arw"), "dir.d/shot.tar.ARWC.JPG");
    assert_eq!(decoded_output_path("shot.jpg"), "shot.ARW");
    assert_eq!(decoded_output_path("dir/Shot.Arwc.Jpg"), "dir/Shot.ARW");
    assert!(ENCODED_EXTENSION.eq_ignore_ascii_case(".arwc.jpg"));
}

#[test]
fn encoded_then_decoded_path_gives_the_arw_name() {
    let e = encoded_output_path("/x/IMG_1.ARW");
    assert!(has_encoded_extension(&e));
    assert_eq!(decoded_output_path(&e), "/x/IMG_1.ARW");
}

fn std_encoded(p: &str) -> String {
    Path::new(p).with_extension("ARWC.JPG").to_str().unwrap().to_string()
}

fn std_decoded(p: &str) -> String {
    let input = Path::new(p);
    let name = input.file_name().and_then(|s| s.to_str()).unwrap_or("");
    let lower = name.to_ascii_lowercase();
    let out = if let Some(stripped) = lower.strip_suffix(".arwc.jpg") {
        let stem = &name[..stripped.len()];
        input.with_file_name(format!("{stem}.ARW"))
    } else {
        input.with_extension("ARW")
    };
    out.to_str().unwrap().to_string()
}

#[test]
fn output_paths_follow_std_path_rules() {
    let cases = [
        "dir/", "dir//", "dir/.", "dir/./", "x/.", ".", "..", "/", "", "./x.arw", "./x.arwc.jpg",
        ".hidden", ".hidden.arw", "a//b.arw", "a//b.ARWC.JPG", "a/./b.arwc.jpg", "/shot.arwc.jpg",
        "dir/shot.ARWC.JPG/", "a/..", "a/../b.ARW", "..x.arw", "x.", "/a/b/c.tar.gz", "shot.arwc.jpg",
        ".arwc.jpg", "d/.arwc.jpg", "Ünïcödé/фото.ARW", "a.b.ARW", "././x",
    ];
    for p in cases {
        assert_eq!(encoded_output_path(p), std_encoded(p), "encoded {p:?}");
        assert_eq!(decoded_output_path(p), std_decoded(p), "decoded {p:?}");
    }
}

#[test]
fn trailing_separator_does_not_hide_the_file_name() {
    assert_eq!(encoded_output_path("dir/"), "dir.ARWC.JPG");
    assert_eq!(decoded_output_path("dir/"), "dir.ARW");
    assert_eq!(decoded_output_path("a//b.ARWC.JPG"), "a/b.ARW");
}

#[test]
fn decoding_name_of_encoding_name_is_the_arw_name() {
    for p in ["dir/shot.ARW", "a.b.ARW", "/x/IMG_1.ARW", "./y.ARW"] {
        assert_eq!(decoded_output_path(&encoded_output_path(p)), p);
    }
}

#[test]
fn round_trip_gives_the_same_path_as_paths_compare() {
    for p in ["shot.ARW", "dir/shot.ARW", "a//b.ARW", "a/./b.ARW", "dir/b.ARW/", "/x/./y//z.ARW", "./a.b.ARW"] {
        let back = decoded_output_path(&encoded_output_path(p));
        assert_eq!(Path::new(&back), Path::new(p), "{p}");
        assert_eq!(
            Path::new(&back).components().collect::<Vec<_>>(),
            Path::new(p).components().collect::<Vec<_>>()
        );
    }
}
