use ray_tracing::image::{infer_format, Format};

#[test]
fn png_suffix() {
    assert_eq!(infer_format("scene.png"), Some(Format::PNG));
}

#[test]
fn jpg_suffix() {
    assert_eq!(infer_format("photo.jpg"), Some(Format::JPG));
}

#[test]
fn jpeg_suffix() {
    assert_eq!(infer_format("photo.jpeg"), Some(Format::JPG));
}

#[test]
fn ppm_suffix() {
    assert_eq!(infer_format("dump.ppm"), Some(Format::PPM));
}

#[test]
fn case_is_ignored() {
    assert_eq!(infer_format("OUT.PNG"), Some(Format::PNG));
    assert_eq!(infer_format("Photo.JpEg"), Some(Format::JPG));
    assert_eq!(infer_format("dump.PPM"), Some(Format::PPM));
}

#[test]
fn unknown_suffix() {
    assert_eq!(infer_format("notes.txt"), None);
    assert_eq!(infer_format("archive.tar"), None);
}

#[test]
fn suffix_without_dot_still_counts() {
    assert_eq!(infer_format("apng"), Some(Format::PNG));
    assert_eq!(infer_format("jpeg"), Some(Format::JPG));
}
