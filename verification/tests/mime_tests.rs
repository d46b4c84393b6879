use thttpd::mime::{figure_mime, mime_encoding, mime_type};

#[test]
fn test_html() {
    let info = figure_mime("index.html");
    assert_eq!(info.mime_type, "text/html");
    assert_eq!(info.encoding, None);
}

#[test]
fn test_image() {
    assert_eq!(figure_mime("image.png").mime_type, "image/png");
    assert_eq!(figure_mime("photo.jpg").mime_type, "image/jpeg");
    assert_eq!(figure_mime("photo.jpeg").mime_type, "image/jpeg");
    assert_eq!(figure_mime("anim.gif").mime_type, "image/gif");
}

#[test]
fn test_unknown_extension() {
    let info = figure_mime("file.xyz");
    assert_eq!(info.mime_type, "application/octet-stream");
    assert_eq!(info.encoding, None);
}

#[test]
fn test_no_extension() {
    let info = figure_mime("Makefile");
    assert_eq!(info.mime_type, "application/octet-stream");
    assert_eq!(info.encoding, None);
}

#[test]
fn test_gz_encoding() {
    let info = figure_mime("file.gz");
    assert_eq!(info.mime_type, "application/octet-stream");
    assert_eq!(info.encoding, Some("gzip"));
}

#[test]
fn test_tar_gz_chained() {
    let info = figure_mime("archive.tar.gz");
    assert_eq!(info.mime_type, "application/x-tar");
    assert_eq!(info.encoding, Some("gzip"));
}

#[test]
fn test_tar_bz2() {
    let info = figure_mime("archive.tar.bz2");
    assert_eq!(info.mime_type, "application/x-tar");
    assert_eq!(info.encoding, Some("x-bzip2"));
}

#[test]
fn test_tar_gz_bz2_chained() {
    let info = figure_mime("archive.tar.gz.bz2");
    assert_eq!(info.mime_type, "application/x-tar");
    assert_eq!(info.encoding, Some("x-bzip2,gzip"));
}

#[test]
fn mime_uses_the_file_name_of_a_path() {
    assert_eq!(mime_type("/srv/www.d/docs/readme.txt"), "text/plain");
    assert_eq!(mime_type("/srv/data.tar/"), "application/x-tar");
    assert_eq!(mime_type("/"), "application/octet-stream");
    assert_eq!(mime_encoding("/srv/log.Z"), Some("compress"));
    assert_eq!(mime_encoding("/srv/page.html.gz"), Some("gzip"));
    assert_eq!(mime_type("/srv/page.html.gz"), "text/html");
}

#[test]
fn type_stops_the_walk_of_extensions() {
    // The rightmost extension with a type ends the walk: an encoding to its
    // left is not counted.
    let info = figure_mime("a.gz.tar");
    assert_eq!(info.mime_type, "application/x-tar");
    assert_eq!(info.encoding, None);
    let info = figure_mime("a.tar.Z.gz");
    assert_eq!(info.encoding, Some("gzip,compress"));
}
