//! The POSIX-grammar tests: absolutization against an explicit base
//! directory, and virtual-root confinement.

use path_absolutize::unix;
use path_absolutize::{Absolutize, AbsolutizeError, UnixPath};

const BASE: &str = "/base/dir";

#[test]
fn lib_absolutize_lv0_1() {
    let p = UnixPath::new("/path/to/123/456");
    assert_eq!("/path/to/123/456", p.absolutize_from(&UnixPath::new(BASE)).as_str());
}

#[test]
fn lib_absolutize_lv0_2() {
    let p = UnixPath::new("/path/to/./123/../456");
    assert_eq!("/path/to/456", p.absolutize_from(&UnixPath::new(BASE)).as_str());
}

#[test]
fn lib_virtually_absolutize_lv0_1() {
    let p = UnixPath::new("/path/to/123/456");
    let r = p.absolutize_virtually(&UnixPath::new("/"), &UnixPath::new(BASE)).unwrap();
    assert_eq!("/path/to/123/456", r.as_str());
}

#[test]
fn lib_virtually_absolutize_lv0_2() {
    let p = UnixPath::new("/path/to/./123/../456");
    let r = p.absolutize_virtually(&UnixPath::new("/"), &UnixPath::new(BASE)).unwrap();
    assert_eq!("/path/to/456", r.as_str());
}

#[test]
fn lib_virtually_absolutize_lv0_3() {
    let p = UnixPath::new("/path/to/123/456");
    let r = p.absolutize_virtually(&UnixPath::new("/virtual/root"), &UnixPath::new(BASE));
    assert_eq!(AbsolutizeError::InvalidInput, r.unwrap_err());
}

#[test]
fn lib_virtually_absolutize_lv1_1() {
    let p = UnixPath::new("./path/to/123/456");
    let r = p.absolutize_virtually(&UnixPath::new("/virtual/root"), &UnixPath::new(BASE)).unwrap();
    assert_eq!("/virtual/root/path/to/123/456", r.as_str());
}

#[test]
fn lib_virtually_absolutize_lv1_2() {
    let p = UnixPath::new("../path/to/123/456");
    let r = p.absolutize_virtually(&UnixPath::new("/virtual/root"), &UnixPath::new(BASE)).unwrap();
    assert_eq!("/virtual/root/path/to/123/456", r.as_str());
}

#[test]
fn lib_virtually_absolutize_lv2() {
    let p = UnixPath::new("path/to/123/456");
    let r = p.absolutize_virtually(&UnixPath::new("/virtual/root"), &UnixPath::new(BASE)).unwrap();
    assert_eq!("/virtual/root/path/to/123/456", r.as_str());
}

#[test]
fn lib_virtually_absolutize_lv3() {
    let p = UnixPath::new("path/to/../../../../123/456");
    let r = p.absolutize_virtually(&UnixPath::new("/virtual/root"), &UnixPath::new(BASE)).unwrap();
    assert_eq!("/virtual/root/123/456", r.as_str());
}

#[test]
fn unix_absolutize_lv0_1() {
    assert_eq!("/path/to/123/456", unix::absolutize_from("/path/to/123/456", BASE));
}

#[test]
fn unix_absolutize_lv0_2() {
    assert_eq!("/path/to/123/456", unix::absolutize_from("/path/to/./123/456", BASE));
}

#[test]
fn unix_absolutize_lv0_3() {
    assert_eq!("/path/to/456", unix::absolutize_from("/path/to/./123/../456", BASE));
}

#[test]
fn unix_absolutize_lv0_4() {
    assert_eq!("/", unix::absolutize_from("/../", BASE));
}

#[test]
fn unix_absolutize_lv0_5() {
    assert_eq!("/", unix::absolutize_from("/..", BASE));
}

#[test]
fn unix_virtually_absolutize_lv0_1() {
    let r = unix::absolutize_virtually("/path/to/123/456", "/", BASE).unwrap();
    assert_eq!("/path/to/123/456", r);
}

#[test]
fn unix_virtually_absolutize_lv0_2() {
    let r = unix::absolutize_virtually("/path/to/./123/../456", "/", BASE).unwrap();
    assert_eq!("/path/to/456", r);
}

#[test]
fn unix_virtually_absolutize_lv0_3() {
    let r = unix::absolutize_virtually("/path/to/123/456", "/virtual/root", BASE);
    assert_eq!(AbsolutizeError::InvalidInput, r.unwrap_err());
}

#[test]
fn unix_virtually_absolutize_lv1_1() {
    let r = unix::absolutize_virtually("./path/to/123/456", "/virtual/root", BASE).unwrap();
    assert_eq!("/virtual/root/path/to/123/456", r);
}

#[test]
fn unix_virtually_absolutize_lv1_2() {
    let r = unix::absolutize_virtually("../path/to/123/456", "/virtual/root", BASE).unwrap();
    assert_eq!("/virtual/root/path/to/123/456", r);
}

#[test]
fn unix_virtually_absolutize_lv2() {
    let r = unix::absolutize_virtually("path/to/123/456", "/virtual/root", BASE).unwrap();
    assert_eq!("/virtual/root/path/to/123/456", r);
}

#[test]
fn unix_virtually_absolutize_lv3() {
    let r = unix::absolutize_virtually("path/to/../../../../123/456", "/virtual/root", BASE).unwrap();
    assert_eq!("/virtual/root/123/456", r);
}

// Resolution of relative paths against the base directory.

#[test]
fn unix_absolutize_relative_cur() {
    assert_eq!("/base/dir/path/to/123/456", unix::absolutize_from("./path/to/123/456", BASE));
}

#[test]
fn unix_absolutize_relative_parent() {
    assert_eq!("/base/path/to/123/456", unix::absolutize_from("../path/to/123/456", BASE));
}

#[test]
fn unix_absolutize_relative_named() {
    assert_eq!("/base/dir/path/to/123/456", unix::absolutize_from("path/to/123/456", BASE));
}

#[test]
fn unix_absolutize_relative_climbs() {
    assert_eq!("/base/to/123/456", unix::absolutize_from("path/../../to/123/456", BASE));
}

#[test]
fn unix_absolutize_bare_dot() {
    assert_eq!("/base/dir", unix::absolutize_from(".", BASE));
}

#[test]
fn unix_absolutize_bare_parent() {
    assert_eq!("/base", unix::absolutize_from("..", BASE));
}

#[test]
fn unix_absolutize_parent_of_root_base() {
    assert_eq!("/", unix::absolutize_from("..", "/"));
}

#[test]
fn unix_absolutize_empty_path_gives_base() {
    assert_eq!(BASE, unix::absolutize_from("", BASE));
}

#[test]
fn unix_absolutize_redundant_separators() {
    assert_eq!("/a/b", unix::absolutize_from("/a//b/", BASE));
}

#[test]
fn unix_absolutize_keeps_canonical_text() {
    assert_eq!("/a/b/c", unix::absolutize_from("/a/b/c", BASE));
}

#[test]
fn unix_absolutize_idempotent_on_result() {
    let once = unix::absolutize_from("path/../../to/./123//456", BASE);
    let twice = unix::absolutize_from(&once, BASE);
    assert_eq!(once, twice);
}

#[test]
fn unix_absolutize_absolute_ignores_base() {
    let a = unix::absolutize_from("/path/to/./123/../456", "/one/base");
    let b = unix::absolutize_from("/path/to/./123/../456", "/another");
    assert_eq!(a, b);
    assert_eq!("/path/to/456", a);
}

#[test]
fn unix_virtually_root_boundary_not_textual() {
    let r = unix::absolutize_virtually("/virtual/rootless", "/virtual/root", BASE);
    assert_eq!(AbsolutizeError::InvalidInput, r.unwrap_err());
}

#[test]
fn unix_virtually_empty_path_stays_under_root() {
    let r = unix::absolutize_virtually("", "/virtual/root", BASE).unwrap();
    assert_eq!("/virtual/root/", r);
}

#[test]
fn unix_base_with_dot_segments() {
    assert_eq!("/x/y/a", unix::absolutize_from("a", "/x/./y"));
}

#[test]
fn unix_all_segments_climbed_out() {
    assert_eq!("", unix::absolutize_from("a/../..", ""));
}

#[test]
fn unix_virtually_root_is_normalized_first() {
    let r = unix::absolutize_virtually("/virtual/root/x/z", "/virtual//root/./x/y/..", BASE);
    assert_eq!("/virtual/root/x/z", r.unwrap());
}

#[test]
fn unix_virtually_relative_root_resolves_against_base() {
    let r = unix::absolutize_virtually("/base/dir/here/q", "here", BASE).unwrap();
    assert_eq!("/base/dir/here/q", r);
}
