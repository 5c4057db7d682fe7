//! The Windows-grammar tests: drive and UNC prefixes, drive-relative
//! paths, and case-insensitive virtual-root confinement.

use path_absolutize::windows;
use path_absolutize::{Absolutize, AbsolutizeError, WindowsPath};

const BASE: &str = "C:\\base\\dir";

#[test]
fn prefix_1() {
    assert_eq!("C:\\", windows::absolutize_from("C:\\", BASE));
}

#[test]
fn prefix_2() {
    assert_eq!("C:\\", windows::absolutize_from("C:", BASE));
}

#[test]
fn prefix_3() {
    assert_eq!("\\\\VBOXSRV\\test\\", windows::absolutize_from("\\\\VBOXSRV\\test", BASE));
}

#[test]
fn prefix_4() {
    assert_eq!("\\\\VBOXSRV\\test\\", windows::absolutize_from("\\\\VBOXSRV\\test\\", BASE));
}

#[test]
fn absolutize_virtually_1() {
    let p = WindowsPath::new("123\\456\\");
    let r = p.absolutize_virtually(&WindowsPath::new("C:\\"), &WindowsPath::new(BASE)).unwrap();
    assert_eq!("C:\\123\\456", r.as_str());
}

#[test]
fn absolutize_virtually_2() {
    let p = WindowsPath::new("C:123\\456\\");
    let r = p.absolutize_virtually(&WindowsPath::new("C:\\"), &WindowsPath::new(BASE)).unwrap();
    assert_eq!("C:\\123\\456", r.as_str());
}

#[test]
fn absolutize_virtually_3() {
    let p = WindowsPath::new("C:123\\456\\");
    let r = p.absolutize_virtually(&WindowsPath::new("D:\\"), &WindowsPath::new(BASE));
    assert!(matches!(r, Err(_)));
}

// Resolution against an explicit base directory standing in for the
// process working directory.

#[test]
fn absolutize_lv0_1() {
    assert_eq!("C:\\path\\to\\123\\456", windows::absolutize_from("\\path\\to\\123\\456", BASE));
}

#[test]
fn absolutize_lv0_2() {
    assert_eq!("C:\\path\\to\\123\\456", windows::absolutize_from("\\path\\to\\.\\123\\456", BASE));
}

#[test]
fn absolutize_lv0_3() {
    assert_eq!("C:\\path\\to\\456", windows::absolutize_from("\\path\\to\\.\\123\\..\\456", BASE));
}

#[test]
fn absolutize_lv0_4() {
    assert_eq!("C:\\", windows::absolutize_from("\\..\\", BASE));
}

#[test]
fn absolutize_lv0_5() {
    assert_eq!("C:\\", windows::absolutize_from("\\..", BASE));
}

#[test]
fn absolutize_lv1_1() {
    assert_eq!(BASE, windows::absolutize_from(".", BASE));
}

#[test]
fn absolutize_lv1_2() {
    assert_eq!(
        "C:\\base\\dir\\path\\to\\123\\456",
        windows::absolutize_from(".\\path\\to\\123\\456", BASE)
    );
}

#[test]
fn absolutize_lv1_3() {
    assert_eq!("C:\\base", windows::absolutize_from("..", BASE));
}

#[test]
fn absolutize_lv1_4() {
    assert_eq!(
        "C:\\base\\path\\to\\123\\456",
        windows::absolutize_from("..\\path\\to\\123\\456", BASE)
    );
}

#[test]
fn absolutize_lv2() {
    assert_eq!(
        "C:\\base\\dir\\path\\to\\123\\456",
        windows::absolutize_from("path\\to\\123\\456", BASE)
    );
}

#[test]
fn absolutize_lv3() {
    assert_eq!(
        "C:\\base\\to\\123\\456",
        windows::absolutize_from("path\\..\\..\\to\\123\\456", BASE)
    );
}

#[test]
fn absolutize_lv5_1() {
    assert_eq!("D:\\123\\567", windows::absolutize_from("D:.\\123\\567", BASE));
}

#[test]
fn absolutize_lv5_2() {
    assert_eq!("D:\\123\\567", windows::absolutize_from("D:..\\123\\567", BASE));
}

#[test]
fn absolutize_lv6_1() {
    let p = WindowsPath::new("C:\\");
    assert_eq!(
        "C:\\",
        p.absolutize_from(&WindowsPath::new("\\foo\\bar\\baz")).as_str()
    );
    assert_eq!("C:\\", p.absolutize_from(&WindowsPath::new("foo\\bar\\baz")).as_str());
}

#[test]
fn absolutize_lv6_2() {
    let p = WindowsPath::new("C:");
    assert_eq!(
        "C:\\",
        p.absolutize_from(&WindowsPath::new("\\foo\\bar\\baz")).as_str()
    );
    assert_eq!("C:\\", p.absolutize_from(&WindowsPath::new("foo\\bar\\baz")).as_str());
}

#[test]
fn absolutize_lv6_3() {
    let p = WindowsPath::new("");
    assert_eq!(
        "\\foo\\bar\\baz",
        p.absolutize_from(&WindowsPath::new("\\foo\\bar\\baz")).as_str()
    );
    assert_eq!(
        "foo\\bar\\baz",
        p.absolutize_from(&WindowsPath::new("foo\\bar\\baz")).as_str()
    );
}

#[test]
fn absolutize_lv6_4() {
    let p = WindowsPath::new("abc");
    assert_eq!(
        "\\foo\\bar\\baz\\abc",
        p.absolutize_from(&WindowsPath::new("\\foo\\bar\\baz")).as_str()
    );
    assert_eq!(
        "foo\\bar\\baz\\abc",
        p.absolutize_from(&WindowsPath::new("foo\\bar\\baz")).as_str()
    );
}

#[test]
fn absolutize_lv7_1() {
    let p = WindowsPath::new(".\\abc");
    assert_eq!("\\abc", p.absolutize_from(&WindowsPath::new("\\")).as_str());
    assert_eq!("abc", p.absolutize_from(&WindowsPath::new("")).as_str());
    assert_eq!("C:\\abc", p.absolutize_from(&WindowsPath::new("C:\\")).as_str());
    assert_eq!("C:abc", p.absolutize_from(&WindowsPath::new("C:")).as_str());
}

#[test]
fn absolutize_lv7_2() {
    let p = WindowsPath::new("..\\abc");
    assert_eq!("\\abc", p.absolutize_from(&WindowsPath::new("\\")).as_str());
    assert_eq!("abc", p.absolutize_from(&WindowsPath::new("")).as_str());
    assert_eq!("C:\\abc", p.absolutize_from(&WindowsPath::new("C:\\")).as_str());
    assert_eq!("C:abc", p.absolutize_from(&WindowsPath::new("C:")).as_str());
}

#[test]
fn absolutize_lv7_3() {
    let p = WindowsPath::new(".\\abc");
    assert_eq!(
        "\\foo\\bar\\baz\\abc",
        p.absolutize_from(&WindowsPath::new("\\foo\\bar\\baz")).as_str()
    );
    assert_eq!(
        "foo\\bar\\baz\\abc",
        p.absolutize_from(&WindowsPath::new("foo\\bar\\baz")).as_str()
    );
    assert_eq!(
        "C:\\foo\\bar\\baz\\abc",
        p.absolutize_from(&WindowsPath::new("C:\\foo\\bar\\baz")).as_str()
    );
    assert_eq!(
        "C:foo\\bar\\baz\\abc",
        p.absolutize_from(&WindowsPath::new("C:foo\\bar\\baz")).as_str()
    );
}

#[test]
fn absolutize_lv7_4() {
    let p = WindowsPath::new("..\\abc");
    assert_eq!(
        "\\foo\\bar\\abc",
        p.absolutize_from(&WindowsPath::new("\\foo\\bar\\baz")).as_str()
    );
    assert_eq!(
        "foo\\bar\\abc",
        p.absolutize_from(&WindowsPath::new("foo\\bar\\baz")).as_str()
    );
    assert_eq!(
        "C:\\foo\\bar\\abc",
        p.absolutize_from(&WindowsPath::new("C:\\foo\\bar\\baz")).as_str()
    );
    assert_eq!(
        "C:foo\\bar\\abc",
        p.absolutize_from(&WindowsPath::new("C:foo\\bar\\baz")).as_str()
    );
}

#[test]
fn absolutize_lv7_5() {
    let p = WindowsPath::new("C:.\\abc");
    assert_eq!("C:\\abc", p.absolutize_from(&WindowsPath::new("\\")).as_str());
    assert_eq!("C:\\abc", p.absolutize_from(&WindowsPath::new("")).as_str());
    assert_eq!("C:\\abc", p.absolutize_from(&WindowsPath::new("C:\\")).as_str());
    assert_eq!("C:abc", p.absolutize_from(&WindowsPath::new("C:")).as_str());
}

#[test]
fn absolutize_lv7_6() {
    let p = WindowsPath::new("C:..\\abc");
    assert_eq!("C:\\abc", p.absolutize_from(&WindowsPath::new("\\")).as_str());
    assert_eq!("C:\\abc", p.absolutize_from(&WindowsPath::new("")).as_str());
    assert_eq!("C:\\abc", p.absolutize_from(&WindowsPath::new("C:\\")).as_str());
    assert_eq!("C:abc", p.absolutize_from(&WindowsPath::new("C:")).as_str());
}

#[test]
fn absolutize_lv7_7() {
    let p = WindowsPath::new("C:.\\abc");
    assert_eq!(
        "C:\\abc",
        p.absolutize_from(&WindowsPath::new("\\foo\\bar\\baz")).as_str()
    );
    assert_eq!(
        "C:\\abc",
        p.absolutize_from(&WindowsPath::new("foo\\bar\\baz")).as_str()
    );
    assert_eq!(
        "C:\\foo\\bar\\baz\\abc",
        p.absolutize_from(&WindowsPath::new("C:\\foo\\bar\\baz")).as_str()
    );
    assert_eq!(
        "C:foo\\bar\\baz\\abc",
        p.absolutize_from(&WindowsPath::new("C:foo\\bar\\baz")).as_str()
    );
}

#[test]
fn absolutize_lv7_8() {
    let p = WindowsPath::new("C:..\\abc");
    assert_eq!(
        "C:\\abc",
        p.absolutize_from(&WindowsPath::new("\\foo\\bar\\baz")).as_str()
    );
    assert_eq!(
        "C:\\abc",
        p.absolutize_from(&WindowsPath::new("foo\\bar\\baz")).as_str()
    );
    assert_eq!(
        "C:\\foo\\bar\\abc",
        p.absolutize_from(&WindowsPath::new("C:\\foo\\bar\\baz")).as_str()
    );
    assert_eq!(
        "C:foo\\bar\\abc",
        p.absolutize_from(&WindowsPath::new("C:foo\\bar\\baz")).as_str()
    );
}

// A drive-relative named path follows the base directory only on its own
// drive; on any other it resolves to the drive's root.

#[test]
fn windows_drive_relative_same_drive() {
    assert_eq!("C:\\base\\dir\\123\\567", windows::absolutize_from("C:123\\567", BASE));
}

#[test]
fn windows_drive_relative_other_drive() {
    assert_eq!("D:\\123\\567", windows::absolutize_from("D:123\\567", BASE));
}

#[test]
fn windows_drive_relative_prefixless_base() {
    assert_eq!("D:\\123\\567", windows::absolutize_from("D:123\\567", "\\foo\\bar"));
}

#[test]
fn windows_drive_match_ignores_case() {
    assert_eq!("c:\\base\\dir\\123", windows::absolutize_from("c:123", BASE));
}

// Mixed separators and case-insensitive containment.

#[test]
fn windows_forward_slashes_kept_when_nothing_changes() {
    assert_eq!("C:/a/b", windows::absolutize_from("C:/a/b", BASE));
}

#[test]
fn windows_forward_slashes_rewritten_on_change() {
    assert_eq!("C:\\a\\c", windows::absolutize_from("C:/a/b/../c", BASE));
}

#[test]
fn windows_virtually_case_insensitive() {
    let r = windows::absolutize_virtually("c:\\VIRTUAL\\root\\x", "C:\\virtual\\ROOT", BASE);
    assert_eq!("c:\\VIRTUAL\\root\\x", r.unwrap());
}

#[test]
fn windows_virtually_escape_rejected() {
    let r = windows::absolutize_virtually("C:\\elsewhere\\x", "C:\\virtual\\root", BASE);
    assert_eq!(AbsolutizeError::InvalidInput, r.unwrap_err());
}

#[test]
fn windows_virtually_boundary_not_textual() {
    let r = windows::absolutize_virtually("C:\\virtual\\rootless", "C:\\virtual\\root", BASE);
    assert_eq!(AbsolutizeError::InvalidInput, r.unwrap_err());
}

#[test]
fn windows_virtually_unc_contained() {
    let r = windows::absolutize_virtually(
        "\\\\srv\\share\\a\\b",
        "\\\\SRV\\share\\a",
        BASE,
    );
    assert_eq!("\\\\srv\\share\\a\\b", r.unwrap());
}

#[test]
fn windows_virtually_unc_root_against_drive_rejected() {
    let r = windows::absolutize_virtually("C:123", "\\\\srv\\share", BASE);
    assert_eq!(AbsolutizeError::InvalidInput, r.unwrap_err());
}

#[test]
fn windows_drive_relative_dot_other_drive() {
    assert_eq!("C:\\a", windows::absolutize_from("C:.\\a", "D:\\f"));
}

#[test]
fn windows_drive_relative_parent_other_drive() {
    assert_eq!("C:\\a", windows::absolutize_from("C:..\\a", "D:\\f"));
}

#[test]
fn windows_virtually_leading_dot_joins_root() {
    let r = windows::absolutize_virtually(".\\x", "C:\\v", BASE).unwrap();
    assert_eq!("C:\\v\\x", r);
}

#[test]
fn windows_virtually_drive_relative_dot_joins_root() {
    let r = windows::absolutize_virtually("C:.\\x", "C:\\v", BASE).unwrap();
    assert_eq!("C:\\v\\x", r);
}

#[test]
fn windows_empty_path_gives_base() {
    assert_eq!(BASE, windows::absolutize_from("", BASE));
}

#[test]
fn windows_absolutize_idempotent_on_result() {
    let once = windows::absolutize_from("path\\..\\..\\to\\.\\123\\\\567", BASE);
    let twice = windows::absolutize_from(&once, BASE);
    assert_eq!(once, twice);
}

#[test]
fn windows_absolutize_keeps_canonical_text() {
    assert_eq!("C:\\a\\b\\c", windows::absolutize_from("C:\\a\\b\\c", BASE));
}

#[test]
fn windows_absolute_ignores_base() {
    let a = windows::absolutize_from("C:\\x\\.\\y\\..\\z", "C:\\one");
    let b = windows::absolutize_from("C:\\x\\.\\y\\..\\z", "D:\\two");
    assert_eq!(a, b);
    assert_eq!("C:\\x\\z", a);
}

#[test]
fn windows_root_floor() {
    assert_eq!("C:\\", windows::absolutize_from("C:\\..\\..\\..", BASE));
}

#[test]
fn windows_virtually_relative_under_root() {
    let r = windows::absolutize_virtually("path\\to\\..\\..\\..\\..\\123\\456", "C:\\virtual\\root", BASE);
    assert_eq!("C:\\virtual\\root\\123\\456", r.unwrap());
}

#[test]
fn windows_unc_forward_slashes_echoed() {
    assert_eq!("//srv/share/x", windows::absolutize_from("//srv/share/x", BASE));
}

#[test]
fn windows_unc_parent_floor() {
    assert_eq!(
        "\\\\srv\\share\\",
        windows::absolutize_from("\\\\srv\\share\\a\\..\\..", BASE)
    );
}
