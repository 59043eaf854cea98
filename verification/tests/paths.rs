use fake::path::FilePath;
use std::path::Path;

const PATHS: [&str; 46] = [
    "", "/", "//", ".", "..", "...", "....", "./", "./.", "/.", "/..", "a", "a/", "a//", "a/.",
    "a/./", "a/./.", "a/..", "./a", "a.b", "a.b/", "a.b/.", ".a", ".a.b", "a.", "a..", "a..b",
    "..a", "a.b.c", "/x/y.z", "x/y.z/", "x.d/y", "x.d/.y", "x.d/.", "x.d/..", "é.ü", "/é/ü.tar.gz",
    "a b.c d", "x/./y.z", "x//y.z//",
    "..a/", "..abc/", "d/..a", "d/..a/.", "foo.abc/./", "foo.rs////",
];

fn text(bytes: &[u8]) -> String {
    String::from_utf8(bytes.to_vec()).unwrap()
}

#[test]
fn stems_are_those_of_std() {
    for p in PATHS {
        let want = Path::new(p).file_stem().map(|s| s.to_str().unwrap().to_string());
        assert_eq!(FilePath::from_str(p).file_stem().map(text), want, "{:?}", p);
    }
}

#[test]
fn extensions_are_those_of_std() {
    for p in PATHS {
        let want = Path::new(p).extension().map(|s| s.to_str().unwrap().to_string());
        assert_eq!(FilePath::from_str(p).extension().map(text), want, "{:?}", p);
    }
}

#[test]
fn given_extensions_are_those_of_std() {
    for p in PATHS {
        for ext in ["", "v", "tar.gz", "."] {
            let want = Path::new(p).with_extension(ext).to_str().unwrap().to_string();
            let got = FilePath::from_str(p).with_extension(ext);
            assert_eq!(text(&got.bytes), want, "{:?} {:?}", p, ext);
        }
    }
}

#[test]
fn joined_paths_are_those_of_std() {
    for p in PATHS {
        for name in ["", "a", "a/b", "/a", "fake.toml"] {
            let want = Path::new(p).join(name).to_str().unwrap().to_string();
            let got = FilePath::from_str(p).join(name);
            assert_eq!(text(&got.bytes), want, "{:?} {:?}", p, name);
        }
    }
}

#[test]
fn parts_of_a_path() {
    let path = FilePath::from_str("dir/main.tar.gz");
    assert_eq!(path.file_stem(), Some(&b"main.tar"[..]));
    assert_eq!(path.extension(), Some(&b"gz"[..]));
    assert_eq!(path.with_extension("v").bytes, b"dir/main.tar.v".to_vec());
    assert_eq!(path.display(), "dir/main.tar.gz");
}

#[test]
fn given_extension_is_read_back() {
    let path = FilePath::from_str("dir/main.futil").with_extension("sv");
    assert_eq!(path.extension(), Some(&b"sv"[..]));
    assert_eq!(path.file_stem(), Some(&b"main"[..]));
}

#[test]
fn stem_names_a_file() {
    let path = FilePath::from_str("dir/a.b.c");
    let stem = FilePath { bytes: path.file_stem().unwrap().to_vec() };
    assert_eq!(stem.bytes, b"a.b".to_vec());
    assert_eq!(stem.file_stem(), Some(&b"a"[..]));
}

#[test]
fn broken_text_is_displayed_with_replacements() {
    let path = FilePath { bytes: vec![b'a', 0xff, b'b'] };
    assert_eq!(path.display(), "a\u{fffd}b");
}

#[test]
fn paths_are_printed_for_debugging_as_by_std() {
    let odd = ["it's", "say \"hi\"", "back\\slash", "tab\tnew\nline", "\u{0}\u{7f}\u{1b}", "e\u{301}",
        "\u{301}", "\u{200b}\u{feff}", "日本", "\u{1f600}", "\u{e000}"];
    for p in PATHS.iter().chain(odd.iter()) {
        let want = format!("{:?}", Path::new(p));
        assert_eq!(format!("{:?}", FilePath::from_str(p)), want);
    }
}

#[test]
fn broken_bytes_are_printed_as_numbers() {
    let path = FilePath { bytes: vec![b'a', 0xff, 0xe6, 0x97, b'b', 0xf0, 0x9f, 0x98] };
    assert_eq!(format!("{:?}", path), "\"a\\xFF\\xE6\\x97b\\xF0\\x9F\\x98\"");
}
