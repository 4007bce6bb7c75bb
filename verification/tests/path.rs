use fastgmad::path::{OsPath, Platform};

fn unix(root: &str) -> OsPath {
    OsPath::new(Platform::Unix, root.as_bytes().to_vec())
}

fn strings(list: Vec<Vec<u8>>) -> Vec<String> {
    list.into_iter().map(|s| String::from_utf8(s).unwrap()).collect()
}

#[test]
fn paths_are_split_at_separators() {
    assert_eq!(strings(Platform::Unix.split(b"a//b/")), ["a", "", "b", ""]);
    assert_eq!(strings(Platform::Unix.split(b"")), [""]);
    assert_eq!(strings(Platform::Unix.split(b"a\\b")), ["a\\b"]);
    assert_eq!(strings(Platform::Windows.split(b"a\\b/c")), ["a", "b", "c"]);
    assert_eq!(strings(Platform::Unix.name_list(b"./a//./b/")), ["a", "b"]);
    assert_eq!(Platform::Unix.file_name_of(b"a/b/."), Some(b"b".to_vec()));
    assert_eq!(Platform::Unix.file_name_of(b"."), None);
}

#[test]
fn extensions_agree_with_std() {
    for text in [
        "a.gma", "a", "a.", ".gma", "..gma", "a.b.gma", "dir.x/a", "dir.x/a.gma", "a.gma/", "a.gma/.", "/",
        "..", "a/..", "/a.gma", "a.gma//", "./a.gma", ".", "", "a/./b.c/./", "...", "a/.b.c",
    ] {
        let path = std::path::Path::new(text);
        let expected = path.extension().map(|e| e.to_str().unwrap().as_bytes().to_vec());
        assert_eq!(Platform::Unix.extension_of(text.as_bytes()), expected, "{text}");
        let mut stripped = path.to_path_buf();
        stripped.set_extension("");
        assert_eq!(
            String::from_utf8(Platform::Unix.strip_extension(text.as_bytes())).unwrap(),
            stripped.to_str().unwrap(),
            "{text}",
        );
    }
}

#[test]
fn extensions_on_windows() {
    assert_eq!(Platform::Windows.extension_of(b"dir.x\\a"), None);
    assert_eq!(Platform::Windows.extension_of(b"C:a.gma"), Some(b"gma".to_vec()));
    assert_eq!(Platform::Windows.extension_of(b"C:.gma"), None);
    assert_eq!(Platform::Windows.strip_extension(b"C:\\x\\a.gma"), b"C:\\x\\a");
    assert_eq!(Platform::Windows.extension_of(b"\\\\server\\share.gma"), None);
    assert_eq!(Platform::Windows.strip_extension(b"\\\\server\\share.gma"), b"\\\\server\\share.gma");
    assert_eq!(Platform::Windows.extension_of(b"\\\\server\\share\\a.gma"), Some(b"gma".to_vec()));
    assert_eq!(Platform::Windows.extension_of(b"//server/share.gma"), None);
    assert_eq!(Platform::Windows.extension_of(b"\\\\.\\a.gma"), None);
    assert_eq!(Platform::Windows.extension_of(b"\\\\?\\a.gma"), None);
    assert_eq!(Platform::Windows.extension_of(b"\\\\?\\UNC\\server\\share.gma"), None);
    assert_eq!(Platform::Windows.extension_of(b"\\\\?\\C:\\a.gma"), Some(b"gma".to_vec()));
    assert_eq!(Platform::Windows.extension_of(b"\\\\?\\C:\\x.y/a"), Some(b"y/a".to_vec()));
    assert_eq!(Platform::Windows.extension_of(b"\\\\a.gma"), Some(b"gma".to_vec()));
}

#[test]
fn joining_agrees_with_std() {
    for root in ["", "out", "out/", "/", "a/b"] {
        for part in ["x", "x/y", "./x", "x/"] {
            let expected = std::path::Path::new(root).join(part);
            let joined = unix(root).join(part.as_bytes());
            assert_eq!(joined.to_bytes(), expected.to_str().unwrap().as_bytes());
        }
    }
}

#[test]
fn joining_on_windows() {
    assert_eq!(Platform::Windows.join_to(b"out", b"a/b"), b"out\\a/b");
    assert_eq!(Platform::Windows.join_to(b"out/", b"a"), b"out/a");
    assert_eq!(Platform::Windows.join_to(b"C:", b"a"), b"C:a");
}

#[test]
fn parents_agree_with_std() {
    for part in ["x", "x/y", "./x", "x//y/", "x/./y", "x/y/.", ".", "x//y//z", "./."] {
        for root in ["out", "a/out/", "/", "/out", ".", "./out", "..", "a//b"] {
            let path = std::path::Path::new(root).join(part);
            let expected = path.parent().map(|p| p.to_str().unwrap().to_string());
            let found = unix(root).join(part.as_bytes()).parent().map(|p| p.display());
            assert_eq!(found, expected, "{root} {part}");
        }
    }
    for text in ["", "/", "//", ".", "./", "..", "a", "a/", "/a", "/.", "/./", "./a", "././a", "a/..", "a/./."] {
        let expected = std::path::Path::new(text).parent().map(|p| p.to_str().unwrap().as_bytes().to_vec());
        assert_eq!(Platform::Unix.parent_of(text.as_bytes()), expected, "{text}");
    }
}

#[test]
fn parents_on_windows() {
    let parent = |s: &str| Platform::Windows.parent_of(s.as_bytes()).map(|p| String::from_utf8(p).unwrap());
    assert_eq!(parent("out\\a/b\\x"), Some("out\\a/b".to_string()));
    assert_eq!(parent("C:\\a"), Some("C:\\".to_string()));
    assert_eq!(parent("C:a"), Some("C:".to_string()));
    assert_eq!(parent("C:\\"), None);
    assert_eq!(parent("C:"), None);
    assert_eq!(parent("\\\\server\\share\\x"), Some("\\\\server\\share\\".to_string()));
    assert_eq!(parent("\\\\server\\share"), None);
    assert_eq!(parent("\\\\?\\C:\\a/b\\c"), Some("\\\\?\\C:\\a/b".to_string()));
    assert_eq!(parent("\\\\.\\COM1\\x"), Some("\\\\.\\COM1\\".to_string()));
}

#[test]
fn paths_are_the_same_however_they_are_spelled() {
    for a in ["a/b", "a//b", "a/./b", "a/b/", "./a/b", "/a/b", "a", "", ".", "/", "a/..", "../a", "a/b/."] {
        for b in ["a/b", "a//b", "./a/b", "/a/b", "a/", "", ".", "./", "/", "//", "a/..", "..//a"] {
            let expected = std::path::Path::new(a) == std::path::Path::new(b);
            let key = Platform::Unix.key_of(a.as_bytes());
            assert_eq!(key.same_as(&Platform::Unix.key_of(b.as_bytes())), expected, "{a} {b}");
        }
    }
    assert!(unix("").is_empty());
    assert!(!unix("").join(b"a").is_empty());
}

#[test]
fn paths_that_are_no_text_are_shown_all_the_same() {
    let path = OsPath::new(Platform::Unix, vec![0x61, 0xff, 0x62]);
    assert_eq!(path.display(), "a\u{fffd}b");
    assert_eq!(path.copy().to_bytes(), [0x61, 0xff, 0x62]);
}

#[test]
fn names_that_lead_out_are_escaping() {
    assert!(Platform::Unix.is_escaping(b"/a"));
    assert!(Platform::Unix.is_escaping(b"a/../b"));
    assert!(!Platform::Unix.is_escaping(b"a/.../b"));
    assert!(!Platform::Unix.is_escaping(b"\\a"));
    assert!(Platform::Windows.is_escaping(b"\\a"));
    assert!(Platform::Windows.is_escaping(b"z:"));
    assert!(!Platform::Windows.is_escaping(b"1:"));
}

#[test]
fn escaping_agrees_with_std() {
    for text in ["a", "/a", "..", "a/..", "../a", "a/../b", "./a", "...", "a/...", "//", ".", "a/./b"] {
        let expected = std::path::Path::new(text).components().any(|c| {
            matches!(
                c,
                std::path::Component::ParentDir
                    | std::path::Component::RootDir
                    | std::path::Component::Prefix(_)
            )
        });
        assert_eq!(Platform::Unix.is_escaping(text.as_bytes()), expected, "{text}");
    }
}

#[test]
fn paths_that_are_taken_as_they_are_are_spelled_anew() {
    let join = |s: &str, part: &str| {
        String::from_utf8(Platform::Windows.join_to(s.as_bytes(), part.as_bytes())).unwrap()
    };
    assert_eq!(join(r"\\?\C:\x", "a/./b"), r"\\?\C:\x\a\b");
    assert_eq!(join(r"\\?\C:\x\\", r"a\b/"), r"\\?\C:\x\a\b");
    assert_eq!(join(r"\\?\C:", "a"), r"\\?\C:\a");
    assert_eq!(join(r"\\?\C:\", "a"), r"\\?\C:\a");
    assert_eq!(join(r"\\?\C:\x/y\.", "a"), r"\\?\C:\x/y\.\a");
    assert_eq!(join(r"\\?\UNC\server\share", "a/b"), r"\\?\UNC\server\share\a\b");
    assert_eq!(join(r"\\?\UNC\server", "a"), r"\\?\UNC\server\a");
    assert_eq!(join(r"\\?\C:\x\y", "../z"), r"\\?\C:\x\z");
    assert_eq!(join(r"\\?\C:\", "../z/.."), r"\\?\C:\");
    assert_eq!(join(r"\\?\C:\x", "."), r"\\?\C:\x");
    assert_eq!(join(r"\\?\C:\x", ""), r"\\?\C:\x\");
    assert_eq!(join(r"\\server\share", "a/b"), r"\\server\share\a/b");
    assert_eq!(join(r"\\.\COM1", "a"), r"\\.\COM1\a");
    assert_eq!(String::from_utf8(Platform::Unix.join_to(br"\\?\C:\x", b"a/b")).unwrap(), r"\\?\C:\x/a/b");

    let out = OsPath::new(Platform::Windows, br"\\?\D:\out".to_vec());
    assert_eq!(out.join(b"badnames").join(b"0.unk").to_bytes(), br"\\?\D:\out\badnames\0.unk");
    assert_eq!(out.join(b"lua/a.lua").parent().unwrap().to_bytes(), br"\\?\D:\out\lua");
}
