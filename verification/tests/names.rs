use fastgmad::names::{
    bad_key_of, bad_path, entry_path, is_windows_device_name, place_key_of, NameFault,
};
use fastgmad::path::{OsPath, Platform};
use vstd::hash_set::StringHashSet;

fn folder(platform: Platform) -> OsPath {
    OsPath::new(platform, b"out".to_vec())
}

/// Where the entries with these names go, and what is wrong with the names.
fn places(platform: Platform, names: &[&[u8]]) -> Vec<(String, Option<NameFault>)> {
    let mut bad_names = 0;
    let mut seen = StringHashSet::new();
    let mut found = Vec::new();
    for name in names {
        let (path, fault) = entry_path(&folder(platform), name, &mut bad_names, &mut seen);
        found.push((path.display(), fault));
    }
    found
}

fn fault_of(platform: Platform, name: &[u8]) -> Option<NameFault> {
    places(platform, &[name])[0].1
}

#[test]
fn good_names_go_below_the_folder() {
    assert_eq!(places(Platform::Unix, &[b"lua/a.lua"]), [("out/lua/a.lua".to_string(), None)]);
    assert_eq!(places(Platform::Windows, &[b"lua/a.lua"]), [("out\\lua/a.lua".to_string(), None)]);
    assert_eq!(fault_of(Platform::Unix, b"./a"), None);
    assert_eq!(fault_of(Platform::Unix, b"a//b/"), None);
    assert_eq!(fault_of(Platform::Unix, b"..."), None);
    assert_eq!(fault_of(Platform::Unix, b"a/..b"), None);
}

#[test]
fn each_fault_is_found() {
    assert_eq!(fault_of(Platform::Unix, &[0x61, 0xff]), Some(NameFault::NotUtf8));
    assert_eq!(fault_of(Platform::Unix, b""), Some(NameFault::Empty));
    assert_eq!(fault_of(Platform::Unix, b"/etc/passwd"), Some(NameFault::Escapes));
    assert_eq!(fault_of(Platform::Unix, b".."), Some(NameFault::Escapes));
    assert_eq!(fault_of(Platform::Unix, b"a/../b"), Some(NameFault::Escapes));
    assert_eq!(fault_of(Platform::Unix, b"a/.."), Some(NameFault::Escapes));
    assert_eq!(fault_of(Platform::Windows, b"a\\..\\b"), Some(NameFault::Escapes));
    assert_eq!(fault_of(Platform::Windows, b"C:a"), Some(NameFault::Escapes));
    assert_eq!(fault_of(Platform::Windows, b"\\\\server\\share"), Some(NameFault::Escapes));
    assert_eq!(fault_of(Platform::Windows, b"cfg/aux.cfg"), Some(NameFault::DeviceName));
    assert_eq!(places(Platform::Unix, &[b"a", b"a"])[1].1, Some(NameFault::Duplicate));
}

#[test]
fn what_is_wrong_depends_on_the_platform() {
    assert_eq!(fault_of(Platform::Unix, b"a\\..\\b"), None);
    assert_eq!(fault_of(Platform::Unix, b"C:a"), None);
    assert_eq!(fault_of(Platform::MacOs, b"CON"), None);
    assert_eq!(fault_of(Platform::Unix, b"CON"), None);
    assert_eq!(places(Platform::Unix, &[b"a", b"A"])[1].1, None);
    assert_eq!(places(Platform::MacOs, &[b"a", b"A"])[1].1, Some(NameFault::Duplicate));
    assert_eq!(places(Platform::Windows, &[b"a", b"A"])[1].1, Some(NameFault::Duplicate));
    let (lower, upper) = ("é".as_bytes(), "É".as_bytes());
    assert_eq!(places(Platform::MacOs, &[upper, lower])[1].1, Some(NameFault::Duplicate));
    assert_eq!(places(Platform::Unix, &[upper, lower])[1].1, None);
}

#[test]
fn bad_names_are_numbered_in_their_order() {
    let found = places(Platform::Unix, &[b"..", b"ok", b"", b"ok", b"ok2"]);
    assert_eq!(found[0], ("out/badnames/0.unk".to_string(), Some(NameFault::Escapes)));
    assert_eq!(found[1], ("out/ok".to_string(), None));
    assert_eq!(found[2], ("out/badnames/1.unk".to_string(), Some(NameFault::Empty)));
    assert_eq!(found[3], ("out/badnames/2.unk".to_string(), Some(NameFault::Duplicate)));
    assert_eq!(found[4], ("out/ok2".to_string(), None));
}

#[test]
fn a_refused_name_is_not_taken() {
    let names: [&[u8]; 3] = [b"a/../x", b"x", b"a/../x"];
    let found = places(Platform::Unix, &names);
    assert_eq!(found[1].1, None);
    assert_eq!(found[2].1, Some(NameFault::Escapes));
}

#[test]
fn the_next_bad_place_is_counted() {
    let mut bad_names = 41;
    assert_eq!(bad_path(&folder(Platform::Unix), &mut bad_names).to_bytes(), b"out/badnames/41.unk");
    assert_eq!(bad_names, 42);
}

#[test]
fn device_names_are_known() {
    for name in ["CON", "prn", "Aux.txt", "nul.tar.gz", "COM1", "com9.x", "LPT1", "lpt9"] {
        assert!(is_windows_device_name(Some(name.as_bytes())), "{name}");
    }
    for name in ["", "CONS", "CO", "COM", "COM0", "COM10", "LPT", "LPTA", "xCON", ".CON", "NULL"] {
        assert!(!is_windows_device_name(Some(name.as_bytes())), "{name}");
    }
    assert!(!is_windows_device_name(None));
}

#[test]
fn faults_have_words() {
    assert_eq!(NameFault::NotUtf8.reason(), "is not valid UTF-8");
    assert_eq!(NameFault::Empty.reason(), "is empty");
    assert_eq!(NameFault::Escapes.reason(), "escapes the output folder");
    assert_eq!(NameFault::DeviceName.reason(), "is a reserved Windows device name");
    assert_eq!(NameFault::Duplicate.reason(), "is a duplicate entry");
    assert_eq!(NameFault::Occupied.reason(), "is the place of another entry");
}

#[test]
fn a_place_has_one_key_however_it_is_spelled() {
    assert_eq!(bad_key_of(12), "badnames/12.unk");
    for name in ["badnames/12.unk", "badnames//12.unk", "./badnames/./12.unk", "badnames/12.unk/"] {
        assert_eq!(place_key_of(Platform::Unix, name.as_bytes()).unwrap(), bad_key_of(12), "{name}");
    }
    for name in ["badnames\\12.unk", "BADNAMES/12.Unk"] {
        assert_eq!(place_key_of(Platform::Windows, name.as_bytes()).unwrap(), bad_key_of(12), "{name}");
        assert_ne!(place_key_of(Platform::Unix, name.as_bytes()).unwrap(), bad_key_of(12), "{name}");
    }
    assert_eq!(place_key_of(Platform::Unix, &[0xff]), None);
    assert_eq!(place_key_of(Platform::Unix, b".").unwrap(), "");
}
