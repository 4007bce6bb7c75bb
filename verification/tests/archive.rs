use fastgmad::addon_json::write_addon_json;
use fastgmad::conf::ExtractGmaConfig;
use fastgmad::error::{
    entry_truncated, finish_failed_writes, gma_err, map_io, FastGmadError, FastGmadErrorKind, IoFailure,
};
use fastgmad::header::{older_version, read_header, GMA_MAGIC, GMA_VERSION};
use fastgmad::index::{create_output_dirs, locate_entries, read_index, total_size, GmaEntry};
use fastgmad::names::NameFault;
use fastgmad::path::{OsPath, Platform};
use fastgmad::reader::{read_u32_le, read_u64_le, Reader};

fn conf() -> ExtractGmaConfig {
    let mut conf = ExtractGmaConfig::default_for(Platform::Unix, None);
    conf.out = OsPath::new(Platform::Unix, b"out".to_vec());
    conf
}

fn reader(data: &[u8]) -> Reader<'_> {
    Reader::new(data, IoFailure::end_of_file())
}

fn push_nul(buf: &mut Vec<u8>, s: &[u8]) {
    buf.extend_from_slice(s);
    buf.push(0);
}

fn head(version: u8, required: &[&str]) -> Vec<u8> {
    let mut b = GMA_MAGIC.to_vec();
    b.push(version);
    b.extend_from_slice(&[7; 16]);
    if version > 1 {
        for content in required {
            push_nul(&mut b, content.as_bytes());
        }
        b.push(0);
    }
    push_nul(&mut b, b"Title");
    push_nul(&mut b, b"Description");
    push_nul(&mut b, b"Author");
    b.extend_from_slice(&[9; 4]);
    b
}

fn index(entries: &[(&[u8], u64)]) -> Vec<u8> {
    let mut b = Vec::new();
    for (i, (name, size)) in entries.iter().enumerate() {
        b.extend_from_slice(&(i as u32 + 1).to_le_bytes());
        push_nul(&mut b, name);
        b.extend_from_slice(&size.to_le_bytes());
        b.extend_from_slice(&0xdead_beefu32.to_le_bytes());
    }
    b.extend_from_slice(&0u32.to_le_bytes());
    b
}

fn message<T>(result: Result<T, FastGmadError>) -> String {
    match result {
        Ok(_) => "fine".to_string(),
        Err(e) => e.message(),
    }
}

#[test]
fn headers_of_every_version_are_read() {
    assert_eq!(GMA_VERSION, 3);
    for version in 0..=3 {
        let mut data = head(version, &["first", "second"]);
        let len = data.len();
        data.extend_from_slice(b"more");
        let mut r = reader(&data);
        let (title, description) = read_header(&mut r).unwrap();
        assert_eq!(title, b"Title");
        assert_eq!(description, b"Description");
        assert_eq!(r.position(), len);
        assert!(!r.has_run_out());
    }
}

#[test]
fn a_version_1_header_has_no_required_content() {
    // What would be required content is the title.
    let mut data = GMA_MAGIC.to_vec();
    data.push(1);
    data.extend_from_slice(&[0; 16]);
    push_nul(&mut data, b"Only a title");
    push_nul(&mut data, b"");
    push_nul(&mut data, b"");
    data.extend_from_slice(&[0; 4]);
    let (title, description) = read_header(&mut reader(&data)).unwrap();
    assert_eq!(title, b"Only a title");
    assert_eq!(description, b"");
}

#[test]
fn headers_that_are_none_are_refused() {
    assert_eq!(message(read_header(&mut reader(b"GMAX\x03"))), "bad magic bytes, this is not a GMA file");
    assert_eq!(
        message(read_header(&mut reader(b"GMAD\x04"))),
        "unsupported GMA version 4, this tool supports up to version 3",
    );
    assert_eq!(
        message(read_header(&mut reader(b"GMAD\xff"))),
        "unsupported GMA version 255, this tool supports up to version 3",
    );
}

#[test]
fn a_header_that_is_cut_off_tells_where() {
    let data = head(3, &["x"]);
    let places = [
        (0, "reading GMA magic"),
        (3, "reading GMA magic"),
        (4, "reading GMA version"),
        (5, "reading SteamID and timestamp"),
        (20, "reading SteamID and timestamp"),
        (21, "reading required content"),
        (23, "reading required content"),
        (24, "reading addon name"),
        (30, "reading addon description"),
        (42, "reading addon author"),
        (49, "reading addon version"),
        (52, "reading addon version"),
    ];
    assert_eq!(data.len(), 53);
    for (len, doing) in places {
        let mut r = reader(&data[..len]);
        let expected = format!("{doing}: unexpected end of file, GMA is truncated");
        assert_eq!(message(read_header(&mut r)), expected, "{len} bytes");
        assert!(r.has_run_out());
    }
    for len in 0..data.len() {
        assert!(message(read_header(&mut reader(&data[..len]))).contains("truncated"));
    }
}

#[test]
fn a_stream_that_fails_is_no_truncated_archive() {
    let failure = IoFailure { unexpected_eof: false, message: "Broken pipe".to_string() };
    let mut r = Reader::new(b"GMAD", failure);
    let error = read_header(&mut r).unwrap_err();
    assert_eq!(error.message(), "reading GMA version: Broken pipe");
    assert!(matches!(error.kind, FastGmadErrorKind::Io(_)));
    assert!(r.has_run_out());
}

#[test]
fn numbers_are_little_endian() {
    let mut r = reader(&[1, 2, 3, 4, 0xff, 0xff, 0xff, 0xff, 5]);
    assert_eq!(read_u32_le(&mut r).unwrap(), 0x0403_0201);
    assert_eq!(read_u32_le(&mut r).unwrap(), u32::MAX);
    assert!(read_u32_le(&mut r).unwrap_err().unexpected_eof);
    for n in [0, 1, 0x0102_0304_0506_0708, u64::MAX, 1 << 63] {
        assert_eq!(read_u64_le(&mut reader(&n.to_le_bytes())).unwrap(), n);
    }
    assert!(read_u64_le(&mut reader(&[0; 7])).unwrap_err().unexpected_eof);
}

#[test]
fn readers_skip_and_stop() {
    let data = b"ab\0cd\0e";
    let mut r = reader(data);
    assert_eq!(r.read_nul_str().unwrap(), b"ab");
    r.skip_nul_str().unwrap();
    assert_eq!(r.position(), 6);
    assert!(r.read_nul_str().is_err());
    assert_eq!(r.position(), 6);
    assert_eq!(r.read_exact(1).unwrap(), b"e");
    r.skip(0).unwrap();
    assert!(r.skip(1).is_err());
    assert!(r.skip(u64::MAX).is_err());
    assert!(r.has_run_out());
}

#[test]
fn the_index_is_read_as_it_was_written() {
    let mut data = index(&[(b"a/b", 5), (b"../c", 0), (b"d", 1 << 40)]);
    let len = data.len();
    data.extend_from_slice(b"contents");
    let mut r = reader(&data);
    let entries = read_index(&conf(), &mut r).unwrap();
    assert_eq!(r.position(), len);
    let found: Vec<_> = entries.iter().map(|e| (e.path.to_bytes(), e.offset, e.size, e.fault)).collect();
    assert_eq!(
        found,
        [
            (b"out/a/b".to_vec(), 0, 5, None),
            (b"out/badnames/0.unk".to_vec(), 5, 0, Some(NameFault::Escapes)),
            (b"out/d".to_vec(), 5, 1 << 40, None),
        ],
    );
    assert_eq!(entries[1].name, b"../c");
    assert_eq!(total_size(&entries), (1 << 40) + 5);
}

#[test]
fn an_index_may_be_empty() {
    let data = index(&[]);
    let entries = read_index(&conf(), &mut reader(&data)).unwrap();
    assert!(entries.is_empty());
    assert_eq!(total_size(&entries), 0);
    assert!(create_output_dirs(&entries).is_empty());
}

#[test]
fn an_index_that_is_cut_off_is_refused() {
    let data = index(&[(b"a/b", 5), (b"c", 6)]);
    for len in 0..data.len() {
        let mut r = reader(&data[..len]);
        assert_eq!(
            message(read_index(&conf(), &mut r)),
            "reading file index: unexpected end of file, GMA is truncated",
        );
        assert!(r.has_run_out());
    }
}

#[test]
fn sizes_must_add_up() {
    let data = index(&[(b"a", u64::MAX), (b"b", 0)]);
    let entries = read_index(&conf(), &mut reader(&data)).unwrap();
    assert_eq!(entries[1].offset, u64::MAX);
    let data = index(&[(b"a", u64::MAX), (b"b", 1)]);
    assert_eq!(message(read_index(&conf(), &mut reader(&data))), "file index is too large");
}

#[test]
fn offsets_count_from_the_start_of_the_file() {
    let data = index(&[(b"a", 3), (b"b", 4)]);
    let entries = read_index(&conf(), &mut reader(&data)).unwrap();
    let located = locate_entries(entries, 100).unwrap();
    assert_eq!(located.iter().map(|e| (e.offset, e.size)).collect::<Vec<_>>(), [(100, 3), (103, 4)]);

    let data = index(&[(b"a", u64::MAX), (b"b", 0)]);
    let entries = read_index(&conf(), &mut reader(&data)).unwrap();
    assert_eq!(message(locate_entries(entries, 1)), "GMA file index is too large");
}

#[test]
fn folders_are_created_once() {
    let data = index(&[(b"a/x", 0), (b"a/y", 0), (b"b/c/z", 0), (b"w", 0), (b"", 0), (b"a//v", 0), (b"b//c/u", 0), (b".", 0)]);
    let entries = read_index(&conf(), &mut reader(&data)).unwrap();
    let dirs: Vec<_> = create_output_dirs(&entries).iter().map(|d| d.to_bytes()).collect();
    assert_eq!(
        dirs,
        [b"out/a".to_vec(), b"out/b/c".to_vec(), b"out".to_vec(), b"out/badnames".to_vec(), b"".to_vec()],
    );
}

#[test]
fn a_description_that_is_an_object_is_kept() {
    assert_eq!(
        write_addon_json(b"My Addon", br#"{"type":"gamemode","tags":["fun",1.5]}"#),
        "{\n  \"tags\": [\n    \"fun\",\n    1.5\n  ],\n  \"title\": \"My Addon\",\n  \"type\": \"gamemode\"\n}",
    );
    assert_eq!(write_addon_json(b"My Addon", b"{}"), "{\n  \"title\": \"My Addon\"\n}");
    assert_eq!(
        write_addon_json(b"My Addon", br#"{"title":"Its own"}"#),
        "{\n  \"title\": \"Its own\"\n}",
    );
    assert_eq!(write_addon_json(b"x", br#"{"title":null}"#), "{\n  \"title\": null\n}");
}

#[test]
fn a_description_that_is_no_object_becomes_a_member() {
    assert_eq!(
        write_addon_json(b"My \"Addon\"", b"Plain words"),
        "{\n  \"title\": \"My \\\"Addon\\\"\",\n  \"description\": \"Plain words\"\n}",
    );
    assert_eq!(
        write_addon_json(b"A\xff", b"[1]"),
        "{\n  \"title\": \"A\u{fffd}\",\n  \"description\": \"[1]\"\n}",
    );
    assert_eq!(write_addon_json(b"\xfe", b"{}"), "{\n  \"title\": \"\u{fffd}\"\n}");
}

#[test]
fn errors_tell_what_went_wrong() {
    let path = OsPath::new(Platform::Unix, b"out".to_vec()).join(b"a");
    assert_eq!(gma_err("words".to_string()).message(), "words");
    assert_eq!(
        entry_truncated(IoFailure::end_of_file(), &path).message(),
        "GMA is truncated, entry \"out/a\" is cut short",
    );
    let failure = || IoFailure { unexpected_eof: false, message: "Denied".to_string() };
    assert_eq!(
        entry_truncated(failure(), &path).message(),
        "reading GMA entry data \"out/a\": Denied",
    );
    assert_eq!(message(map_io::<()>(Err(failure()), "reading x")), "reading x: Denied");
    assert_eq!(message(map_io(Ok(5), "reading x")), "fine");
    assert_eq!(
        message(map_io::<()>(Err(IoFailure::end_of_file()), "reading x")),
        "reading x: unexpected end of file, GMA is truncated",
    );
    assert!(finish_failed_writes(0).is_ok());
    assert_eq!(
        message(finish_failed_writes(12)),
        "extracting GMA entries: 12 files failed to write",
    );
    let error = FastGmadError::io(failure(), "creating directory", Some(&path));
    assert_eq!(error.message(), "creating directory \"out/a\": Denied");
}

#[test]
fn what_is_packed_is_read_again() {
    let files: [(&[u8], &[u8]); 4] = [(b"a", b"one"), (b"b/c", b""), (b"\xff", b"three"), (b"a", b"4")];
    let mut data = head(3, &["req"]);
    data.extend_from_slice(&index(&files.map(|(name, contents)| (name, contents.len() as u64))));
    let start = data.len();
    for (_, contents) in files {
        data.extend_from_slice(contents);
    }
    let mut r = reader(&data);
    read_header(&mut r).unwrap();
    let entries: Vec<GmaEntry> = read_index(&conf(), &mut r).unwrap();
    assert_eq!(r.position(), start);
    for (entry, (_, contents)) in entries.iter().zip(files) {
        let from = start + entry.offset as usize;
        assert_eq!(&data[from..from + entry.size as usize], contents);
    }
}

#[test]
fn the_places_of_bad_names_are_kept() {
    let paths = |platform, names: &[&[u8]]| -> Vec<String> {
        let mut conf = ExtractGmaConfig::default_for(platform, None);
        conf.out = OsPath::new(platform, b"out".to_vec());
        let data = index(&names.iter().map(|name| (*name, 1)).collect::<Vec<_>>());
        let entries = read_index(&conf, &mut reader(&data)).unwrap();
        entries.iter().map(|e| e.path.display()).collect()
    };
    assert_eq!(
        paths(Platform::Unix, &[b"../x", b"badnames/0.unk", b"badnames/0.unk", b"badnames//1.unk"]),
        ["out/badnames/0.unk", "out/badnames/1.unk", "out/badnames/2.unk", "out/badnames/3.unk"],
    );
    assert_eq!(
        paths(Platform::Unix, &[b"badnames/0.unk", b"./badnames/1.unk", b"", b"badnames/3.unk", b""]),
        [
            "out/badnames/0.unk",
            "out/./badnames/1.unk",
            "out/badnames/2.unk",
            "out/badnames/3.unk",
            "out/badnames/4.unk",
        ],
    );
    assert_eq!(
        paths(Platform::Windows, &[b"", b"BadNames/0.UNK"]),
        ["out\\badnames\\0.unk", "out\\badnames\\1.unk"],
    );
}

#[test]
fn an_older_version_is_told_as_soon_as_it_is_there() {
    assert_eq!(older_version(b""), None);
    assert_eq!(older_version(b"GMAD"), None);
    assert_eq!(older_version(b"GMAD\x00"), Some(0));
    assert_eq!(older_version(b"GMAD\x02and more"), Some(2));
    assert_eq!(older_version(b"GMAD\x03"), None);
    assert_eq!(older_version(b"GMAD\x04"), None);
    assert_eq!(older_version(b"GMAX\x02"), None);
}

#[test]
fn strings_are_escaped_where_they_need_it() {
    assert_eq!(
        write_addon_json("a\"b\\c/\u{7f}\u{e9}".as_bytes(), b"\x08\t\n\x0c\r\x01\x1f"),
        "{\n  \"title\": \"a\\\"b\\\\c/\u{7f}\u{e9}\",\n  \"description\": \"\\b\\t\\n\\f\\r\\u0001\\u001f\"\n}",
    );
    assert_eq!(write_addon_json(b"\x1b\"", b"{}"), "{\n  \"title\": \"\\u001b\\\"\"\n}");
}

#[test]
fn entries_below_a_verbatim_folder_are_spelled_anew() {
    let mut conf = ExtractGmaConfig::default_for(Platform::Windows, None);
    conf.out = OsPath::new(Platform::Windows, br"\\?\D:\out\".to_vec());
    let data = index(&[(b"a/./b", 1), (b"../x", 2), (b"badnames/0.unk", 3), (b"CON", 4), (br"c\d", 5)]);
    let entries = read_index(&conf, &mut reader(&data)).unwrap();
    let paths: Vec<_> = entries.iter().map(|e| e.path.to_bytes()).collect();
    assert_eq!(
        paths,
        [
            br"\\?\D:\out\a\b".to_vec(),
            br"\\?\D:\out\badnames\0.unk".to_vec(),
            br"\\?\D:\out\badnames\1.unk".to_vec(),
            br"\\?\D:\out\badnames\2.unk".to_vec(),
            br"\\?\D:\out\c\d".to_vec(),
        ],
    );
    let dirs: Vec<_> = create_output_dirs(&entries).iter().map(|d| d.to_bytes()).collect();
    assert_eq!(
        dirs,
        [
            br"\\?\D:\out\a".to_vec(),
            br"\\?\D:\out\badnames".to_vec(),
            br"\\?\D:\out\c".to_vec(),
        ],
    );
}
