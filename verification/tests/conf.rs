use fastgmad::command::bin;
use fastgmad::conf::{
    default_threads_for, get_default_threads, parse_count, ExtractGmaConfig,
    ExtractGmadIn, ExtractJob, NonZeroUsize, PrintHelp, DEFAULT_MEMORY,
};
use fastgmad::path::Platform;

#[test]
fn default_thread_count_stays_conservative() {
    assert_eq!(default_threads_for(1).get(), 1);
    assert_eq!(default_threads_for(2).get(), 1);
    assert_eq!(default_threads_for(3).get(), 1);
    assert_eq!(default_threads_for(4).get(), 2);
    assert_eq!(default_threads_for(8).get(), 6);
    assert_eq!(default_threads_for(16).get(), 12);
    assert_eq!(default_threads_for(128).get(), 32);

    let mut prev = 0;
    for cores in 1..=512usize {
        let threads = default_threads_for(cores).get();
        assert!(threads >= 1, "{cores} cores produced {threads} threads");
        assert!(threads <= 32, "{cores} cores produced {threads} threads");
        assert!(threads <= cores.saturating_sub(2).max(1), "{cores} cores produced {threads} threads");
        assert!(threads >= prev, "thread count dropped from {prev} to {threads} at {cores} cores");
        prev = threads;
    }
}

#[test]
fn unknown_parallelism_counts_as_one_thread() {
    assert_eq!(get_default_threads(None).get(), 1);
    assert_eq!(get_default_threads(Some(12)).get(), 9);
    assert_eq!(default_threads_for(0).get(), 1);
}

fn list(args: &[&str]) -> Vec<Vec<u8>> {
    args.iter().map(|arg| arg.as_bytes().to_vec()).collect()
}

fn defaults() -> ExtractGmaConfig {
    ExtractGmaConfig::default_for(Platform::Unix, Some(8))
}

fn parse(args: &[&str]) -> Result<ExtractJob, PrintHelp> {
    ExtractGmaConfig::from_args(defaults(), &list(args))
}

fn complaint(args: &[&str]) -> &'static str {
    parse(args).unwrap_err().0.unwrap()
}

#[test]
fn defaults_have_no_output_folder() {
    let config = defaults();
    assert!(config.out.is_empty());
    assert_eq!(config.max_io_threads.get(), 6);
    assert_eq!(config.max_io_memory_usage.get(), 256 << 20);
    assert_eq!(DEFAULT_MEMORY, 256 << 20);
}

#[test]
fn arguments_set_everything() {
    let job = parse(&[
        "-max-io-threads", "3", "-max-io-memory-usage", "+4096", "-out", "some/folder", "-file", "a.gma",
    ])
    .unwrap();
    assert_eq!(job.config.max_io_threads.get(), 3);
    assert_eq!(job.config.max_io_memory_usage.get(), 4096);
    assert_eq!(job.config.out.to_bytes(), b"some/folder");
    assert!(matches!(job.input, ExtractGmadIn::File(path) if path.to_bytes() == b"a.gma"));
    assert!(!job.out_is_default);
}

#[test]
fn later_arguments_win() {
    let job = parse(&["-file", "a.gma", "-out", "x", "-out", "y", "-stdin"]).unwrap();
    assert_eq!(job.config.out.to_bytes(), b"y");
    assert!(matches!(job.input, ExtractGmadIn::Stdin));
}

#[test]
fn output_folder_follows_from_the_file() {
    let job = parse(&["-file", "dir/addon.v2.gma"]).unwrap();
    assert_eq!(job.config.out.to_bytes(), b"dir/addon.v2");
    assert!(job.out_is_default);
    let job = || parse(&["-file", "a.gma"]).unwrap();
    assert!(job().confirm(false, false).is_ok());
    let (config, input) = job().confirm(true, true).unwrap();
    assert_eq!(config.out.to_bytes(), b"a");
    assert!(matches!(input, ExtractGmadIn::File(path) if path.to_bytes() == b"a.gma"));
    assert_eq!(
        job().confirm(true, false).unwrap_err().0.unwrap(),
        "Default output path exists as a file. Please specify an output folder with -out",
    );
    assert!(parse(&["-file", "a.gma", "-out", "b"]).unwrap().confirm(true, false).is_ok());
}

#[test]
fn bad_arguments_are_refused() {
    let threads = "Expected integer greater than zero for -max-io-threads";
    assert_eq!(complaint(&["-max-io-threads"]), threads);
    assert_eq!(complaint(&["-max-io-threads", "0"]), threads);
    assert_eq!(complaint(&["-max-io-threads", "-1"]), threads);
    assert_eq!(complaint(&["-max-io-threads", "four"]), threads);
    let memory = "Expected integer greater than zero for -max-io-memory-usage";
    assert_eq!(complaint(&["-max-io-memory-usage", ""]), memory);
    assert_eq!(complaint(&["-max-io-memory-usage", "18446744073709551616"]), memory);
    assert_eq!(complaint(&["-out"]), "Expected a value after -out");
    assert_eq!(complaint(&["-out", ""]), "Expected a value after -out");
    assert_eq!(complaint(&["-file", ""]), "Expected a value after -file");
    assert_eq!(complaint(&["-verbose"]), "Unknown argument '-verbose'");
    assert_eq!(complaint(&["-zäh"]), "Unknown argument '-zäh'");
    assert_eq!(complaint(&["-out", "x"]), "Missing -file (the addon you want to extract)");
    assert_eq!(complaint(&[]), "Missing -file (the addon you want to extract)");
    assert_eq!(complaint(&["-stdin"]), "Missing -out (the folder to extract to)");
    let not_utf8 = vec![vec![0x2d, 0xff]];
    let help = ExtractGmaConfig::from_args(defaults(), &not_utf8).unwrap_err();
    assert_eq!(help.0.unwrap(), "Non-UTF-8 argument");
}

#[test]
fn values_need_not_be_text() {
    let args = vec![b"-out".to_vec(), vec![0xff, 0xfe], b"-stdin".to_vec()];
    let job = ExtractGmaConfig::from_args(defaults(), &args).unwrap();
    assert_eq!(job.config.out.to_bytes(), [0xff, 0xfe]);
}

#[test]
fn counts_are_positive_numbers() {
    assert_eq!(parse_count(b"1").map(|n| n.get()), Some(1));
    assert_eq!(parse_count(b"+0007").map(|n| n.get()), Some(7));
    assert_eq!(parse_count(b"+").map(|n| n.get()), None);
    assert_eq!(parse_count(b"").map(|n| n.get()), None);
    assert_eq!(parse_count(b"000").map(|n| n.get()), None);
    assert_eq!(parse_count(b"1 ").map(|n| n.get()), None);
    assert_eq!(parse_count(b"++1").map(|n| n.get()), None);
    assert_eq!(
        parse_count(usize::MAX.to_string().as_bytes()).map(|n| n.get()),
        Some(usize::MAX),
    );
    assert!(NonZeroUsize::new(0).is_none());
}

#[test]
fn counts_agree_with_std() {
    for text in ["0", "1", "+1", "-1", "", "+", "18446744073709551615", "18446744073709551616", "99999999999999999999", "1_0", "0x1", "00012"] {
        let expected = text.parse::<std::num::NonZeroUsize>().ok().map(|n| n.get());
        assert_eq!(parse_count(text.as_bytes()).map(|n| n.get()), expected, "{text}");
    }
}

#[test]
fn an_archive_by_itself_goes_next_to_it() {
    let job = bin(defaults(), list(&["dir/Addon.GMA", "-ignored"])).unwrap();
    assert_eq!(job.config.out.to_bytes(), b"dir/Addon");
    assert!(matches!(job.input, ExtractGmadIn::File(path) if path.to_bytes() == b"dir/Addon.GMA"));
    assert!(!job.out_is_default);
    assert_eq!(job.config.max_io_threads.get(), 6);
}

#[test]
fn commands_are_told_apart() {
    assert!(bin(defaults(), vec![]).unwrap_err().0.is_none());
    assert_eq!(bin(defaults(), list(&["create"])).unwrap_err().0.unwrap(), "Unknown command");
    assert_eq!(bin(defaults(), list(&[".gma"])).unwrap_err().0.unwrap(), "Unknown command");
    assert_eq!(
        bin(defaults(), list(&["extract"])).unwrap_err().0.unwrap(),
        "Missing -file (the addon you want to extract)",
    );
    let job = bin(defaults(), list(&["extract", "-file", "a.gma"])).unwrap();
    assert_eq!(job.config.out.to_bytes(), b"a");
    assert!(job.out_is_default);
}

/// All the orders of `items`.
fn orders<'a>(items: &[&'a [&'a str]]) -> Vec<Vec<&'a str>> {
    if items.is_empty() {
        return vec![Vec::new()];
    }
    let mut found = Vec::new();
    for i in 0..items.len() {
        let mut others = items.to_vec();
        let first = others.remove(i);
        for rest in orders(&others) {
            found.push([first, rest.as_slice()].concat());
        }
    }
    found
}

#[test]
fn options_may_come_in_any_order() {
    let groups: [&[&str]; 4] =
        [&["-max-io-threads", "3"], &["-max-io-memory-usage", "77"], &["-out", "folder"], &["-file", "x.gma"]];
    let all = orders(&groups);
    assert_eq!(all.len(), 24);
    for args in all {
        let job = parse(&args).unwrap();
        assert_eq!(job.config.max_io_threads.get(), 3);
        assert_eq!(job.config.max_io_memory_usage.get(), 77);
        assert_eq!(job.config.out.to_bytes(), b"folder");
        assert!(matches!(job.input, ExtractGmadIn::File(path) if path.to_bytes() == b"x.gma"));
        assert!(!job.out_is_default);
    }
}
