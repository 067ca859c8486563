use std::path::{Path, PathBuf};
use trace::download::{
    ensure_gz_extension, resolve_single_output, run_download, RemoteKind, Source, Step, Survey,
    SurveyError, DEFAULT_COMPRESS_THRESHOLD,
};
use trace::remote::{
    classify_remote, kind_command_text, list_command_text, list_query, list_remote_dir,
    parse_find_printf_output, run_list, stat_command_text, stat_remote_file, FindError, PathKind,
    RemoteFileInfo, SshUrl, SshUrlError, StatError,
};
use trace::size::format_size;

// URLs

#[test]
fn test_ssh_url_parse_valid() {
    let url = SshUrl::parse("ssh://myhost:/data/traces/trace.json").unwrap();
    assert_eq!(url.host, "myhost");
    assert_eq!(url.remote_path, "/data/traces/trace.json");
}

#[test]
fn test_ssh_url_parse_host_alias() {
    let url = SshUrl::parse("ssh://runpod_b200:/home/user/trace.json").unwrap();
    assert_eq!(url.host, "runpod_b200");
    assert_eq!(url.remote_path, "/home/user/trace.json");
}

#[test]
fn test_ssh_url_parse_missing_prefix() {
    assert!(SshUrl::parse("http://host:/path").is_err());
}

#[test]
fn test_ssh_url_parse_missing_colon() {
    assert!(SshUrl::parse("ssh://host/path").is_err());
}

#[test]
fn test_ssh_url_parse_empty_host() {
    assert!(SshUrl::parse("ssh://:/path").is_err());
}

#[test]
fn test_ssh_url_parse_empty_path() {
    assert!(SshUrl::parse("ssh://host:").is_err());
}

#[test]
fn test_ssh_url_to_scp_source() {
    let url = SshUrl {
        host: "myhost".to_string(),
        remote_path: "/data/trace.json".to_string(),
    };
    assert_eq!(url.to_scp_source(), "myhost:/data/trace.json");
}

#[test]
fn url_errors_name_what_is_missing() {
    assert_eq!(SshUrl::parse("http://host:/path"), Err(SshUrlError::MissingPrefix));
    assert_eq!(SshUrl::parse("ssh://host/path"), Err(SshUrlError::MissingColon));
    assert_eq!(SshUrl::parse("ssh://:/path"), Err(SshUrlError::EmptyHost));
    assert_eq!(SshUrl::parse("ssh://host:"), Err(SshUrlError::EmptyPath));
    // The host ends at the first colon.
    let url = SshUrl::parse("ssh://a:b:c").unwrap();
    assert_eq!((url.host.as_str(), url.remote_path.as_str()), ("a", "b:c"));
    // A URL without host and path lacks the colon first.
    assert_eq!(SshUrl::parse("ssh://"), Err(SshUrlError::MissingColon));
}

#[test]
fn url_reads_back_from_its_scp_source() {
    let url = SshUrl::parse("ssh://gpu-box:~/traces/x.json").unwrap();
    let again = SshUrl::parse(&format!("ssh://{}", url.to_scp_source())).unwrap();
    assert_eq!(again, url);
}

// Sizes

#[test]
fn test_format_size_bytes() {
    assert_eq!(format_size(500), "500 B");
}

#[test]
fn test_format_size_kb() {
    assert_eq!(format_size(2048), "2.0 KB");
}

#[test]
fn test_format_size_mb() {
    assert_eq!(format_size(1_500_000), "1.4 MB");
}

#[test]
fn test_format_size_gb() {
    assert_eq!(format_size(2_147_483_648), "2.0 GB");
}

fn double_size(bytes: u64) -> String {
    let kb: u64 = 1024;
    let mb = 1024 * kb;
    let gb = 1024 * mb;
    if bytes >= gb {
        format!("{:.1} GB", bytes as f64 / gb as f64)
    } else if bytes >= mb {
        format!("{:.1} MB", bytes as f64 / mb as f64)
    } else if bytes >= kb {
        format!("{:.1} KB", bytes as f64 / kb as f64)
    } else {
        format!("{} B", bytes)
    }
}

#[test]
fn sizes_are_those_of_double_arithmetic() {
    let mut sizes: Vec<u64> = vec![0, 1, 1023, 1024, 1025, 1075, 1076, 1126, 1127, u64::MAX];
    for shift in 10..64 {
        for delta in 0..3 {
            sizes.push((1u64 << shift) + delta);
            sizes.push((1u64 << shift) - 1 - delta);
            sizes.push((1u64 << shift) + (1u64 << (shift - 2)) + delta);
        }
    }
    // Ties at a quarter: 0.25 goes down to the even digit, 0.75 up.
    for k in 1..1000u64 {
        sizes.push(k * 1024 + 256);
        sizes.push(k * 1024 + 768);
        sizes.push(k * 1024 * 1024 + 256 * 1024);
        sizes.push(k * 1024 * 1024 * 1024 + 768 * 1024 * 1024);
    }
    let mut x: u64 = 0x9E37_79B9_7F4A_7C15;
    for i in 0..20000u32 {
        x = x.wrapping_mul(6364136223846793005).wrapping_add(1442695040888963407);
        sizes.push(x >> (i % 54));
    }
    for size in sizes {
        assert_eq!(format_size(size), double_size(size), "{}", size);
    }
}

// Listings

#[test]
fn test_parse_find_printf_single() {
    let output = "1073741824\t2026-03-20 14:30\t/data/trace.json\n";
    let files = parse_find_printf_output(output).unwrap();
    assert_eq!(files.len(), 1);
    assert_eq!(files[0].path, "/data/trace.json");
    assert_eq!(files[0].size_bytes, 1_073_741_824);
    assert_eq!(files[0].modified, "2026-03-20 14:30");
}

#[test]
fn test_parse_find_printf_output() {
    let output = "1024\t2026-03-20 14:30\t/data/trace1.json\n5678\t2026-03-19 10:00\t/data/trace2.json.gz\n";
    let files = parse_find_printf_output(output).unwrap();
    assert_eq!(files.len(), 2);
    assert_eq!(files[0].path, "/data/trace1.json");
    assert_eq!(files[0].size_bytes, 1024);
    assert_eq!(files[1].path, "/data/trace2.json.gz");
    assert_eq!(files[1].size_bytes, 5678);
}

#[test]
fn test_parse_find_printf_output_empty() {
    let files = parse_find_printf_output("").unwrap();
    assert!(files.is_empty());
}

#[test]
fn find_output_with_odd_lines() {
    // Blank lines are skipped, a carriage return at the end of a line is dropped, and a path may
    // hold tabs.
    let files = parse_find_printf_output("\n  \t \n+7\tm\t/a\tb\r\n\u{3000}\n").unwrap();
    assert_eq!(files.len(), 1);
    assert_eq!(files[0].size_bytes, 7);
    assert_eq!(files[0].modified, "m");
    assert_eq!(files[0].path, "/a\tb");
    match parse_find_printf_output("1\tm\t/a\n1 2\n") {
        Err(FindError::UnexpectedLine(line)) => assert_eq!(line, "1 2"),
        other => panic!("{:?}", other),
    }
    match parse_find_printf_output("1\tm\n") {
        Err(FindError::UnexpectedLine(line)) => assert_eq!(line, "1\tm"),
        other => panic!("{:?}", other),
    }
    match parse_find_printf_output("x\tm\t/a\n") {
        Err(FindError::InvalidSize(size)) => assert_eq!(size, "x"),
        other => panic!("{:?}", other),
    }
    assert!(matches!(
        parse_find_printf_output("18446744073709551616\tm\t/a\n"),
        Err(FindError::InvalidSize(_))
    ));
}

#[test]
fn listing_reads_back_what_find_prints() {
    let given = [(0u64, "2026-01-01 00:00", "/a"), (u64::MAX, "2025-12-31 23:59", "/b c")];
    let mut output = String::new();
    for (size, modified, path) in given {
        output.push_str(&format!("{}\t{}\t{}\n", size, modified, path));
    }
    let files = parse_find_printf_output(&output).unwrap();
    assert_eq!(files.len(), 2);
    for (f, (size, modified, path)) in files.iter().zip(given) {
        assert_eq!((f.size_bytes, f.modified.as_str(), f.path.as_str()), (size, modified, path));
    }
}

#[test]
fn directories_are_listed_newest_first() {
    let output = "1\t2026-03-19 10:00\t/old\n2\t2026-03-20 14:30\t/new1\n3\t2026-03-20 14:30\t/new2\n";
    let files = list_remote_dir(output).unwrap();
    let paths: Vec<&str> = files.iter().map(|f| f.path.as_str()).collect();
    // Files of the same time keep their order.
    assert_eq!(paths, ["/new1", "/new2", "/old"]);
    assert!(list_remote_dir("bad").is_err());
}

#[test]
fn single_file_is_the_last_listed() {
    let f = stat_remote_file("1\tm\t/a\n2\tm\t/b\n").unwrap();
    assert_eq!(f.path, "/b");
    assert!(matches!(stat_remote_file("\n"), Err(StatError::NotFound)));
    assert!(matches!(stat_remote_file("x"), Err(StatError::Find(FindError::UnexpectedLine(_)))));
}

#[test]
fn list_prints_a_table() {
    let lines = run_list("2048\t2026-03-19 10:00\t/t/a.json\n500\t2026-03-20 14:30\t/t/b.json.gz\n").unwrap();
    let expected = vec![
        format!("{:<12} {:<20} Path", "Size", "Modified"),
        "-".repeat(72),
        format!("{:<12} {:<20} {}", "500 B", "2026-03-20 14:30", "/t/b.json.gz"),
        format!("{:<12} {:<20} {}", "2.0 KB", "2026-03-19 10:00", "/t/a.json"),
    ];
    assert_eq!(lines, expected);
    // Nothing is printed where there are no files.
    assert!(run_list("").unwrap().is_empty());
    assert!(run_list("oops").is_err());
}

#[test]
fn commands_quote_the_path() {
    assert_eq!(kind_command_text("/p q"), r"find -L '/p q' -maxdepth 0 -printf '%y\n'");
    assert_eq!(
        stat_command_text("/p"),
        r"find -L '/p' -maxdepth 0 -printf '%s\t%TY-%Tm-%Td %TH:%TM\t%p\n'"
    );
    assert_eq!(
        list_command_text("/d"),
        r"find -L '/d' -type f \( -name '*.json' -o -name '*.json.gz' \) -printf '%s\t%TY-%Tm-%Td %TH:%TM\t%p\n'"
    );
}

#[test]
fn listing_asks_the_host_of_the_url() {
    let q = list_query("ssh://h:/d e").unwrap();
    assert_eq!((q.host.as_str(), q.command), ("h", list_command_text("/d e")));
    assert_eq!(list_query("/d").err(), Some(SshUrlError::MissingPrefix));
    assert_eq!(list_query("ssh://h").err(), Some(SshUrlError::MissingColon));
}

#[test]
fn kinds_are_told_by_a_letter() {
    assert_eq!(classify_remote("d\n"), Ok(PathKind::Dir));
    assert_eq!(classify_remote(" f \r\n"), Ok(PathKind::File));
    assert_eq!(classify_remote("l\n"), Err("l".to_string()));
    assert_eq!(classify_remote(""), Err(String::new()));
}

// Downloads

#[test]
fn test_ensure_gz_extension() {
    assert_eq!(PathBuf::from(ensure_gz_extension("trace.json")), PathBuf::from("trace.json.gz"));
    assert_eq!(
        PathBuf::from(ensure_gz_extension("/data/dir/file.json")),
        PathBuf::from("/data/dir/file.json.gz")
    );
}

#[test]
fn gz_extension_is_added_once() {
    for p in ["trace.json", "a/b.tar", ".gz", "x", "a/..", "b.gz", "dir.gz/x", "", "a/", "a/.gz", "b.gz/"] {
        let once = ensure_gz_extension(p);
        assert_eq!(ensure_gz_extension(&once), once, "{}", p);
    }
    assert_eq!(ensure_gz_extension("b.gz"), "b.gz");
    // A path that ends so already stays, though its file has no extension.
    assert_eq!(ensure_gz_extension(".gz"), ".gz");
    assert_eq!(ensure_gz_extension("a/.gz"), "a/.gz");
    // And so does one whose file has the extension.
    assert_eq!(ensure_gz_extension("b.gz/"), "b.gz/");
    // Where the path ends with a slash the suffix starts a new component.
    assert_eq!(ensure_gz_extension("a/"), "a/.gz");
    assert_eq!(ensure_gz_extension("dir.gz/x"), "dir.gz/x.gz");
}

#[test]
fn test_resolve_single_output_rename() {
    let result = resolve_single_output("/remote/a.json", "local/b.json", false);
    assert_eq!(PathBuf::from(result), PathBuf::from("local/b.json"));
}

#[test]
fn test_resolve_single_output_trailing_slash() {
    let result = resolve_single_output("/remote/a.json", "local/dir/", false);
    assert_eq!(PathBuf::from(result), PathBuf::from("local/dir/a.json"));
}

#[test]
fn single_output_into_a_directory() {
    assert_eq!(resolve_single_output("/remote/a.json", "local", true), "local/a.json");
    assert_eq!(resolve_single_output("/remote/a.json", "", true), "a.json");
    // A remote path without a file name is given one.
    assert_eq!(resolve_single_output("/", "local/", false), "local/trace.json");
    assert_eq!(resolve_single_output("..", "local", true), "local/trace.json");
}

fn file(path: &str, size_bytes: u64) -> RemoteFileInfo {
    RemoteFileInfo { path: path.to_string(), size_bytes, modified: String::new() }
}

fn source(host: &str, path: &str, kind: RemoteKind) -> Source {
    Source { url: SshUrl { host: host.to_string(), remote_path: path.to_string() }, kind }
}

fn shown(steps: &[Step]) -> Vec<String> {
    steps
        .iter()
        .map(|s| match s {
            Step::MakeDir(dir) => format!("mkdir {}", dir),
            Step::Ssh { host, command } => format!("ssh {} {}", host, command),
            Step::Scp { source, dest } => format!("scp {} {}", source, dest),
            Step::Refuse(path) => format!("refuse {}", path),
        })
        .collect()
}

#[test]
fn single_file_is_renamed() {
    let sources = vec![source("h", "/r/a.json", RemoteKind::File(file("/r/a.json", 10)))];
    let steps = run_download(&sources, "out/b.json", false, false, DEFAULT_COMPRESS_THRESHOLD);
    assert_eq!(shown(&steps), ["mkdir out", "scp h:/r/a.json out/b.json"]);
    let steps = run_download(&sources, "out", true, false, DEFAULT_COMPRESS_THRESHOLD);
    assert_eq!(shown(&steps), ["mkdir out", "scp h:/r/a.json out/a.json"]);
}

#[test]
fn large_files_are_compressed_first() {
    let big = DEFAULT_COMPRESS_THRESHOLD + 1;
    let sources = vec![source("h", "/r/a.json", RemoteKind::File(file("/r/a.json", big)))];
    let steps = run_download(&sources, "b.json", false, false, DEFAULT_COMPRESS_THRESHOLD);
    assert_eq!(
        shown(&steps),
        ["ssh h gzip -kf '/r/a.json'", "mkdir ", "scp h:/r/a.json.gz b.json.gz"]
    );
    // Not where that is switched off, nor at the threshold, nor twice.
    let steps = run_download(&sources, "b.json", false, true, DEFAULT_COMPRESS_THRESHOLD);
    assert_eq!(shown(&steps), ["mkdir ", "scp h:/r/a.json b.json"]);
    let steps = run_download(&sources, "b.json", false, false, big);
    assert_eq!(shown(&steps), ["mkdir ", "scp h:/r/a.json b.json"]);
    let sources = vec![source("h", "/r/a.gz", RemoteKind::File(file("/r/a.gz", big)))];
    let steps = run_download(&sources, "b", false, false, 1);
    assert_eq!(shown(&steps), ["mkdir ", "scp h:/r/a.gz b"]);
    assert_eq!(DEFAULT_COMPRESS_THRESHOLD, 500 * 1024 * 1024);
}

#[test]
fn directories_keep_their_layout() {
    let files = vec![file("/r/d/x/a.json", 1), file("/r/d/b.json", 1), file("/else/c.json", 1)];
    let sources = vec![source("h", "/r/d", RemoteKind::Dir(files))];
    let steps = run_download(&sources, "out", false, false, 5);
    assert_eq!(
        shown(&steps),
        [
            "mkdir out",
            "mkdir out/x",
            "scp h:/r/d/x/a.json out/x/a.json",
            "mkdir out",
            "scp h:/r/d/b.json out/b.json",
            "mkdir out/else",
            "scp h:/else/c.json out/else/c.json",
        ]
    );
}

#[test]
fn several_sources_go_into_a_directory() {
    let sources = vec![
        source("h1", "/a.json", RemoteKind::File(file("/a.json", 1))),
        source("h2", "/d", RemoteKind::Dir(vec![])),
        source("h2", "/b.json", RemoteKind::File(file("/b.json", 9))),
    ];
    let steps = run_download(&sources, "o/", false, false, 8);
    assert_eq!(
        shown(&steps),
        [
            "mkdir o/",
            "mkdir o",
            "scp h1:/a.json o/a.json",
            "ssh h2 gzip -kf '/b.json'",
            "mkdir o",
            "scp h2:/b.json.gz o/b.json.gz",
        ]
    );
    // A path that names no file stops the download where it comes.
    let sources = vec![
        source("h", "/a", RemoteKind::File(file("/a", 1))),
        source("h", "/..", RemoteKind::File(file("/..", 1))),
        source("h", "/b", RemoteKind::File(file("/b", 1))),
    ];
    let steps = run_download(&sources, "o", false, false, 8);
    assert_eq!(shown(&steps), ["mkdir o", "mkdir o", "scp h:/a o/a", "refuse /.."]);
}

#[test]
fn survey_asks_for_kinds_and_files() {
    assert!(Survey::new(vec![]).is_none());
    let mut survey = Survey::new(vec!["ssh://h:/a".to_string(), "ssh://g:/d".to_string()]).unwrap();
    let answers = ["f\n", "5\tm\t/a\n", "d\n", "1\t2\t/d/x\n1\t3\t/d/y\n"];
    let mut asked = Vec::new();
    for answer in answers {
        let q = survey.next().unwrap().unwrap();
        asked.push((q.host, q.command));
        survey.answer(answer).unwrap();
    }
    assert!(survey.next().unwrap().is_none());
    assert_eq!(asked[0], ("h".to_string(), kind_command_text("/a")));
    assert_eq!(asked[1], ("h".to_string(), stat_command_text("/a")));
    assert_eq!(asked[2], ("g".to_string(), kind_command_text("/d")));
    assert_eq!(asked[3], ("g".to_string(), list_command_text("/d")));
    let sources = survey.finish();
    assert_eq!(sources.len(), 2);
    match &sources[0].kind {
        RemoteKind::File(f) => assert_eq!((f.path.as_str(), f.size_bytes), ("/a", 5)),
        other => panic!("{:?}", other),
    }
    match &sources[1].kind {
        RemoteKind::Dir(files) => {
            let paths: Vec<&str> = files.iter().map(|f| f.path.as_str()).collect();
            assert_eq!(paths, ["/d/y", "/d/x"]);
        }
        other => panic!("{:?}", other),
    }
    assert_eq!(sources[1].url.host, "g");
}

#[test]
fn survey_stops_at_what_is_wrong() {
    let survey = Survey::new(vec!["nope".to_string()]).unwrap();
    assert_eq!(survey.next().err(), Some(SshUrlError::MissingPrefix));
    let fresh = || Survey::new(vec!["ssh://h:/a".to_string()]).unwrap();
    match fresh().answer("l\n") {
        Err(SurveyError::Kind { url, got }) => {
            assert_eq!((url.remote_path.as_str(), got.as_str()), ("/a", "l"))
        }
        other => panic!("{:?}", other),
    }
    let mut survey = fresh();
    survey.answer("f").unwrap();
    match survey.answer("") {
        Err(SurveyError::NotFound(url)) => assert_eq!(url.remote_path, "/a"),
        other => panic!("{:?}", other),
    }
    let mut survey = fresh();
    survey.answer("d").unwrap();
    assert!(matches!(survey.answer("?"), Err(SurveyError::Find(_))));
    match Survey::new(vec!["x".to_string()]).unwrap().answer("f") {
        Err(SurveyError::Url(e)) => assert_eq!(e, SshUrlError::MissingPrefix),
        other => panic!("{:?}", other),
    }
}

#[test]
fn every_file_is_copied_where_the_standard_library_puts_it() {
    let dir = "/r/d";
    for name in ["/r/d/a.json", "/r/d/x/../b.json", "/r/dd/c.json", "/r/d"] {
        let sources = vec![source("h", dir, RemoteKind::Dir(vec![file(name, 0)]))];
        let steps = run_download(&sources, "out", false, true, 0);
        let relative = name.strip_prefix(dir).unwrap_or(name).trim_start_matches('/');
        let local = Path::new("out").join(relative);
        let last = shown(&steps).pop().unwrap();
        assert_eq!(last, format!("scp h:{} {}", name, local.display()));
    }
}
