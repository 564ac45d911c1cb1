use symbolserver::errors::ErrorKind;
use symbolserver::utils::{
    binsearch_by_key, file_size_format, glob_result, remove_spaces, systemd_fd_from_var, Addr,
    HumanDuration, IgnorePatterns, MAX_PATTERN_LEN,
};

#[test]
fn test_binsearch() {
    let seq = [0u32, 2, 4, 6, 8, 10];
    let m = binsearch_by_key(&seq[..], 5, |&x| x);
    assert_eq!(*m.unwrap(), 4);
}

#[test]
fn test_binsearch_exact_key() {
    let seq = [0u32, 2, 4, 6, 8, 10];
    assert_eq!(*binsearch_by_key(&seq[..], 6, |&x| x).unwrap(), 6);
    assert_eq!(*binsearch_by_key(&seq[..], 0, |&x| x).unwrap(), 0);
    assert_eq!(*binsearch_by_key(&seq[..], 10, |&x| x).unwrap(), 10);
}

#[test]
fn test_binsearch_above_all_keys() {
    let seq = [0u32, 2, 4, 6, 8, 10];
    assert_eq!(*binsearch_by_key(&seq[..], 1000, |&x| x).unwrap(), 10);
}

#[test]
fn test_binsearch_below_all_keys() {
    let seq = [3u32, 5, 7];
    assert!(binsearch_by_key(&seq[..], 2, |&x| x).is_none());
}

#[test]
fn test_binsearch_empty() {
    let seq: [u32; 0] = [];
    assert!(binsearch_by_key(&seq[..], 2, |&x| x).is_none());
}

#[test]
fn test_binsearch_equal_keys_gives_last() {
    let seq = [(1u32, 'a'), (3, 'b'), (3, 'c'), (7, 'd')];
    assert_eq!(binsearch_by_key(&seq[..], 3, |x| x.0).unwrap().1, 'c');
    assert_eq!(binsearch_by_key(&seq[..], 4, |x| x.0).unwrap().1, 'c');
}

#[test]
fn test_addr_parse_hex() {
    assert_eq!(Addr::parse("0x2090"), Some(Addr(0x2090)));
    assert_eq!(Addr::parse("0xFFfe"), Some(Addr(0xfffe)));
    assert_eq!(Addr::parse("0xffffffffffffffff"), Some(Addr(u64::MAX)));
}

#[test]
fn test_addr_parse_decimal() {
    assert_eq!(Addr::parse("8336"), Some(Addr(8336)));
    assert_eq!(Addr::parse("5"), Some(Addr(5)));
    assert_eq!(Addr::parse("18446744073709551615"), Some(Addr(u64::MAX)));
}

#[test]
fn test_addr_parse_refused() {
    assert_eq!(Addr::parse(""), None);
    assert_eq!(Addr::parse("0x"), None);
    assert_eq!(Addr::parse("0xg"), None);
    assert_eq!(Addr::parse("12a"), None);
    assert_eq!(Addr::parse("18446744073709551616"), None);
    assert_eq!(Addr::parse("0x10000000000000000"), None);
}

#[test]
fn test_addr_text() {
    assert_eq!(Addr(0x2090).to_text(), "0x2090");
    assert_eq!(Addr(0).to_text(), "0x0");
    assert_eq!(Addr(u64::MAX).to_text(), "0xffffffffffffffff");
    assert_eq!(Addr(255).into_u64(), 255);
}

#[test]
fn test_addr_text_reads_back() {
    for value in [0u64, 1, 15, 16, 0x2090, 0x195A86090, u64::MAX] {
        assert_eq!(Addr::parse(&Addr(value).to_text()), Some(Addr(value)));
    }
}

#[test]
fn test_human_duration() {
    assert_eq!(HumanDuration(0).to_text(), "0 seconds");
    assert_eq!(HumanDuration(-5).to_text(), "0 seconds");
    assert_eq!(HumanDuration(1).to_text(), "1 second");
    assert_eq!(HumanDuration(59).to_text(), "59 seconds");
    assert_eq!(HumanDuration(60).to_text(), "1 minute");
    assert_eq!(HumanDuration(119).to_text(), "1 minute");
    assert_eq!(HumanDuration(120).to_text(), "2 minutes");
    assert_eq!(HumanDuration(3599).to_text(), "59 minutes");
    assert_eq!(HumanDuration(3600).to_text(), "1 hour");
    assert_eq!(HumanDuration(7200).to_text(), "2 hours");
    assert_eq!(HumanDuration(90000).to_text(), "25 hours");
}

#[test]
fn test_make_pattern() {
    assert_eq!(IgnorePatterns::make_pattern("!*.tmp"), (true, "*.tmp".to_string()));
    assert_eq!(IgnorePatterns::make_pattern("*.memdbz"), (false, "*.memdbz".to_string()));
    assert_eq!(IgnorePatterns::make_pattern(""), (false, "".to_string()));
}

#[test]
fn test_is_glob() {
    assert!(IgnorePatterns::is_glob("iOS_*"));
    assert!(IgnorePatterns::is_glob("*.{memdb,memdbz}"));
    assert!(IgnorePatterns::is_glob(""));
    assert!(!IgnorePatterns::is_glob("iOS_[10"));
    assert!(!IgnorePatterns::is_glob("{a,b"));
}

#[test]
fn test_patterns_that_are_no_globs_match_nothing() {
    let mut patterns = IgnorePatterns::new();
    patterns.push("iOS_[10");
    assert!(!patterns.is_match("iOS_[10"));
    assert!(!patterns.is_match("iOS_1"));
}

#[test]
fn test_ignore_patterns_last_match_decides() {
    let mut patterns = IgnorePatterns::new();
    assert!(!patterns.is_match("iOS_10.2.3_14C93.memdbz"));
    patterns.push("iOS_*");
    assert!(patterns.is_match("iOS_10.2.3_14C93.memdbz"));
    assert!(!patterns.is_match("tvOS_10.2.3_14C93.memdbz"));
    patterns.push("!iOS_10.*");
    assert!(!patterns.is_match("iOS_10.2.3_14C93.memdbz"));
    assert!(patterns.is_match("iOS_9.3.0_13E230.memdbz"));
    patterns.push("*_14C93.memdbz");
    assert!(patterns.is_match("iOS_10.2.3_14C93.memdbz"));
}

#[test]
fn test_ignore_patterns_with_given_matches() {
    let mut patterns = IgnorePatterns::new();
    patterns.push("a*");
    patterns.push("!ab*");
    assert!(!patterns.is_match_with(&vec![false, false]));
    assert!(patterns.is_match_with(&vec![true, false]));
    assert!(!patterns.is_match_with(&vec![true, true]));
    assert!(!patterns.is_match_with(&vec![false, true]));
}

#[test]
fn test_remove_spaces() {
    assert_eq!(remove_spaces("1.50 KiB"), "1.50KiB");
    assert_eq!(remove_spaces("  a b  c "), "abc");
    assert_eq!(remove_spaces(""), "");
}

#[test]
fn test_file_size_format() {
    assert_eq!(file_size_format(0), "0B");
    assert_eq!(file_size_format(1536), "1.50KiB");
    assert_eq!(file_size_format(1024 * 1024), "1MiB");
}

#[test]
fn test_systemd_fd() {
    assert_eq!(systemd_fd_from_var(None), Ok(None));
    assert_eq!(systemd_fd_from_var(Some("")), Ok(None));
    assert_eq!(systemd_fd_from_var(Some("0")), Ok(None));
    assert_eq!(systemd_fd_from_var(Some("1")), Ok(Some(3)));
    assert_eq!(systemd_fd_from_var(Some("+1")), Ok(Some(3)));
    assert_eq!(
        systemd_fd_from_var(Some("2")),
        Err(ErrorKind::BadEnvVar("LISTEN_FDS", "Exactly one socket needs to be passed"))
    );
    assert_eq!(
        systemd_fd_from_var(Some("one")),
        Err(ErrorKind::BadEnvVar("LISTEN_FDS", "Not an integer"))
    );
}

#[test]
fn test_glob_that_cannot_be_compiled_is_no_glob() {
    // alternates that are nested more deeply than the matcher compiles
    let deep = format!("{}a{}", "{".repeat(300), "}".repeat(300));
    assert!(!IgnorePatterns::is_glob(&deep));
    assert_eq!(glob_result(&deep, "a"), None);
    let mut patterns = IgnorePatterns::new();
    patterns.push(&deep);
    assert!(!patterns.is_match("a"));

    let nested = "{a,{b,{c,d}}}";
    assert!(IgnorePatterns::is_glob(nested));
    assert_eq!(glob_result(nested, "d"), Some(true));
    assert_eq!(glob_result(nested, "e"), Some(false));
    let mut patterns = IgnorePatterns::new();
    patterns.push(nested);
    assert!(patterns.is_match("b"));
    assert!(!patterns.is_match("e"));
}

#[test]
fn test_glob_length_bound() {
    assert_eq!(MAX_PATTERN_LEN, 4096);
    let longest = "a".repeat(MAX_PATTERN_LEN);
    assert!(IgnorePatterns::is_glob(&longest));
    assert_eq!(glob_result(&longest, &longest), Some(true));
    assert_eq!(glob_result(&longest, "a"), Some(false));
    let too_long = "a".repeat(MAX_PATTERN_LEN + 1);
    assert!(!IgnorePatterns::is_glob(&too_long));
    assert_eq!(glob_result(&too_long, &too_long), None);
    let mut patterns = IgnorePatterns::new();
    patterns.push(&too_long);
    assert!(!patterns.is_match(&too_long));
    // the bound counts characters, not bytes
    let wide = "\u{e9}".repeat(MAX_PATTERN_LEN);
    assert!(IgnorePatterns::is_glob(&wide));
    assert_eq!(glob_result(&wide, &wide), Some(true));
}
