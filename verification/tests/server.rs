use musrv::server::helpers::{
    decoded_album_invalid, normalize_base, parse_album_name, validate_album_name,
    validate_decoded_path, validate_request_path, InputError,
};
use musrv::server::state::{RescanState, ScanAction, ScanOutcome};

#[test]
fn parse_album_name_accepts_simple() {
    let s = parse_album_name("MyAlbum.m3u8".to_string()).unwrap();
    assert_eq!(s, "MyAlbum");
    let s2 = parse_album_name("Another".to_string()).unwrap();
    assert_eq!(s2, "Another");
}

#[test]
fn parse_album_name_rejects_bad() {
    assert!(parse_album_name("".to_string()).is_err());
    assert!(parse_album_name("../hack".to_string()).is_err());
    // nested album paths are allowed now but sanitized
    assert!(parse_album_name("a/b".to_string()).is_ok());
    assert!(parse_album_name(".hidden".to_string()).is_err());
}

#[test]
fn validate_request_path_ok() {
    let p = validate_request_path("Album/song.mp3").unwrap();
    assert_eq!(p, "Album/song.mp3");
}

#[test]
fn validate_request_path_rejects() {
    assert!(validate_request_path("").is_err());
    assert!(validate_request_path("/abs").is_err());
    assert!(validate_request_path("..%2Fescape").is_err());
    assert!(validate_request_path(".hidden/file").is_err());
}

#[test]
fn request_paths_that_are_refused() {
    assert_eq!(validate_request_path("../escape"), Err(InputError::Invalid));
    assert_eq!(validate_request_path("/abs/path"), Err(InputError::Invalid));
    assert_eq!(validate_request_path("a\0b"), Err(InputError::Invalid));
    assert_eq!(validate_request_path("a%00b"), Err(InputError::Invalid));
    assert_eq!(validate_request_path("repo/.git/config"), Err(InputError::Invalid));
    assert_eq!(validate_request_path(".git"), Err(InputError::Invalid));
    assert_eq!(validate_request_path("a/./b"), Err(InputError::Invalid));
    assert_eq!(validate_request_path("a/../b"), Err(InputError::Invalid));
    assert_eq!(validate_request_path("a/Thumbs.db"), Err(InputError::Invalid));
    assert_eq!(validate_request_path("a/desktop.ini"), Err(InputError::Invalid));
    assert_eq!(validate_request_path("/"), Err(InputError::Invalid));
    assert_eq!(validate_request_path("%2Fabs"), Err(InputError::Invalid));
    assert_eq!(validate_request_path("a/%2E%2E/b"), Err(InputError::Invalid));
    assert_eq!(validate_request_path("bad%FFutf8"), Err(InputError::Invalid));
}

#[test]
fn request_paths_that_are_served() {
    assert_eq!(validate_request_path("Album/song one.mp3").unwrap(), "Album/song one.mp3");
    assert_eq!(validate_request_path("Album/song%20one.mp3").unwrap(), "Album/song one.mp3");
    assert_eq!(validate_request_path("a//b").unwrap(), "a//b");
    assert_eq!(validate_request_path("a/b/").unwrap(), "a/b/");
    assert_eq!(validate_request_path("100%").unwrap(), "100%");
    assert_eq!(validate_request_path("100%zz").unwrap(), "100%zz");
    assert_eq!(validate_request_path("a+b").unwrap(), "a+b");
    assert_eq!(validate_request_path("%C3%BCber/x.mp3").unwrap(), "über/x.mp3");
    assert_eq!(validate_request_path("a..b/c").unwrap(), "a..b/c");
}

#[test]
fn decoded_paths_are_checked_as_they_stand() {
    assert_eq!(validate_decoded_path("Album/song one.mp3".to_string()).unwrap(), "Album/song one.mp3");
    assert_eq!(validate_decoded_path("a%2Fb".to_string()).unwrap(), "a%2Fb");
    assert_eq!(validate_decoded_path("".to_string()).unwrap(), "");
    assert!(validate_decoded_path("/x".to_string()).is_err());
    assert!(validate_decoded_path("x/..".to_string()).is_err());
    assert!(validate_decoded_path("x\0".to_string()).is_err());
}

#[test]
fn album_names_are_decoded_and_checked() {
    assert_eq!(parse_album_name("My%20Album.m3u8".to_string()).unwrap(), "My Album");
    assert_eq!(parse_album_name("a/b.m3u8".to_string()).unwrap(), "a/b");
    assert_eq!(parse_album_name("x.m3u8.m3u8".to_string()).unwrap(), "x.m3u8");
    assert_eq!(parse_album_name("bad%FF".to_string()).unwrap(), "bad%FF");
    assert_eq!(parse_album_name(".m3u8".to_string()), Err(InputError::Invalid));
    assert_eq!(parse_album_name("a//b".to_string()), Err(InputError::Invalid));
    assert_eq!(parse_album_name("a/".to_string()), Err(InputError::Invalid));
    assert_eq!(parse_album_name("/a".to_string()), Err(InputError::Invalid));
    assert_eq!(parse_album_name("a/./b".to_string()), Err(InputError::Invalid));
    assert_eq!(parse_album_name("a\\b".to_string()), Err(InputError::Invalid));
    assert_eq!(parse_album_name("a%5Cb".to_string()), Err(InputError::Invalid));
    assert_eq!(parse_album_name("a%00".to_string()), Err(InputError::Invalid));
    assert_eq!(parse_album_name("a/Thumbs.db".to_string()), Err(InputError::Invalid));
    assert_eq!(validate_album_name("a%2Fb".to_string()).unwrap(), "a%2Fb");
    assert_eq!(validate_album_name("".to_string()), Err(InputError::Invalid));
}

#[test]
fn top_level_album_rule() {
    assert!(decoded_album_invalid(""));
    assert!(decoded_album_invalid(".x"));
    assert!(decoded_album_invalid("a/b"));
    assert!(decoded_album_invalid("a\\b"));
    assert!(!decoded_album_invalid("Album"));
    assert!(!decoded_album_invalid("Al.bum"));
}

#[test]
fn base_urls_are_normalised() {
    assert_eq!(normalize_base(""), "http://localhost/");
    assert_eq!(normalize_base("   \t\n"), "http://localhost/");
    assert_eq!(normalize_base("example.com"), "http://example.com/");
    assert_eq!(normalize_base("  example.com/ "), "http://example.com/");
    assert_eq!(normalize_base("https://x//"), "https://x/");
    assert_eq!(normalize_base("https://x/music"), "https://x/music/");
    assert_eq!(normalize_base("\u{a0}host:8080\u{3000}"), "http://host:8080/");
    assert_eq!(normalize_base("/"), "http:/");
    assert_eq!(normalize_base("a b"), "http://a b/");
    assert_eq!(normalize_base("ftp://h"), "ftp://h/");
}

#[test]
fn two_triggers_one_scan() {
    let mut s = RescanState::new();
    assert_eq!(s, RescanState { scanning: false, ready: false });
    assert!(s.trigger_rescan(false));
    let after_first = s;
    assert!(!s.trigger_rescan(true));
    assert_eq!(s, after_first);
    assert!(!s.trigger_rescan(false));
    assert_eq!(s, RescanState { scanning: true, ready: false });
}

#[test]
fn trigger_may_clear_ready() {
    let mut keep = RescanState { scanning: false, ready: true };
    assert!(keep.trigger_rescan(false));
    assert_eq!(keep, RescanState { scanning: true, ready: true });
    let mut clear = RescanState { scanning: false, ready: true };
    assert!(clear.trigger_rescan(true));
    assert_eq!(clear, RescanState { scanning: true, ready: false });
    let mut busy = RescanState { scanning: true, ready: true };
    assert!(!busy.trigger_rescan(true));
    assert_eq!(busy, RescanState { scanning: true, ready: true });
}

#[test]
fn end_of_scan_decides_what_to_do() {
    let mut s = RescanState { scanning: true, ready: false };
    let a = s.scan_finished(ScanOutcome::Completed { saved: true });
    assert_eq!(a, ScanAction { publish: true, report: false });
    assert_eq!(s, RescanState { scanning: false, ready: true });

    let mut s = RescanState { scanning: true, ready: false };
    let a = s.scan_finished(ScanOutcome::Completed { saved: false });
    assert_eq!(a, ScanAction { publish: true, report: true });
    assert_eq!(s, RescanState { scanning: false, ready: true });

    let mut s = RescanState { scanning: true, ready: false };
    let a = s.scan_finished(ScanOutcome::Failed);
    assert_eq!(a, ScanAction { publish: false, report: true });
    assert_eq!(s, RescanState { scanning: false, ready: false });

    let mut s = RescanState { scanning: true, ready: true };
    let a = s.scan_finished(ScanOutcome::Failed);
    assert_eq!(a, ScanAction { publish: false, report: true });
    assert_eq!(s, RescanState { scanning: false, ready: true });
    assert!(s.trigger_rescan(false));
}
