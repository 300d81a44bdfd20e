use std::sync::Arc;

use musrv::library::{Library, ScannedFile, Track, TrackMetadata};
use musrv::playlist::{encode_path, render_m3u8, round_seconds};
use musrv::server::types::{folder_response, list_track, JsonFolderAlbum};

#[test]
fn m3u8_renders_crlf_and_urls() {
    let tracks = vec![
        Arc::new(Track {
            path: String::from("Album/song one.mp3"),
            size: None,
            metadata: TrackMetadata::default(),
        }),
        Arc::new(Track {
            path: String::from("Root.mp3"),
            size: Some(123),
            metadata: TrackMetadata::default(),
        }),
    ];
    let out = render_m3u8("http://h/", "/", &tracks);
    assert!(out.starts_with("#EXTM3U\r\n"));
    assert!(out.contains("#EXTINF:0,Root.mp3\r\nhttp://h/Root.mp3\r\n"));
    assert!(out.contains("http://h/Album/song%20one.mp3"));
}

fn tagged(path: &str, title: Option<&str>, artist: Option<&str>, duration_ms: Option<u64>) -> Arc<Track> {
    Arc::new(Track {
        path: path.to_string(),
        size: None,
        metadata: TrackMetadata {
            title: title.map(|s| s.to_string()),
            artist: artist.map(|s| s.to_string()),
            album: None,
            duration_ms,
            artwork_id: None,
        },
    })
}

#[test]
fn playlist_is_exact() {
    let tracks = vec![
        tagged("A/one.mp3", Some("One"), Some("Band"), Some(61_499)),
        tagged("A/two.mp3", Some("Two"), None, Some(61_500)),
        tagged("A/three.mp3", None, Some("Band"), Some(499)),
        tagged("A/four.mp3", Some("Four"), Some(""), Some(3_599_999)),
        tagged("win\\style.mp3", None, None, None),
    ];
    let out = render_m3u8("http://h:1/", "", &tracks);
    assert_eq!(
        out,
        "#EXTM3U\r\n\
         #EXTINF:61,Band - One\r\nhttp://h:1/A/one.mp3\r\n\
         #EXTINF:62,Two\r\nhttp://h:1/A/two.mp3\r\n\
         #EXTINF:0,three.mp3\r\nhttp://h:1/A/three.mp3\r\n\
         #EXTINF:3600,Four\r\nhttp://h:1/A/four.mp3\r\n\
         #EXTINF:0,win\\style.mp3\r\nhttp://h:1/win/style.mp3\r\n"
    );
}

#[test]
fn empty_playlist_is_the_header() {
    assert_eq!(render_m3u8("http://h/", "/", &[]), "#EXTM3U\r\n");
}

#[test]
fn seconds_round_to_the_nearest() {
    assert_eq!(round_seconds(None), 0);
    assert_eq!(round_seconds(Some(0)), 0);
    assert_eq!(round_seconds(Some(499)), 0);
    assert_eq!(round_seconds(Some(500)), 1);
    assert_eq!(round_seconds(Some(1_499)), 1);
    assert_eq!(round_seconds(Some(1_500)), 2);
    assert_eq!(round_seconds(Some(u64::MAX)), 18_446_744_073_709_552);
}

#[test]
fn paths_are_encoded_segment_by_segment() {
    assert_eq!(encode_path("Album/song one.mp3"), "Album/song%20one.mp3");
    assert_eq!(encode_path("a b/ü.mp3"), "a%20b/%C3%BC.mp3");
    assert_eq!(encode_path("safe-_.~AZaz09"), "safe-_.~AZaz09");
    assert_eq!(encode_path("a//b/"), "a//b/");
    assert_eq!(encode_path(""), "");
    assert_eq!(encode_path("50%/a+b?c#d&e"), "50%25/a%2Bb%3Fc%23d%26e");
    assert_eq!(encode_path("👾"), "%F0%9F%91%BE");
    assert_eq!(encode_path("a\\b"), "a%5Cb");
}

#[test]
fn a_track_is_listed_with_its_urls() {
    let mut t = Track {
        path: "Album 1/Sub/s\\ong.mp3".to_string(),
        size: Some(5),
        metadata: TrackMetadata::default(),
    };
    let plain = list_track("http://h/", &t);
    assert_eq!(plain.name, "s\\ong.mp3");
    assert_eq!(plain.display_name, "s\\ong.mp3");
    assert_eq!(plain.relative_path, "Album 1/Sub/s/ong.mp3");
    assert_eq!(plain.url, "http://h/Album%201/Sub/s/ong.mp3");
    assert_eq!(plain.title, None);
    assert_eq!(plain.artwork_url, None);
    t.metadata.title = Some("Song".to_string());
    t.metadata.artist = Some("Band".to_string());
    t.metadata.album = Some("LP".to_string());
    t.metadata.duration_ms = Some(1234);
    t.metadata.artwork_id = Some("abc".to_string());
    let full = list_track("http://h///", &t);
    assert_eq!(full.display_name, "Song");
    assert_eq!(full.title.as_deref(), Some("Song"));
    assert_eq!(full.artist.as_deref(), Some("Band"));
    assert_eq!(full.album.as_deref(), Some("LP"));
    assert_eq!(full.duration_ms, Some(1234));
    assert_eq!(full.url, "http://h///Album%201/Sub/s/ong.mp3");
    assert_eq!(full.artwork_url.as_deref(), Some("http://h/api/artwork/abc"));
}

fn file(path: &str) -> ScannedFile {
    ScannedFile {
        path: path.to_string(),
        size: None,
        title: None,
        artist: None,
        album: None,
        duration_ms: None,
        artwork: None,
    }
}

#[test]
fn a_folder_is_listed() {
    let lib = Library::scan(
        "/m".to_string(),
        vec![file("My Album/one.mp3"), file("My Album/Disc 2/two.mp3"), file("My Album/Disc 1/x.mp3"), file("top.mp3")],
    );
    let root = folder_response(&lib, "http://h/", "", true);
    assert_eq!(root.name, "/");
    assert_eq!(root.path, "");
    assert_eq!(root.m3u8, "http://h/api/folder.m3u8?path=");
    assert_eq!(root.albums, vec![JsonFolderAlbum { name: "My Album".to_string(), path: "My Album".to_string() }]);
    assert_eq!(root.tracks.len(), 4);
    assert_eq!(root.tracks[0].relative_path, "top.mp3");
    assert!(root.scanning);

    let album = folder_response(&lib, "http://h", "My Album", false);
    assert_eq!(album.name, "My Album");
    assert_eq!(album.path, "My Album");
    assert_eq!(album.m3u8, "http://h/api/folder.m3u8?path=My%20Album");
    assert_eq!(
        album.albums,
        vec![
            JsonFolderAlbum { name: "Disc 1".to_string(), path: "My Album/Disc 1".to_string() },
            JsonFolderAlbum { name: "Disc 2".to_string(), path: "My Album/Disc 2".to_string() },
        ]
    );
    let rels: Vec<&str> = album.tracks.iter().map(|t| t.relative_path.as_str()).collect();
    assert_eq!(rels, vec!["My Album/one.mp3", "My Album/Disc 1/x.mp3", "My Album/Disc 2/two.mp3"]);
    assert_eq!(album.tracks[1].url, "http://hMy%20Album/Disc%201/x.mp3");
    assert!(!album.scanning);

    let disc = folder_response(&lib, "http://h/", "My Album/Disc 2", false);
    assert_eq!(disc.name, "Disc 2");
    assert_eq!(disc.m3u8, "http://h/api/folder.m3u8?path=My%20Album%2FDisc%202");
    assert_eq!(disc.albums, vec![]);
    assert_eq!(disc.tracks.len(), 1);

    let none = folder_response(&lib, "http://h/", "nope", false);
    assert_eq!(none.name, "nope");
    assert_eq!(none.albums, vec![]);
    assert_eq!(none.tracks, vec![]);
}
