use std::sync::Arc;

use musrv::library::{
    identify, ArtworkBlob, FolderEntry, FoundFile, Library, Picture, ScannedFile, Track,
    TrackMetadata,
};
use musrv::playlist::render_m3u8;
use musrv::server::types::folder_response;
use musrv::snapshot::{ArtworkSnapshot, LibrarySnapshot, SnapshotError, TrackSnapshot};
use musrv::sorting::sort_tracks;

fn file(path: &str) -> ScannedFile {
    ScannedFile {
        path: path.to_string(),
        size: None,
        title: None,
        artist: None,
        album: None,
        duration_ms: None,
        artwork: None,
    }
}

fn file_with_art(path: &str, mime: &str, data: &[u8]) -> ScannedFile {
    let mut f = file(path);
    f.artwork = Some(Picture { mime: mime.to_string(), data: data.to_vec() });
    f
}

fn scan(paths: &[&str]) -> Library {
    Library::scan("/music".to_string(), paths.iter().map(|p| file(p)).collect())
}

fn paths(tracks: &[Arc<Track>]) -> Vec<String> {
    tracks.iter().map(|t| t.path.clone()).collect()
}

fn entry(subfolders: &[&str], tracks: &[usize]) -> FolderEntry {
    FolderEntry {
        subfolders: subfolders.iter().map(|s| s.to_string()).collect(),
        tracks: tracks.to_vec(),
    }
}

fn track(path: &str) -> Arc<Track> {
    Arc::new(Track { path: path.to_string(), size: None, metadata: TrackMetadata::default() })
}

#[test]
fn library_json_and_playlists() {
    let lib = scan(&["Album1/song1.mp3", "Album1/song2.flac", "loose.mp3"]);
    let listing = folder_response(&lib, "http://127.0.0.1:9999/", "", false);
    assert_eq!(listing.albums.len(), 1);
    assert_eq!(listing.tracks.len(), 3);
    let album = lib.collect_tracks_recursive("Album1");
    let body = render_m3u8("http://127.0.0.1:9999/", "/music", &album);
    assert!(body.starts_with("#EXTM3U\r\n"));
    assert!(body.contains("http://127.0.0.1:9999/Album1/song1.mp3\r\n"));
    assert!(body.contains("http://127.0.0.1:9999/Album1/song2.flac\r\n"));
    assert!(!body.contains("loose.mp3"));
    assert!(lib.artwork("does-not-exist").is_none());
}

#[test]
fn example_tree_is_indexed() {
    let lib = scan(&["Album1/song1.mp3", "Album1/Sub/song2.flac", "loose.mp3"]);
    assert_eq!(
        paths(lib.tracks()),
        vec!["Album1/Sub/song2.flac", "Album1/song1.mp3", "loose.mp3"]
    );
    assert_eq!(lib.folder(""), Some(&entry(&["Album1"], &[2])));
    assert_eq!(lib.folder("Album1"), Some(&entry(&["Album1/Sub"], &[1])));
    assert_eq!(lib.folder("Album1/Sub"), Some(&entry(&[], &[0])));
    assert_eq!(lib.folder("Album1/Sub/song2.flac"), None);
    assert_eq!(lib.folder("Album"), None);
    assert_eq!(
        paths(&lib.collect_tracks_recursive("Album1")),
        vec!["Album1/song1.mp3", "Album1/Sub/song2.flac"]
    );
    assert_eq!(paths(&lib.collect_tracks_recursive("Album1/Sub")), vec!["Album1/Sub/song2.flac"]);
    assert_eq!(paths(&lib.collect_tracks_recursive("nowhere")), Vec::<String>::new());
    assert_eq!(lib.root(), "/music");
}

#[test]
fn folders_between_are_linked_without_tracks() {
    let lib = scan(&["A/B/C/deep.mp3"]);
    assert_eq!(lib.folder(""), Some(&entry(&["A"], &[])));
    assert_eq!(lib.folder("A"), Some(&entry(&["A/B"], &[])));
    assert_eq!(lib.folder("A/B"), Some(&entry(&["A/B/C"], &[])));
    assert_eq!(lib.folder("A/B/C"), Some(&entry(&[], &[0])));
    assert_eq!(paths(&lib.collect_tracks_recursive("A")), vec!["A/B/C/deep.mp3"]);
}

#[test]
fn subfolders_stand_in_order_once() {
    let lib = scan(&["b/2.mp3", "a/1.mp3", "c/x/3.mp3", "b/1.mp3", "a-b/4.mp3", "c/y/5.mp3", "c/x/6.mp3"]);
    assert_eq!(lib.folder(""), Some(&entry(&["a", "a-b", "b", "c"], &[])));
    assert_eq!(lib.folder("c"), Some(&entry(&["c/x", "c/y"], &[])));
    assert_eq!(
        paths(lib.tracks()),
        vec!["a/1.mp3", "a-b/4.mp3", "b/1.mp3", "b/2.mp3", "c/x/3.mp3", "c/x/6.mp3", "c/y/5.mp3"]
    );
    assert_eq!(lib.folder("b"), Some(&entry(&[], &[2, 3])));
}

#[test]
fn empty_library_has_the_root_folder() {
    let lib = Library::empty("/music".to_string());
    assert_eq!(lib.tracks().len(), 0);
    assert_eq!(lib.folder(""), Some(&entry(&[], &[])));
    assert_eq!(lib.collect_tracks_recursive("").len(), 0);
    assert!(lib.artwork("x").is_none());
    let scanned = scan(&[]);
    assert_eq!(scanned.folder(""), Some(&entry(&[], &[])));
    assert_eq!(scanned.to_snapshot(), lib.to_snapshot());
}

#[test]
fn hidden_files_are_left_out() {
    let lib = scan(&[
        ".hidden.mp3",
        "a/.hidden.mp3",
        "a/b/c/.hidden.mp3",
        "._AppleDouble/song.mp3",
        "a/b/._AppleDouble/c/song.mp3",
        "Thumbs.db",
        "a/b/Thumbs.db",
        "Thumbs.db/song.mp3",
        "desktop.ini/x/song.mp3",
        "a/kept.mp3",
        "notes.txt",
        "a/noext",
    ]);
    assert_eq!(paths(lib.tracks()), vec!["a/kept.mp3"]);
    assert_eq!(lib.folder(""), Some(&entry(&["a"], &[])));
    assert_eq!(lib.folder("a"), Some(&entry(&[], &[0])));
    assert_eq!(lib.folder("a/b"), None);
    assert_eq!(lib.folder("._AppleDouble"), None);
}

#[test]
fn same_cover_is_stored_once() {
    let cover: &[u8] = &[0xff, 0xd8, 0xff, 0xe0, 1, 2, 3];
    let other: &[u8] = &[0x89, 0x50, 0x4e, 0x47];
    let lib = Library::scan(
        "/music".to_string(),
        vec![
            file_with_art("b.mp3", "image/jpeg", cover),
            file_with_art("a.mp3", "image/png", cover),
            file_with_art("c.mp3", "image/png", other),
            file("d.mp3"),
            file_with_art(".hidden.mp3", "image/gif", &[9, 9, 9]),
        ],
    );
    let tracks = lib.tracks();
    assert_eq!(paths(tracks), vec!["a.mp3", "b.mp3", "c.mp3", "d.mp3"]);
    let id = blake3::hash(cover).to_hex().to_string();
    let other_id = blake3::hash(other).to_hex().to_string();
    assert_eq!(tracks[0].metadata.artwork_id, Some(id.clone()));
    assert_eq!(tracks[1].metadata.artwork_id, Some(id.clone()));
    assert_eq!(tracks[2].metadata.artwork_id, Some(other_id.clone()));
    assert_eq!(tracks[3].metadata.artwork_id, None);
    let snap = lib.to_snapshot();
    assert_eq!(snap.artworks.len(), 2);
    let art = lib.artwork(&id).unwrap();
    assert_eq!(art.mime, "image/jpeg");
    assert_eq!(art.data.as_slice(), cover);
    assert_eq!(lib.artwork(&other_id).unwrap().data.as_slice(), other);
    assert!(lib.artwork(&blake3::hash(&[9, 9, 9]).to_hex().to_string()).is_none());
}

#[test]
fn cover_key_is_the_blake3_hash_in_hex() {
    let lib = Library::scan("/music".to_string(), vec![file_with_art("a.mp3", "image/png", b"")]);
    assert_eq!(
        lib.tracks()[0].metadata.artwork_id.as_deref(),
        Some("af1349b9f5f9a1a6a0404dea36dcc9499bcb25c9adc112b7cc9a93cae41f3262")
    );
}

#[test]
fn artwork_lookup_shares_the_bytes() {
    let lib = Library::scan("/music".to_string(), vec![file_with_art("a.mp3", "image/png", &[1, 2])]);
    let id = lib.tracks()[0].metadata.artwork_id.clone().unwrap();
    let first = lib.artwork(&id).unwrap();
    let second = lib.artwork(&id).unwrap();
    assert!(Arc::ptr_eq(&first.data, &second.data));
    let found = lib.collect_tracks_recursive("");
    assert!(Arc::ptr_eq(&found[0], &lib.tracks()[0]));
}

#[test]
fn tags_are_taken_over() {
    let mut f = file("a/b.flac");
    f.size = Some(4096);
    f.title = Some("Title".to_string());
    f.artist = Some("Artist".to_string());
    f.album = Some("".to_string());
    f.duration_ms = Some(0);
    let mut g = file("a/c.flac");
    g.duration_ms = Some(187_500);
    let lib = Library::scan("/m".to_string(), vec![f, g]);
    let t = &lib.tracks()[0];
    assert_eq!(t.size, Some(4096));
    assert_eq!(t.metadata.title.as_deref(), Some("Title"));
    assert_eq!(t.metadata.artist.as_deref(), Some("Artist"));
    assert_eq!(t.metadata.album.as_deref(), Some(""));
    assert_eq!(t.metadata.duration_ms, None);
    assert_eq!(lib.tracks()[1].metadata.duration_ms, Some(187_500));
    assert_eq!(lib.tracks()[1].metadata, TrackMetadata { duration_ms: Some(187_500), ..TrackMetadata::default() });
}

#[test]
fn scanning_again_gives_the_same_library() {
    let input = || {
        vec![
            file_with_art("z/late.mp3", "image/png", &[1]),
            file("a/early.mp3"),
            file_with_art("m/mid.ogg", "image/jpeg", &[1]),
            file("top.wav"),
        ]
    };
    let first = Library::scan("/music".to_string(), input());
    let second = Library::scan("/music".to_string(), input());
    assert_eq!(first.to_snapshot(), second.to_snapshot());
    assert_eq!(first.root(), second.root());
    let sorted = paths(first.tracks());
    let mut expected = sorted.clone();
    expected.sort_by(|a, b| std::path::Path::new(a).cmp(std::path::Path::new(b)));
    assert_eq!(sorted, expected);
    assert_eq!(sorted, vec!["a/early.mp3", "m/mid.ogg", "top.wav", "z/late.mp3"]);
}

#[test]
fn sort_keeps_equal_paths_in_order() {
    let mut first = Track { path: "same.mp3".to_string(), size: Some(1), metadata: TrackMetadata::default() };
    first.metadata.title = Some("first".to_string());
    let second = Track { path: "same.mp3".to_string(), size: Some(2), metadata: TrackMetadata::default() };
    let sorted = sort_tracks(vec![track("b.mp3"), Arc::new(first), track("a.mp3"), Arc::new(second)]);
    assert_eq!(paths(&sorted), vec!["a.mp3", "b.mp3", "same.mp3", "same.mp3"]);
    assert_eq!(sorted[2].size, Some(1));
    assert_eq!(sorted[3].size, Some(2));
    assert_eq!(sort_tracks(Vec::new()).len(), 0);
}

#[test]
fn root_walk_is_the_sorted_list_where_files_come_first() {
    let lib = scan(&["b/y/4.mp3", "1.mp3", "b/3.mp3", "a.mp3", "b/y/5.mp3", "b/z/6.mp3", "c/7.mp3"]);
    assert_eq!(
        paths(lib.tracks()),
        vec!["1.mp3", "a.mp3", "b/3.mp3", "b/y/4.mp3", "b/y/5.mp3", "b/z/6.mp3", "c/7.mp3"]
    );
    assert_eq!(paths(&lib.collect_tracks_recursive("")), paths(lib.tracks()));
    assert_eq!(
        paths(&lib.collect_tracks_recursive("b")),
        vec!["b/3.mp3", "b/y/4.mp3", "b/y/5.mp3", "b/z/6.mp3"]
    );
}

#[test]
fn root_walk_meets_every_track_once() {
    let lib = scan(&["b.mp3", "a/x.mp3", "a/b/y.mp3", "a/a.mp3"]);
    assert_eq!(paths(lib.tracks()), vec!["a/a.mp3", "a/b/y.mp3", "a/x.mp3", "b.mp3"]);
    let walk = paths(&lib.collect_tracks_recursive(""));
    assert_eq!(walk, vec!["b.mp3", "a/a.mp3", "a/x.mp3", "a/b/y.mp3"]);
    let mut seen = walk.clone();
    seen.sort();
    seen.dedup();
    assert_eq!(seen.len(), lib.tracks().len());
}

#[test]
fn snapshot_gives_the_library_back() {
    let mut tagged = file_with_art("Album/one.mp3", "image/jpeg", &[7, 7, 7]);
    tagged.title = Some("One".to_string());
    tagged.duration_ms = Some(61_000);
    tagged.size = Some(12);
    let lib = Library::scan(
        "/music".to_string(),
        vec![tagged, file("Album/Sub/two.flac"), file("solo.ogg")],
    );
    let snap = lib.to_snapshot();
    assert_eq!(snap.tracks.len(), 3);
    assert_eq!(snap.folders.len(), 3);
    assert_eq!(snap.artworks.len(), 1);
    assert_eq!(snap.artworks[0].1.data, vec![7, 7, 7]);
    let back = Library::from_snapshot("/music".to_string(), snap.clone()).unwrap();
    assert_eq!(back.to_snapshot(), snap);
    assert_eq!(back.root(), lib.root());
    assert_eq!(back.tracks(), lib.tracks());
    for key in ["", "Album", "Album/Sub", "none"] {
        assert_eq!(back.folder(key), lib.folder(key));
        assert_eq!(back.collect_tracks_recursive(key), lib.collect_tracks_recursive(key));
    }
    let id = lib.tracks()[1].metadata.artwork_id.clone().unwrap();
    assert_eq!(back.artwork(&id), lib.artwork(&id));
}

#[test]
fn snapshot_lists_may_come_in_any_order() {
    let lib = scan(&["a/1.mp3", "b/2.mp3"]);
    let mut snap = lib.to_snapshot();
    snap.folders.reverse();
    let back = Library::from_snapshot("/r".to_string(), snap).unwrap();
    assert_eq!(back.folder(""), Some(&entry(&["a", "b"], &[])));
    assert_eq!(back.root(), "/r");
}

fn snapshot_of(paths: &[&str]) -> LibrarySnapshot {
    scan(paths).to_snapshot()
}

#[test]
fn unsorted_snapshot_is_refused() {
    let mut snap = snapshot_of(&["a.mp3", "b.mp3"]);
    snap.tracks.swap(0, 1);
    assert_eq!(
        Library::from_snapshot("/r".to_string(), snap).err(),
        Some(SnapshotError::TracksNotSorted)
    );
}

#[test]
fn snapshot_with_wrong_folders_is_refused() {
    let refused = |snap: LibrarySnapshot| {
        assert_eq!(
            Library::from_snapshot("/r".to_string(), snap).err(),
            Some(SnapshotError::FoldersNotIndex)
        );
    };
    let good = snapshot_of(&["a/1.mp3", "a/b/2.mp3", "c.mp3"]);
    assert!(Library::from_snapshot("/r".to_string(), good.clone()).is_ok());

    let mut missing = good.clone();
    missing.folders.pop();
    refused(missing);

    let mut extra = good.clone();
    extra.folders.push(("ghost".to_string(), entry(&[], &[])));
    refused(extra);

    let mut twice = good.clone();
    let again = twice.folders[0].clone();
    twice.folders.push(again);
    refused(twice);

    let mut bad_index = good.clone();
    bad_index.folders[0].1.tracks.push(99);
    refused(bad_index);

    let mut cycle = good.clone();
    for f in cycle.folders.iter_mut() {
        if f.0 == "a" {
            f.1.subfolders.push("".to_string());
        }
    }
    refused(cycle);

    let mut none = good.clone();
    none.folders.clear();
    refused(none);

    let mut track_added = good;
    track_added.tracks.push(TrackSnapshot {
        path: "z/new.mp3".to_string(),
        size: None,
        metadata: TrackMetadata::default(),
    });
    refused(track_added);
}

#[test]
fn snapshot_with_repeated_cover_is_refused() {
    let mut snap = snapshot_of(&["a.mp3"]);
    snap.artworks.push(("k".to_string(), ArtworkSnapshot { mime: "image/png".to_string(), data: vec![1] }));
    snap.artworks.push(("other".to_string(), ArtworkSnapshot { mime: "image/png".to_string(), data: vec![1] }));
    assert!(Library::from_snapshot("/r".to_string(), snap.clone()).is_ok());
    snap.artworks.push(("k".to_string(), ArtworkSnapshot { mime: "image/gif".to_string(), data: vec![2] }));
    assert_eq!(
        Library::from_snapshot("/r".to_string(), snap).err(),
        Some(SnapshotError::DuplicateArtwork)
    );
}

#[test]
fn first_failure_of_a_snapshot_is_reported() {
    let mut snap = snapshot_of(&["a.mp3", "b.mp3"]);
    snap.tracks.swap(0, 1);
    snap.folders.clear();
    snap.artworks.push(("k".to_string(), ArtworkSnapshot { mime: "m".to_string(), data: vec![] }));
    snap.artworks.push(("k".to_string(), ArtworkSnapshot { mime: "m".to_string(), data: vec![] }));
    assert_eq!(
        Library::from_snapshot("/r".to_string(), snap.clone()).err(),
        Some(SnapshotError::TracksNotSorted)
    );
    snap.tracks.swap(0, 1);
    assert_eq!(
        Library::from_snapshot("/r".to_string(), snap).err(),
        Some(SnapshotError::FoldersNotIndex)
    );
}

#[test]
fn odd_paths_are_indexed_without_a_loop() {
    let lib = scan(&["/abs/x.mp3", "a//y.mp3", "a/z.mp3"]);
    assert_eq!(paths(lib.tracks()), vec!["/abs/x.mp3", "a//y.mp3", "a/z.mp3"]);
    assert_eq!(lib.folder(""), Some(&entry(&["/abs", "a"], &[])));
    assert_eq!(lib.folder("a"), Some(&entry(&["a/"], &[2])));
    assert_eq!(lib.folder("a/"), Some(&entry(&[], &[1])));
    assert_eq!(lib.collect_tracks_recursive("").len(), 3);
}

fn found(path: &str, art: Option<(&str, &str, &[u8])>) -> FoundFile {
    FoundFile {
        path: path.to_string(),
        size: None,
        title: None,
        artist: None,
        album: None,
        duration_ms: None,
        artwork: art.map(|(id, mime, data)| ArtworkBlob {
            id: id.to_string(),
            mime: mime.to_string(),
            data: data.to_vec(),
        }),
    }
}

#[test]
fn first_picture_under_a_key_stays() {
    let lib = Library::from_files(
        "/music".to_string(),
        vec![
            found("z.mp3", Some(("k1", "image/png", &[1]))),
            found("a.mp3", Some(("k1", "image/jpeg", &[2, 2]))),
            found("m.mp3", Some(("k2", "image/gif", &[3]))),
            found("skipped.txt", Some(("k3", "image/gif", &[4]))),
            found(".hidden.mp3", Some(("k4", "image/gif", &[5]))),
            found("n.mp3", None),
        ],
    );
    let ids: Vec<Option<&str>> =
        lib.tracks().iter().map(|t| t.metadata.artwork_id.as_deref()).collect();
    assert_eq!(ids, vec![Some("k1"), Some("k2"), None, Some("k1")]);
    let first = lib.artwork("k1").unwrap();
    assert_eq!(first.mime, "image/png");
    assert_eq!(first.data.as_slice(), &[1]);
    assert_eq!(lib.artwork("k2").unwrap().mime, "image/gif");
    assert!(lib.artwork("k3").is_none());
    assert!(lib.artwork("k4").is_none());
    assert_eq!(lib.to_snapshot().artworks.len(), 2);
}

#[test]
fn identify_hashes_the_picture() {
    let plain = identify(file("a.mp3"));
    assert_eq!(plain, found("a.mp3", None));
    let mut tagged = file_with_art("dir/b.flac", "image/png", b"abc");
    tagged.size = Some(3);
    tagged.title = Some("T".to_string());
    tagged.duration_ms = Some(5);
    let with_key = identify(tagged);
    let blob = with_key.artwork.clone().unwrap();
    assert_eq!(blob.id, blake3::hash(b"abc").to_hex().to_string());
    assert_eq!(blob.id.len(), 64);
    assert_eq!(blob.mime, "image/png");
    assert_eq!(blob.data, b"abc".to_vec());
    assert_eq!(with_key.path, "dir/b.flac");
    assert_eq!(with_key.size, Some(3));
    assert_eq!(with_key.title.as_deref(), Some("T"));
    assert_eq!(with_key.duration_ms, Some(5));
}

#[test]
fn scan_is_identify_then_index() {
    let input = vec![
        file_with_art("b/x.mp3", "image/png", &[1, 2, 3]),
        file("a.mp3"),
        file_with_art("b/y.mp3", "image/jpeg", &[1, 2, 3]),
    ];
    let scanned = Library::scan("/r".to_string(), input.clone());
    let indexed = Library::from_files("/r".to_string(), input.into_iter().map(identify).collect());
    assert_eq!(scanned.to_snapshot(), indexed.to_snapshot());
}
