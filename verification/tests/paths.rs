use musrv::order::path_le_chars;
use musrv::path_utils::{
    cache_dir, cache_path, has_audio_extension, is_hidden_component, is_hidden_name,
    is_hidden_path, is_indexable, join_path, last_segment, split_path,
};
use musrv::text::{chars_of, str_eq, string_of};

fn le(a: &str, b: &str) -> bool {
    path_le_chars(&chars_of(a), &chars_of(b))
}

#[test]
fn hidden_names_are_recognised() {
    assert!(is_hidden_name(".hidden.mp3"));
    assert!(is_hidden_name("._AppleDouble"));
    assert!(is_hidden_name("Thumbs.db"));
    assert!(is_hidden_name("desktop.ini"));
    assert!(is_hidden_name("."));
    assert!(is_hidden_name(".."));
    assert!(is_hidden_name(".git"));
}

#[test]
fn plain_names_are_not_hidden() {
    assert!(!is_hidden_name(""));
    assert!(!is_hidden_name("song.mp3"));
    assert!(!is_hidden_name("thumbs.db"));
    assert!(!is_hidden_name("Thumbs.db.mp3"));
    assert!(!is_hidden_name("Desktop.ini"));
    assert!(!is_hidden_name("a.hidden"));
    assert!(!is_hidden_name("_.x"));
}

#[test]
fn hidden_component_needs_readable_text() {
    assert!(is_hidden_component(Some(".cache")));
    assert!(!is_hidden_component(Some("cache")));
    assert!(!is_hidden_component(None));
}

#[test]
fn hidden_path_looks_at_every_segment() {
    assert!(is_hidden_path(".hidden.mp3"));
    assert!(is_hidden_path("a/b/.hidden.mp3"));
    assert!(is_hidden_path("a/._AppleDouble/b/song.mp3"));
    assert!(is_hidden_path("a/b/c/d/Thumbs.db"));
    assert!(is_hidden_path("Thumbs.db/song.mp3"));
    assert!(!is_hidden_path("a/b/song.mp3"));
    assert!(!is_hidden_path("a//song.mp3"));
    assert!(!is_hidden_path(""));
    assert!(!is_hidden_path("a.b/c.d"));
}

#[test]
fn split_keeps_empty_segments() {
    let parts = split_path(&chars_of("a//b/"));
    let texts: Vec<String> = parts.iter().map(|p| string_of(p)).collect();
    assert_eq!(texts, vec!["a", "", "b", ""]);
    let one = split_path(&chars_of(""));
    assert_eq!(one.len(), 1);
    assert_eq!(one[0].len(), 0);
    let plain = split_path(&chars_of("plain"));
    assert_eq!(plain.len(), 1);
    assert_eq!(string_of(&plain[0]), "plain");
}

#[test]
fn last_segment_is_the_file_name() {
    assert_eq!(string_of(&last_segment(&chars_of("Album/Sub/song.mp3"))), "song.mp3");
    assert_eq!(string_of(&last_segment(&chars_of("song.mp3"))), "song.mp3");
    assert_eq!(string_of(&last_segment(&chars_of("Album/"))), "");
}

#[test]
fn audio_extensions_in_any_case() {
    for ext in [
        "mp3", "flac", "wav", "aac", "m4a", "ogg", "opus", "wma", "aif", "aiff", "alac", "pcm",
        "mp2", "mpga", "ape",
    ] {
        assert!(has_audio_extension(&format!("dir/song.{}", ext)), "{}", ext);
        assert!(has_audio_extension(&format!("song.{}", ext.to_uppercase())), "{}", ext);
    }
    assert!(has_audio_extension("a.tar.Mp3"));
    assert!(has_audio_extension("A.FlAc"));
}

#[test]
fn other_extensions_are_not_audio() {
    assert!(!has_audio_extension("song"));
    assert!(!has_audio_extension("song."));
    assert!(!has_audio_extension("song.txt"));
    assert!(!has_audio_extension("song.mp3.txt"));
    assert!(!has_audio_extension("song.mp33"));
    assert!(!has_audio_extension("song.mp"));
    assert!(!has_audio_extension(".mp3"));
    assert!(!has_audio_extension("dir.mp3/song"));
    assert!(!has_audio_extension(""));
    assert!(!has_audio_extension("mp3"));
}

#[test]
fn indexable_needs_both() {
    assert!(is_indexable("Album/song.mp3"));
    assert!(!is_indexable("Album/.song.mp3"));
    assert!(!is_indexable(".Album/song.mp3"));
    assert!(!is_indexable("Album/song.txt"));
    assert!(!is_indexable("Album/Thumbs.db"));
}

#[test]
fn cache_paths_below_the_root() {
    assert_eq!(cache_dir("/music"), "/music/.musrv");
    assert_eq!(cache_dir("/music/"), "/music/.musrv");
    assert_eq!(cache_dir("/"), "/.musrv");
    assert_eq!(cache_dir(""), ".musrv");
    assert_eq!(cache_path("/music"), "/music/.musrv/library.json");
    assert_eq!(cache_path("rel/dir/"), "rel/dir/.musrv/library.json");
    assert_eq!(join_path("a", "b"), "a/b");
}

#[test]
fn paths_order_by_segments() {
    assert!(le("Album/x", "Album-2/x"));
    assert!(!le("Album-2/x", "Album/x"));
    assert!(le("a", "a/b"));
    assert!(!le("a/b", "a"));
    assert!(le("a/x.mp3", "b.mp3"));
    assert!(le("Album1/Sub/song2.flac", "Album1/song1.mp3"));
    assert!(le("", "a"));
    assert!(!le("a", ""));
    assert!(le("same", "same"));
    assert!(le("a/b", "a!b"));
    assert!(!le("a!b", "a/b"));
    assert!(le("é", "ü"));
}

#[test]
fn strings_compare_by_characters() {
    assert!(str_eq("", ""));
    assert!(str_eq("añb", "añb"));
    assert!(!str_eq("a", "ab"));
    assert!(!str_eq("ab", "ac"));
    assert_eq!(string_of(&chars_of("héllo wörld")), "héllo wörld");
    assert_eq!(chars_of("héllo").len(), 5);
}
