use vstd::prelude::*;
use crate::library::{collected, views, Library, LibraryView, Track, TrackView};
use crate::path_utils::{file_name, last_segment};
use crate::playlist::{encode_path_chars, encoded_path, slashed};
use crate::text::{
    chars_of, copy_opt, opt_view, push_all, push_str, replace_char, string_of, trailing_cut,
    without_trailing,
};
use crate::urlcode::{percent_encode, percent_encoded};

verus! {

/// A subfolder as the folder listing shows it.
#[derive(Clone, Debug, PartialEq, Eq)]
pub struct JsonFolderAlbum {
    pub name: String,
    pub path: String,
}

/// A listed subfolder as plain values.
pub struct AlbumView {
    pub name: Seq<char>,
    pub path: Seq<char>,
}

impl View for JsonFolderAlbum {
    type V = AlbumView;

    open spec fn view(&self) -> AlbumView {
        AlbumView { name: self.name@, path: self.path@ }
    }
}

/// A track as the folder listing shows it.
#[derive(Clone, Debug, PartialEq, Eq)]
pub struct JsonFolderTrack {
    pub name: String,
    pub display_name: String,
    pub relative_path: String,
    pub url: String,
    pub title: Option<String>,
    pub artist: Option<String>,
    pub album: Option<String>,
    /// Playing time in milliseconds.
    pub duration_ms: Option<u64>,
    pub artwork_url: Option<String>,
}

/// A listed track as plain values.
pub struct ListedTrackView {
    pub name: Seq<char>,
    pub display_name: Seq<char>,
    pub relative_path: Seq<char>,
    pub url: Seq<char>,
    pub title: Option<Seq<char>>,
    pub artist: Option<Seq<char>>,
    pub album: Option<Seq<char>>,
    pub duration_ms: Option<u64>,
    pub artwork_url: Option<Seq<char>>,
}

impl View for JsonFolderTrack {
    type V = ListedTrackView;

    open spec fn view(&self) -> ListedTrackView {
        ListedTrackView {
            name: self.name@,
            display_name: self.display_name@,
            relative_path: self.relative_path@,
            url: self.url@,
            title: opt_view(self.title),
            artist: opt_view(self.artist),
            album: opt_view(self.album),
            duration_ms: self.duration_ms,
            artwork_url: opt_view(self.artwork_url),
        }
    }
}

/// The listing of one folder: its subfolders, and all tracks in and below it.
#[derive(Clone, Debug, PartialEq, Eq)]
pub struct JsonFolderResp {
    pub name: String,
    pub path: String,
    pub m3u8: String,
    pub albums: Vec<JsonFolderAlbum>,
    pub tracks: Vec<JsonFolderTrack>,
    pub scanning: bool,
}

/// A folder listing as plain values.
pub struct ListingView {
    pub name: Seq<char>,
    pub path: Seq<char>,
    pub m3u8: Seq<char>,
    pub albums: Seq<AlbumView>,
    pub tracks: Seq<ListedTrackView>,
    pub scanning: bool,
}

impl View for JsonFolderResp {
    type V = ListingView;

    open spec fn view(&self) -> ListingView {
        ListingView {
            name: self.name@,
            path: self.path@,
            m3u8: self.m3u8@,
            albums: Seq::new(self.albums.len() as nat, |i: int| self.albums[i]@),
            tracks: Seq::new(self.tracks.len() as nat, |i: int| self.tracks[i]@),
            scanning: self.scanning,
        }
    }
}

/// The address of the picture with content hash `id`.
pub open spec fn artwork_url(base: Seq<char>, id: Seq<char>) -> Seq<char> {
    without_trailing(base, '/') + "/api/artwork/"@ + id
}

/// How a track is listed: under its file name, shown by its title where it
/// has one, with the URL of the file and of its picture.
pub open spec fn listed_track(base: Seq<char>, t: TrackView) -> ListedTrackView {
    ListedTrackView {
        name: file_name(t.path),
        display_name: match t.metadata.title {
            Some(title) => title,
            None => file_name(t.path),
        },
        relative_path: slashed(t.path),
        url: base + encoded_path(slashed(t.path)),
        title: t.metadata.title,
        artist: t.metadata.artist,
        album: t.metadata.album,
        duration_ms: t.metadata.duration_ms,
        artwork_url: match t.metadata.artwork_id {
            Some(id) => Some(artwork_url(base, id)),
            None => None,
        },
    }
}

/// The name shown for a folder: its last segment, or `/` for the root.
pub open spec fn folder_name(rel: Seq<char>) -> Seq<char> {
    if rel.len() == 0 {
        "/"@
    } else {
        file_name(rel)
    }
}

/// The address of the playlist of a folder.
pub open spec fn playlist_url(base: Seq<char>, rel: Seq<char>) -> Seq<char> {
    without_trailing(base, '/') + "/api/folder.m3u8?path="@ + percent_encoded(rel)
}

/// The subfolders of the folder `rel` as the listing shows them; none where
/// the library has no such folder.
pub open spec fn listed_albums(lib: LibraryView, rel: Seq<char>) -> Seq<AlbumView> {
    if lib.folders.dom().contains(rel) {
        let subs = lib.folders[rel].subfolders;
        Seq::new(subs.len(), |i: int| AlbumView { name: file_name(subs[i]), path: subs[i] })
    } else {
        Seq::empty()
    }
}

/// The tracks in and below the folder `rel` as the listing shows them.
pub open spec fn listed_tracks(lib: LibraryView, base: Seq<char>, rel: Seq<char>) -> Seq<
    ListedTrackView,
> {
    let ids = collected(lib, rel);
    Seq::new(ids.len(), |i: int| listed_track(base, lib.tracks[ids[i] as int]))
}

/// The listing of the folder `rel` of `lib`.
pub open spec fn listing(lib: LibraryView, base: Seq<char>, rel: Seq<char>, scanning: bool) -> ListingView {
    ListingView {
        name: folder_name(rel),
        path: rel,
        m3u8: playlist_url(base, rel),
        albums: listed_albums(lib, rel),
        tracks: listed_tracks(lib, base, rel),
        scanning,
    }
}

/// `base` without the separators at its end.
fn base_stem(base: &str) -> (stem: Vec<char>)
    ensures
        stem@ == without_trailing(base@, '/'),
{
    let chars = chars_of(base);
    let keep = trailing_cut(chars.as_slice(), '/');
    let mut stem: Vec<char> = Vec::new();
    let mut i: usize = 0;
    while i < keep
        invariant
            i <= keep <= chars.len(),
            stem@ == chars@.take(i as int),
        decreases keep - i,
    {
        stem.push(chars[i]);
        i += 1;
    }
    stem
}

/// Lists one track.
pub fn list_track(base: &str, t: &Track) -> (listed: JsonFolderTrack)
    ensures
        listed@ == listed_track(base@, t@),
{
    let path = chars_of(t.path.as_str());
    let name = string_of(last_segment(path.as_slice()).as_slice());
    let display_name = match &t.metadata.title {
        Some(title) => title.clone(),
        None => name.clone(),
    };
    let rel = replace_char(path.as_slice(), '\\', '/');
    let mut url = chars_of(base);
    let coded = encode_path_chars(rel.as_slice());
    push_all(&mut url, coded.as_slice());
    let artwork_url = match &t.metadata.artwork_id {
        Some(id) => {
            let mut link = base_stem(base);
            push_str(&mut link, "/api/artwork/");
            push_str(&mut link, id.as_str());
            Some(string_of(link.as_slice()))
        },
        None => None,
    };
    JsonFolderTrack {
        name,
        display_name,
        relative_path: string_of(rel.as_slice()),
        url: string_of(url.as_slice()),
        title: copy_opt(&t.metadata.title),
        artist: copy_opt(&t.metadata.artist),
        album: copy_opt(&t.metadata.album),
        duration_ms: t.metadata.duration_ms,
        artwork_url,
    }
}

/// Lists the folder `rel` of the library: its name, the address of its
/// playlist, its subfolders, and all tracks in and below it. `base` is the
/// URL under which the library is served.
pub fn folder_response(lib: &Library, base: &str, rel: &str, scanning: bool) -> (resp: JsonFolderResp)
    ensures
        resp@ == listing(lib@, base@, rel@, scanning),
{
    let chars = chars_of(rel);
    let name = if chars.len() == 0 {
        string_of(chars_of("/").as_slice())
    } else {
        string_of(last_segment(chars.as_slice()).as_slice())
    };
    let mut albums: Vec<JsonFolderAlbum> = Vec::new();
    match lib.folder(rel) {
        Some(entry) => {
            let mut i: usize = 0;
            while i < entry.subfolders.len()
                invariant
                    i <= entry.subfolders.len(),
                    albums.len() == i,
                    forall|j: int|
                        0 <= j < i ==> (#[trigger] albums[j])@ == (AlbumView {
                            name: file_name(entry.subfolders[j]@),
                            path: entry.subfolders[j]@,
                        }),
                decreases entry.subfolders.len() - i,
            {
                let child = &entry.subfolders[i];
                let child_chars = chars_of(child.as_str());
                let child_name = string_of(last_segment(child_chars.as_slice()).as_slice());
                albums.push(JsonFolderAlbum { name: child_name, path: child.clone() });
                i += 1;
            }
            assert(views(entry.subfolders@).len() == entry.subfolders.len());
            assert forall|j: int| 0 <= j < albums.len() implies (#[trigger] albums[j])@
                == listed_albums(lib@, rel@)[j] by {
                assert(views(entry.subfolders@)[j] == entry.subfolders[j]@);
            }
        },
        None => {},
    }
    let found = lib.collect_tracks_recursive(rel);
    let mut tracks: Vec<JsonFolderTrack> = Vec::new();
    let mut t: usize = 0;
    while t < found.len()
        invariant
            t <= found.len(),
            tracks.len() == t,
            forall|j: int| 0 <= j < t ==> (#[trigger] tracks[j])@ == listed_track(base@, found[j]@),
        decreases found.len() - t,
    {
        tracks.push(list_track(base, &found[t]));
        t += 1;
    }
    let mut m3u8 = base_stem(base);
    push_str(&mut m3u8, "/api/folder.m3u8?path=");
    push_str(&mut m3u8, percent_encode(rel).as_str());
    let resp = JsonFolderResp {
        name,
        path: string_of(chars.as_slice()),
        m3u8: string_of(m3u8.as_slice()),
        albums,
        tracks,
        scanning,
    };
    assert(resp@.albums =~= listed_albums(lib@, rel@));
    assert(resp@.tracks =~= listed_tracks(lib@, base@, rel@));
    resp
}

} // verus!
