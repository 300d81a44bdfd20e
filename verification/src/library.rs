use std::sync::Arc;
use vstd::prelude::*;
use crate::artworks::ArtworkMap;
use crate::digest::{blake3_hex, content_hash};
use crate::folders::{collect, depth_bound, is_index_of, FolderIndex};
use crate::order::{lemma_le_refl, lemma_le_trans, path_le, path_le_chars, sorted};
use crate::path_utils::{indexable, is_indexable};
use crate::snapshot::{
    artwork_pairs, distinct_keys, folder_pairs, folders_fit, folders_match, lemma_map_of, loaded,
    map_of,
    snapshot_error, snapshot_of, snapshot_tracks, ArtworkSnapshot, LibrarySnapshot, SnapshotError,
    TrackSnapshot,
};
use crate::sorting::{sort_tracks, sorted_from};
use crate::text::{chars_of, copy_opt, opt_view};

verus! {

/// What the tags of an audio file say about it. A field the tags do not give
/// is `None`, never an empty placeholder.
#[derive(Clone, Debug, PartialEq, Eq)]
pub struct TrackMetadata {
    pub title: Option<String>,
    pub artist: Option<String>,
    pub album: Option<String>,
    /// Playing time in milliseconds; where present it is positive.
    pub duration_ms: Option<u64>,
    /// The content hash of the cover image, the key of the library's artwork map.
    pub artwork_id: Option<String>,
}

/// The metadata of a track as plain values.
pub struct TrackMetadataView {
    pub title: Option<Seq<char>>,
    pub artist: Option<Seq<char>>,
    pub album: Option<Seq<char>>,
    pub duration_ms: Option<u64>,
    pub artwork_id: Option<Seq<char>>,
}

impl View for TrackMetadata {
    type V = TrackMetadataView;

    open spec fn view(&self) -> TrackMetadataView {
        TrackMetadataView {
            title: opt_view(self.title),
            artist: opt_view(self.artist),
            album: opt_view(self.album),
            duration_ms: self.duration_ms,
            artwork_id: opt_view(self.artwork_id),
        }
    }
}

impl Default for TrackMetadata {
    fn default() -> (m: TrackMetadata)
        ensures
            m@ == (TrackMetadataView {
                title: None,
                artist: None,
                album: None,
                duration_ms: None,
                artwork_id: None,
            }),
    {
        TrackMetadata { title: None, artist: None, album: None, duration_ms: None, artwork_id: None }
    }
}

/// One audio file of the library.
#[derive(Clone, Debug, PartialEq, Eq)]
pub struct Track {
    /// The file's path below the library root, its segments joined by `/`.
    pub path: String,
    /// The file's size in bytes, where it could be read.
    pub size: Option<u64>,
    pub metadata: TrackMetadata,
}

/// A track as plain values.
pub struct TrackView {
    pub path: Seq<char>,
    pub size: Option<u64>,
    pub metadata: TrackMetadataView,
}

impl View for Track {
    type V = TrackView;

    open spec fn view(&self) -> TrackView {
        TrackView { path: self.path@, size: self.size, metadata: self.metadata@ }
    }
}

/// A cover image, stored once however many tracks carry it.
#[derive(Clone, Debug, PartialEq, Eq)]
pub struct Artwork {
    pub mime: String,
    pub data: Arc<Vec<u8>>,
}

/// A picture as plain values: its type and its bytes.
pub struct ArtworkView {
    pub mime: Seq<char>,
    pub data: Seq<u8>,
}

impl View for Artwork {
    type V = ArtworkView;

    open spec fn view(&self) -> ArtworkView {
        ArtworkView { mime: self.mime@, data: self.data@ }
    }
}

/// One folder of the library: the keys of the folders directly below it, in
/// ascending order, and the indices of the tracks that lie directly in it.
#[derive(Clone, Debug, PartialEq, Eq)]
pub struct FolderEntry {
    pub subfolders: Vec<String>,
    pub tracks: Vec<usize>,
}

/// A folder entry as plain values.
pub struct FolderView {
    pub subfolders: Seq<Seq<char>>,
    pub tracks: Seq<usize>,
}

/// The characters of each string of a sequence.
pub open spec fn views(v: Seq<String>) -> Seq<Seq<char>> {
    Seq::new(v.len(), |i: int| v[i]@)
}

impl View for FolderEntry {
    type V = FolderView;

    open spec fn view(&self) -> FolderView {
        FolderView { subfolders: views(self.subfolders@), tracks: self.tracks@ }
    }
}

impl Default for FolderEntry {
    fn default() -> (e: FolderEntry)
        ensures
            e@.subfolders.len() == 0,
            e@.tracks.len() == 0,
    {
        FolderEntry { subfolders: Vec::new(), tracks: Vec::new() }
    }
}

/// The paths of a sequence of tracks.
pub open spec fn paths_of(tracks: Seq<Arc<Track>>) -> Seq<Seq<char>> {
    Seq::new(tracks.len(), |i: int| tracks[i].path@)
}

/// The views of a sequence of tracks.
pub open spec fn track_views(tracks: Seq<Arc<Track>>) -> Seq<TrackView> {
    Seq::new(tracks.len(), |i: int| tracks[i]@)
}

/// The paths of a sequence of track views.
pub open spec fn view_paths(tracks: Seq<TrackView>) -> Seq<Seq<char>> {
    Seq::new(tracks.len(), |i: int| tracks[i].path)
}

/// A picture as the tag reader hands it over.
#[derive(Clone, Debug, PartialEq, Eq)]
pub struct Picture {
    pub mime: String,
    pub data: Vec<u8>,
}

/// A picture from the tag reader as plain values.
pub struct PictureView {
    pub mime: Seq<char>,
    pub data: Seq<u8>,
}

impl View for Picture {
    type V = PictureView;

    open spec fn view(&self) -> PictureView {
        PictureView { mime: self.mime@, data: self.data@ }
    }
}

/// A picture with the key under which it is to be stored.
#[derive(Clone, Debug, PartialEq, Eq)]
pub struct ArtworkBlob {
    pub id: String,
    pub mime: String,
    pub data: Vec<u8>,
}

/// A picture with its key as plain values.
pub struct ArtworkBlobView {
    pub id: Seq<char>,
    pub mime: Seq<char>,
    pub data: Seq<u8>,
}

impl View for ArtworkBlob {
    type V = ArtworkBlobView;

    open spec fn view(&self) -> ArtworkBlobView {
        ArtworkBlobView { id: self.id@, mime: self.mime@, data: self.data@ }
    }
}

/// One file that the walk of the root directory came upon, with what could
/// be read of it.
#[derive(Clone, Debug, PartialEq, Eq)]
pub struct ScannedFile {
    /// The file's path below the root, its segments joined by `/`.
    pub path: String,
    pub size: Option<u64>,
    pub title: Option<String>,
    pub artist: Option<String>,
    pub album: Option<String>,
    /// Playing time in milliseconds, as far as the file tells.
    pub duration_ms: Option<u64>,
    /// The first picture in the file's tags.
    pub artwork: Option<Picture>,
}

/// A scanned file as plain values.
pub struct ScannedFileView {
    pub path: Seq<char>,
    pub size: Option<u64>,
    pub title: Option<Seq<char>>,
    pub artist: Option<Seq<char>>,
    pub album: Option<Seq<char>>,
    pub duration_ms: Option<u64>,
    pub artwork: Option<PictureView>,
}

impl View for ScannedFile {
    type V = ScannedFileView;

    open spec fn view(&self) -> ScannedFileView {
        ScannedFileView {
            path: self.path@,
            size: self.size,
            title: opt_view(self.title),
            artist: opt_view(self.artist),
            album: opt_view(self.album),
            duration_ms: self.duration_ms,
            artwork: match self.artwork {
                Some(picture) => Some(picture@),
                None => None,
            },
        }
    }
}

/// The views of a sequence of scanned files.
pub open spec fn file_views(files: Seq<ScannedFile>) -> Seq<ScannedFileView> {
    Seq::new(files.len(), |i: int| files[i]@)
}

/// A scanned file whose picture has its key.
#[derive(Clone, Debug, PartialEq, Eq)]
pub struct FoundFile {
    /// The file's path below the root, its segments joined by `/`.
    pub path: String,
    pub size: Option<u64>,
    pub title: Option<String>,
    pub artist: Option<String>,
    pub album: Option<String>,
    /// Playing time in milliseconds, as far as the file tells.
    pub duration_ms: Option<u64>,
    /// The first picture in the file's tags, with its key.
    pub artwork: Option<ArtworkBlob>,
}

/// A found file as plain values.
pub struct FoundFileView {
    pub path: Seq<char>,
    pub size: Option<u64>,
    pub title: Option<Seq<char>>,
    pub artist: Option<Seq<char>>,
    pub album: Option<Seq<char>>,
    pub duration_ms: Option<u64>,
    pub artwork: Option<ArtworkBlobView>,
}

impl View for FoundFile {
    type V = FoundFileView;

    open spec fn view(&self) -> FoundFileView {
        FoundFileView {
            path: self.path@,
            size: self.size,
            title: opt_view(self.title),
            artist: opt_view(self.artist),
            album: opt_view(self.album),
            duration_ms: self.duration_ms,
            artwork: match self.artwork {
                Some(blob) => Some(blob@),
                None => None,
            },
        }
    }
}

/// The views of a sequence of found files.
pub open spec fn found_views(files: Seq<FoundFile>) -> Seq<FoundFileView> {
    Seq::new(files.len(), |i: int| files[i]@)
}

/// A scanned file with the key of its picture: the content hash of the
/// picture's bytes.
pub open spec fn identified(file: ScannedFileView) -> FoundFileView {
    FoundFileView {
        path: file.path,
        size: file.size,
        title: file.title,
        artist: file.artist,
        album: file.album,
        duration_ms: file.duration_ms,
        artwork: match file.artwork {
            Some(picture) => Some(
                ArtworkBlobView {
                    id: blake3_hex(picture.data),
                    mime: picture.mime,
                    data: picture.data,
                },
            ),
            None => None,
        },
    }
}

/// Each of the scanned files with the key of its picture.
pub open spec fn identified_all(files: Seq<ScannedFileView>) -> Seq<FoundFileView> {
    Seq::new(files.len(), |i: int| identified(files[i]))
}

/// The playing time that a track keeps: the one given, unless that is zero.
pub open spec fn positive(duration_ms: Option<u64>) -> Option<u64> {
    match duration_ms {
        Some(d) => if d > 0 {
            Some(d)
        } else {
            None
        },
        None => None,
    }
}

/// The key of the picture of a file, where it has one.
pub open spec fn artwork_key(file: FoundFileView) -> Option<Seq<char>> {
    match file.artwork {
        Some(blob) => Some(blob.id),
        None => None,
    }
}

/// The track that a found file becomes.
pub open spec fn track_of(file: FoundFileView) -> TrackView {
    TrackView {
        path: file.path,
        size: file.size,
        metadata: TrackMetadataView {
            title: file.title,
            artist: file.artist,
            album: file.album,
            duration_ms: positive(file.duration_ms),
            artwork_id: artwork_key(file),
        },
    }
}

/// The tracks of the files that are indexed, in the order of the files.
pub open spec fn tracks_found(files: Seq<FoundFileView>) -> Seq<TrackView>
    decreases files.len(),
{
    if files.len() == 0 {
        Seq::empty()
    } else if indexable(files.last().path) {
        tracks_found(files.drop_last()).push(track_of(files.last()))
    } else {
        tracks_found(files.drop_last())
    }
}

/// The pictures of the files that are indexed, each under its key. Where
/// several files carry a picture with one key, the picture of the first of
/// them is the one that is kept.
pub open spec fn artworks_found(files: Seq<FoundFileView>) -> Map<Seq<char>, ArtworkView>
    decreases files.len(),
{
    if files.len() == 0 {
        Map::empty()
    } else {
        let before = artworks_found(files.drop_last());
        let file = files.last();
        match file.artwork {
            Some(blob) => if indexable(file.path) && !before.dom().contains(blob.id) {
                before.insert(blob.id, ArtworkView { mime: blob.mime, data: blob.data })
            } else {
                before
            },
            None => before,
        }
    }
}

/// Calls `Arc::clone`, which gives a second handle to the value that
/// `handle` points to; the value itself is not copied. That the two handles
/// lead to the same value is taken on trust from its documentation.
#[verifier::external_body]
fn share<T>(handle: &Arc<T>) -> (other: Arc<T>)
    ensures
        other == *handle,
{
    Arc::clone(handle)
}

/// Gives the picture of a scanned file its key, the content hash of its bytes.
pub fn identify(file: ScannedFile) -> (found: FoundFile)
    ensures
        found@ == identified(file@),
{
    let ScannedFile { path, size, title, artist, album, duration_ms, artwork } = file;
    let artwork = match artwork {
        Some(picture) => {
            let id = content_hash(picture.data.as_slice());
            Some(ArtworkBlob { id, mime: picture.mime, data: picture.data })
        },
        None => None,
    };
    FoundFile { path, size, title, artist, album, duration_ms, artwork }
}

/// A copy of the metadata of a track.
pub fn copy_metadata(m: &TrackMetadata) -> (copy: TrackMetadata)
    ensures
        copy@ == m@,
{
    TrackMetadata {
        title: copy_opt(&m.title),
        artist: copy_opt(&m.artist),
        album: copy_opt(&m.album),
        duration_ms: m.duration_ms,
        artwork_id: copy_opt(&m.artwork_id),
    }
}

/// A copy of a folder entry.
pub fn copy_entry(e: &FolderEntry) -> (copy: FolderEntry)
    ensures
        copy@ == e@,
{
    let mut subfolders: Vec<String> = Vec::new();
    let mut i: usize = 0;
    while i < e.subfolders.len()
        invariant
            i <= e.subfolders.len(),
            subfolders.len() == i,
            forall|j: int| 0 <= j < i ==> subfolders[j]@ == e.subfolders[j]@,
        decreases e.subfolders.len() - i,
    {
        subfolders.push(e.subfolders[i].clone());
        i += 1;
    }
    let mut tracks: Vec<usize> = Vec::new();
    let mut t: usize = 0;
    while t < e.tracks.len()
        invariant
            t <= e.tracks.len(),
            tracks@ == e.tracks@.take(t as int),
        decreases e.tracks.len() - t,
    {
        tracks.push(e.tracks[t]);
        t += 1;
    }
    assert(views(subfolders@) =~= views(e.subfolders@));
    assert(e.tracks@.take(e.tracks.len() as int) == e.tracks@);
    FolderEntry { subfolders, tracks }
}

/// A copy of a run of bytes.
pub fn copy_bytes(data: &[u8]) -> (copy: Vec<u8>)
    ensures
        copy@ == data@,
{
    let mut copy: Vec<u8> = Vec::new();
    let mut i: usize = 0;
    while i < data.len()
        invariant
            i <= data.len(),
            copy@ == data@.take(i as int),
        decreases data.len() - i,
    {
        copy.push(data[i]);
        i += 1;
    }
    assert(data@.take(data.len() as int) == data@);
    copy
}

/// One snapshot of a music directory: its tracks in the order of their
/// paths, the folder index of those tracks, and the cover images. A library
/// is built in one piece and never changed afterwards.
pub struct Library {
    root: String,
    tracks: Vec<Arc<Track>>,
    folders: FolderIndex,
    artworks: ArtworkMap,
}

/// A library as plain values: what its contracts speak of.
pub struct LibraryView {
    pub root: Seq<char>,
    pub tracks: Seq<TrackView>,
    pub folders: Map<Seq<char>, FolderView>,
    pub artworks: Map<Seq<char>, ArtworkView>,
}

impl View for Library {
    type V = LibraryView;

    closed spec fn view(&self) -> LibraryView {
        LibraryView {
            root: self.root@,
            tracks: track_views(self.tracks@),
            folders: self.folders@,
            artworks: self.artworks@,
        }
    }
}

/// What holds of every library: the tracks are in the order of their paths,
/// and the folders are the folder index of the tracks.
pub open spec fn consistent(lib: LibraryView) -> bool {
    &&& sorted(view_paths(lib.tracks))
    &&& is_index_of(lib.folders, view_paths(lib.tracks))
}

/// `lib` is the library of the files found below `root`: its tracks are
/// those of the files that are indexed, sorted by path, tracks of one path in
/// the order of the files; its folders are the folder index of its tracks;
/// its pictures are those of the indexed files.
pub open spec fn holds_files(lib: LibraryView, root: Seq<char>, files: Seq<FoundFileView>) -> bool {
    &&& lib.root == root
    &&& sorted_from(lib.tracks, tracks_found(files))
    &&& is_index_of(lib.folders, view_paths(lib.tracks))
    &&& lib.artworks == artworks_found(files)
}

/// `lib` is what a scan makes of the files that the walk below `root` came
/// upon: the library of those files, each picture under its content hash.
pub open spec fn is_scan_of(lib: LibraryView, root: Seq<char>, files: Seq<ScannedFileView>) -> bool {
    holds_files(lib, root, identified_all(files))
}

/// The indices of the tracks in and below the folder `key` of `lib`, in the
/// order in which a depth-first walk of the folders meets them.
pub open spec fn collected(lib: LibraryView, key: Seq<char>) -> Seq<usize> {
    collect(lib.folders, key, depth_bound(view_paths(lib.tracks)))
}

impl Library {
    #[verifier::type_invariant]
    spec fn inv(self) -> bool {
        &&& self.folders.wf()
        &&& self.artworks.wf()
        &&& consistent(self@)
    }

    /// Indexes the files that a walk of the directory `root` found. A file is
    /// taken when its path has an audio extension and no hidden segment. The
    /// tracks are sorted by path, the folder index is built over them, and
    /// each picture is stored once under its content hash.
    pub fn scan(root: String, files: Vec<ScannedFile>) -> (lib: Library)
        ensures
            consistent(lib@),
            is_scan_of(lib@, root@, file_views(files@)),
    {
        let ghost input = file_views(files@);
        let mut found: Vec<FoundFile> = Vec::new();
        for file in it: files.into_iter()
            invariant
                file_views(it.seq()) == input,
                found_views(found@) == identified_all(input.take(it.index() as int)),
        {
            let ghost before = found_views(found@);
            assert(input[it.index() as int] == file@);
            let with_key = identify(file);
            found.push(with_key);
            assert(found_views(found@) =~= before.push(identified(file@)));
            assert(identified_all(input.take(it.index() + 1)) =~= identified_all(
                input.take(it.index() as int),
            ).push(identified(file@)));
        }
        assert(input.take(input.len() as int) == input);
        Library::from_files(root, found)
    }

    /// The library of files whose pictures have their keys already. A file is
    /// taken when its path has an audio extension and no hidden segment. The
    /// tracks are sorted by path, the folder index is built over them, and
    /// of the pictures with one key the first is stored.
    pub fn from_files(root: String, files: Vec<FoundFile>) -> (lib: Library)
        ensures
            consistent(lib@),
            holds_files(lib@, root@, found_views(files@)),
    {
        let ghost input = found_views(files@);
        let mut found: Vec<Arc<Track>> = Vec::new();
        let mut artworks = ArtworkMap::new();
        assert(input.take(0) == Seq::<FoundFileView>::empty());
        assert(track_views(found@) == Seq::<TrackView>::empty());
        for file in it: files.into_iter()
            invariant
                found_views(it.seq()) == input,
                artworks.wf(),
                track_views(found@) == tracks_found(input.take(it.index() as int)),
                artworks@ == artworks_found(input.take(it.index() as int)),
        {
            let ghost before = track_views(found@);
            proof {
                assert(input[it.index() as int] == file@);
                assert(input.take(it.index() + 1).drop_last() == input.take(it.index() as int));
                assert(input.take(it.index() + 1).last() == file@);
            }
            if is_indexable(file.path.as_str()) {
                let FoundFile { path, size, title, artist, album, duration_ms, artwork } = file;
                let artwork_id = match artwork {
                    Some(blob) => {
                        let art = Artwork { mime: blob.mime, data: Arc::new(blob.data) };
                        artworks.insert_if_absent(blob.id.clone(), art);
                        Some(blob.id)
                    },
                    None => None,
                };
                let duration_ms = match duration_ms {
                    Some(d) => if d > 0 {
                        Some(d)
                    } else {
                        None
                    },
                    None => None,
                };
                let metadata = TrackMetadata { title, artist, album, duration_ms, artwork_id };
                let track = Arc::new(Track { path, size, metadata });
                assert(track@ == track_of(file@));
                found.push(track);
                assert(track_views(found@) == before.push(track_of(file@)));
            }
        }
        assert(input.take(input.len() as int) == input);
        let tracks = sort_tracks(found);
        let folders = FolderIndex::build(tracks.as_slice());
        assert(paths_of(tracks@) == view_paths(track_views(tracks@)));
        Library { root, tracks, folders, artworks }
    }

    /// The library of a root of which nothing is known yet: no tracks, no
    /// pictures, and the root folder alone.
    pub fn empty(root: String) -> (lib: Library)
        ensures
            consistent(lib@),
            lib@.root == root@,
            lib@.tracks.len() == 0,
            lib@.artworks == Map::<Seq<char>, ArtworkView>::empty(),
    {
        let tracks: Vec<Arc<Track>> = Vec::new();
        let folders = FolderIndex::new();
        assert(view_paths(track_views(tracks@)) == Seq::<Seq<char>>::empty());
        Library { root, tracks, folders, artworks: ArtworkMap::new() }
    }

    /// The directory that the library was made for.
    pub fn root(&self) -> (root: &String)
        ensures
            root@ == self@.root,
    {
        &self.root
    }

    /// All tracks, in the order of their paths.
    pub fn tracks(&self) -> (tracks: &[Arc<Track>])
        ensures
            track_views(tracks@) == self@.tracks,
            consistent(self@),
    {
        proof {
            use_type_invariant(self);
        }
        self.tracks.as_slice()
    }

    /// The entry of the folder with key `rel`; the root folder has the empty key.
    pub fn folder(&self, rel: &str) -> (entry: Option<&FolderEntry>)
        ensures
            consistent(self@),
            match entry {
                Some(e) => self@.folders.dom().contains(rel@) && e@ == self@.folders[rel@],
                None => !self@.folders.dom().contains(rel@),
            },
    {
        proof {
            use_type_invariant(self);
        }
        self.folders.get(rel)
    }

    /// The tracks in and below the folder `rel`, depth first: the folder's
    /// own tracks, then those of each subfolder in turn. An unknown key gives
    /// no tracks.
    pub fn collect_tracks_recursive(&self, rel: &str) -> (out: Vec<Arc<Track>>)
        ensures
            consistent(self@),
            out.len() == collected(self@, rel@).len(),
            forall|j: int|
                0 <= j < out.len() ==> collected(self@, rel@)[j] < self@.tracks.len() && (
                #[trigger] out[j])@ == self@.tracks[collected(self@, rel@)[j] as int],
    {
        proof {
            use_type_invariant(self);
        }
        let ghost paths = view_paths(self@.tracks);
        let mut ids: Vec<usize> = Vec::new();
        match self.folders.find(rel) {
            Some(slot) => {
                self.folders.collect_into(slot, &mut ids, Ghost(paths));
            },
            None => {},
        }
        assert(ids@ == collected(self@, rel@));
        let mut out: Vec<Arc<Track>> = Vec::new();
        let mut j: usize = 0;
        while j < ids.len()
            invariant
                j <= ids.len(),
                out.len() == j,
                track_views(self.tracks@).len() == paths.len(),
                forall|i: int| 0 <= i < ids.len() ==> ids[i] < paths.len(),
                forall|i: int| 0 <= i < j ==> (#[trigger] out[i])@ == self.tracks[ids[i] as int]@,
            decreases ids.len() - j,
        {
            out.push(share(&self.tracks[ids[j]]));
            j += 1;
        }
        out
    }

    /// The library as plain values, to be written to the cache file.
    pub fn to_snapshot(&self) -> (snap: LibrarySnapshot)
        ensures
            snapshot_of(snap@, self@),
    {
        proof {
            use_type_invariant(self);
        }
        let mut tracks: Vec<TrackSnapshot> = Vec::new();
        let mut t: usize = 0;
        while t < self.tracks.len()
            invariant
                t <= self.tracks.len(),
                tracks.len() == t,
                forall|j: int| 0 <= j < t ==> (#[trigger] tracks[j])@ == self.tracks[j]@,
            decreases self.tracks.len() - t,
        {
            let track = &self.tracks[t];
            tracks.push(
                TrackSnapshot {
                    path: track.path.clone(),
                    size: track.size,
                    metadata: copy_metadata(&track.metadata),
                },
            );
            t += 1;
        }
        assert(snapshot_tracks(tracks@) =~= track_views(self.tracks@));
        let mut folders: Vec<(String, FolderEntry)> = Vec::new();
        let mut f: usize = 0;
        while f < self.folders.len()
            invariant
                f <= self.folders.count(),
                self.folders.wf(),
                folders.len() == f,
                forall|j: int|
                    0 <= j < f ==> (#[trigger] folders[j]).0@ == self.folders.key_at(j)
                        && folders[j].1@ == self.folders.entry_at(j),
            decreases self.folders.count() - f,
        {
            folders.push((self.folders.key(f).clone(), copy_entry(self.folders.entry(f))));
            f += 1;
        }
        let mut artworks: Vec<(String, ArtworkSnapshot)> = Vec::new();
        let mut a: usize = 0;
        while a < self.artworks.len()
            invariant
                a <= self.artworks.count(),
                self.artworks.wf(),
                artworks.len() == a,
                forall|j: int|
                    0 <= j < a ==> (#[trigger] artworks[j]).0@ == self.artworks.key_at(j)
                        && artworks[j].1@ == self.artworks.item_at(j),
            decreases self.artworks.count() - a,
        {
            let art = self.artworks.item(a);
            let copy = ArtworkSnapshot { mime: art.mime.clone(), data: copy_bytes(art.data.as_slice()) };
            artworks.push((self.artworks.key(a).clone(), copy));
            a += 1;
        }
        proof {
            self.folders.lemma_slots();
            self.artworks.lemma_slots();
            let fp = folder_pairs(folders@);
            let ap = artwork_pairs(artworks@);
            assert forall|i: int, j: int| 0 <= i < j < fp.len() implies (#[trigger] fp[i]).0 != (
            #[trigger] fp[j]).0 by {
                assert(fp[i].0 == self.folders.key_at(i) && fp[j].0 == self.folders.key_at(j));
            }
            assert forall|i: int, j: int| 0 <= i < j < ap.len() implies (#[trigger] ap[i]).0 != (
            #[trigger] ap[j]).0 by {
                assert(ap[i].0 == self.artworks.key_at(i) && ap[j].0 == self.artworks.key_at(j));
            }
            lemma_map_of(fp);
            lemma_map_of(ap);
            assert forall|k: Seq<char>| map_of(fp).dom().contains(k) <==> self.folders@.dom().contains(
                k,
            ) by {
                if map_of(fp).dom().contains(k) {
                    let i = choose|i: int| 0 <= i < fp.len() && (#[trigger] fp[i]).0 == k;
                    assert(self.folders.key_at(i) == k);
                }
                if self.folders@.dom().contains(k) {
                    let i = choose|i: int| 0 <= i < self.folders.count() && self.folders.key_at(i) == k;
                    assert(fp[i].0 == k);
                }
            }
            assert forall|k: Seq<char>| map_of(fp).dom().contains(k) implies #[trigger] map_of(fp)[k]
                == self.folders@[k] by {
                let i = choose|i: int| 0 <= i < fp.len() && (#[trigger] fp[i]).0 == k;
                assert(self.folders.key_at(i) == k);
            }
            assert(map_of(fp).dom() =~= self.folders@.dom());
            assert(map_of(fp) =~= self.folders@);
            assert forall|k: Seq<char>| map_of(ap).dom().contains(k) <==> self.artworks@.dom().contains(
                k,
            ) by {
                if map_of(ap).dom().contains(k) {
                    let i = choose|i: int| 0 <= i < ap.len() && (#[trigger] ap[i]).0 == k;
                    assert(self.artworks.key_at(i) == k);
                }
                if self.artworks@.dom().contains(k) {
                    let i = choose|i: int|
                        0 <= i < self.artworks.count() && self.artworks.key_at(i) == k;
                    assert(ap[i].0 == k);
                }
            }
            assert forall|k: Seq<char>| map_of(ap).dom().contains(k) implies #[trigger] map_of(ap)[k]
                == self.artworks@[k] by {
                let i = choose|i: int| 0 <= i < ap.len() && (#[trigger] ap[i]).0 == k;
                assert(self.artworks.key_at(i) == k);
            }
            assert(map_of(ap).dom() =~= self.artworks@.dom());
            assert(map_of(ap) =~= self.artworks@);
        }
        LibrarySnapshot { tracks, folders, artworks }
    }

    /// The library that a snapshot holds, for the root `root`. A snapshot is
    /// taken only if its tracks are sorted, its folders are the folder index
    /// of its tracks, and no picture key is listed twice; else the first of
    /// these that fails is the error.
    pub fn from_snapshot(root: String, snapshot: LibrarySnapshot) -> (result: Result<
        Library,
        SnapshotError,
    >)
        ensures
            match result {
                Ok(lib) => snapshot_error(snapshot@) is None && lib@ == loaded(root@, snapshot@),
                Err(e) => snapshot_error(snapshot@) == Some(e),
            },
    {
        let ghost snap = snapshot@;
        let ghost paths = view_paths(snap.tracks);
        let LibrarySnapshot { tracks: listed, folders: pairs, artworks: pictures } = snapshot;
        let mut tracks: Vec<Arc<Track>> = Vec::new();
        let mut last: Vec<char> = Vec::new();
        for t in it: listed.into_iter()
            invariant
                snap == snapshot@,
                snapshot_tracks(it.seq()) == snap.tracks,
                paths == view_paths(snap.tracks),
                tracks.len() == it.index(),
                track_views(tracks@) == snap.tracks.take(it.index() as int),
                sorted(paths.take(it.index() as int)),
                it.index() > 0 ==> last@ == paths[it.index() - 1],
        {
            let ghost n = it.index() as int;
            assert(snap.tracks[n] == t@);
            let key = chars_of(t.path.as_str());
            assert(key@ == paths[n]);
            if tracks.len() > 0 && !path_le_chars(last.as_slice(), key.as_slice()) {
                assert(!path_le(paths[n - 1], paths[n]));
                return Err(SnapshotError::TracksNotSorted);
            }
            proof {
                let head = paths.take(n);
                let next = paths.take(n + 1);
                assert forall|i: int, j: int| 0 <= i <= j < next.len() implies path_le(
                    #[trigger] next[i],
                    #[trigger] next[j],
                ) by {
                    if j < n {
                        assert(path_le(head[i], head[j]));
                    } else if i == j {
                        lemma_le_refl(next[i]);
                    } else {
                        assert(path_le(head[i], head[n - 1]));
                        lemma_le_trans(next[i], paths[n - 1], next[j]);
                    }
                }
            }
            let ghost before = track_views(tracks@);
            let TrackSnapshot { path, size, metadata } = t;
            tracks.push(Arc::new(Track { path, size, metadata }));
            assert(track_views(tracks@) == before.push(t@));
            assert(snap.tracks.take(n + 1) == snap.tracks.take(n).push(t@));
            last = key;
        }
        assert(paths.take(paths.len() as int) == paths);
        assert(snap.tracks.take(snap.tracks.len() as int) == snap.tracks);
        let folders = FolderIndex::build(tracks.as_slice());
        assert(paths_of(tracks@) == paths);
        if !folders_match(&folders, &pairs, Ghost(paths)) {
            return Err(SnapshotError::FoldersNotIndex);
        }
        let ghost ap = snap.artworks;
        let mut artworks = ArtworkMap::new();
        assert(ap.take(0) == Seq::<(Seq<char>, ArtworkView)>::empty());
        for p in it: pictures.into_iter()
            invariant
                snap == snapshot@,
                ap == snap.artworks,
                sorted(view_paths(snap.tracks)),
                folders_fit(snap),
                artwork_pairs(it.seq()) == ap,
                artworks.wf(),
                distinct_keys(ap.take(it.index() as int)),
                artworks@ == map_of(ap.take(it.index() as int)),
        {
            let ghost n = it.index() as int;
            let ghost head = ap.take(n);
            let ghost next = ap.take(n + 1);
            assert(ap[n] == (p.0@, p.1@));
            proof {
                lemma_map_of(head);
                assert(next.drop_last() == head);
            }
            let (key, picture) = p;
            let art = Artwork { mime: picture.mime, data: Arc::new(picture.data) };
            if !artworks.insert_if_absent(key, art) {
                proof {
                    let i = choose|i: int| 0 <= i < head.len() && (#[trigger] head[i]).0 == ap[n].0;
                    assert(ap[i].0 == ap[n].0);
                }
                return Err(SnapshotError::DuplicateArtwork);
            }
            proof {
                assert forall|i: int, j: int| 0 <= i < j < next.len() implies (#[trigger] next[i]).0
                    != (#[trigger] next[j]).0 by {
                    if j < n {
                        assert(head[i].0 != head[j].0);
                    } else {
                        assert(head[i].0 == next[i].0);
                    }
                }
            }
        }
        assert(ap.take(ap.len() as int) == ap);
        Ok(Library { root, tracks, folders, artworks })
    }

    /// The picture stored under the content hash `id`. The bytes are shared
    /// with the library, not copied.
    pub fn artwork(&self, id: &str) -> (art: Option<Artwork>)
        ensures
            match art {
                Some(a) => self@.artworks.dom().contains(id@) && a@ == self@.artworks[id@],
                None => !self@.artworks.dom().contains(id@),
            },
    {
        proof {
            use_type_invariant(self);
        }
        match self.artworks.get(id) {
            Some(a) => Some(Artwork { mime: a.mime.clone(), data: share(&a.data) }),
            None => None,
        }
    }
}

} // verus!
