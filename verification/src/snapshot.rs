use vstd::prelude::*;
use crate::folders::{is_index_of, lemma_index_unique, FolderIndex};
use crate::keyindex::KeyIndex;
use crate::library::{
    consistent, view_paths, views, ArtworkView, FolderEntry, FolderView, LibraryView,
    TrackMetadata, TrackView,
};
use crate::order::sorted;

verus! {

/// A track as the cache file holds it.
#[derive(Clone, Debug, PartialEq, Eq)]
pub struct TrackSnapshot {
    pub path: String,
    pub size: Option<u64>,
    pub metadata: TrackMetadata,
}

impl View for TrackSnapshot {
    type V = TrackView;

    open spec fn view(&self) -> TrackView {
        TrackView { path: self.path@, size: self.size, metadata: self.metadata@ }
    }
}

/// A cover image as the cache file holds it, bytes and all.
#[derive(Clone, Debug, PartialEq, Eq)]
pub struct ArtworkSnapshot {
    pub mime: String,
    pub data: Vec<u8>,
}

impl View for ArtworkSnapshot {
    type V = ArtworkView;

    open spec fn view(&self) -> ArtworkView {
        ArtworkView { mime: self.mime@, data: self.data@ }
    }
}

/// All of a library but its root, as plain values: what the cache file holds.
/// The folders and the pictures are listed as pairs of key and value.
#[derive(Clone, Debug, PartialEq, Eq)]
pub struct LibrarySnapshot {
    pub tracks: Vec<TrackSnapshot>,
    pub folders: Vec<(String, FolderEntry)>,
    pub artworks: Vec<(String, ArtworkSnapshot)>,
}

/// A snapshot as plain values.
pub struct SnapshotView {
    pub tracks: Seq<TrackView>,
    pub folders: Seq<(Seq<char>, FolderView)>,
    pub artworks: Seq<(Seq<char>, ArtworkView)>,
}

/// The views of a list of tracks of a snapshot.
pub open spec fn snapshot_tracks(tracks: Seq<TrackSnapshot>) -> Seq<TrackView> {
    Seq::new(tracks.len(), |i: int| tracks[i]@)
}

/// The views of a list of folders, each with its key.
pub open spec fn folder_pairs(pairs: Seq<(String, FolderEntry)>) -> Seq<(Seq<char>, FolderView)> {
    Seq::new(pairs.len(), |i: int| (pairs[i].0@, pairs[i].1@))
}

/// The views of a list of pictures, each with its key.
pub open spec fn artwork_pairs(pairs: Seq<(String, ArtworkSnapshot)>) -> Seq<
    (Seq<char>, ArtworkView),
> {
    Seq::new(pairs.len(), |i: int| (pairs[i].0@, pairs[i].1@))
}

impl View for LibrarySnapshot {
    type V = SnapshotView;

    open spec fn view(&self) -> SnapshotView {
        SnapshotView {
            tracks: snapshot_tracks(self.tracks@),
            folders: folder_pairs(self.folders@),
            artworks: artwork_pairs(self.artworks@),
        }
    }
}

/// No key stands twice in the list.
pub open spec fn distinct_keys<V>(pairs: Seq<(Seq<char>, V)>) -> bool {
    forall|i: int, j: int| 0 <= i < j < pairs.len() ==> pairs[i].0 != pairs[j].0
}

/// The map that a list of pairs spells out.
pub open spec fn map_of<V>(pairs: Seq<(Seq<char>, V)>) -> Map<Seq<char>, V>
    decreases pairs.len(),
{
    if pairs.len() == 0 {
        Map::empty()
    } else {
        map_of(pairs.drop_last()).insert(pairs.last().0, pairs.last().1)
    }
}

/// The map of a list without a repeated key has the keys of the list and
/// gives each the value that stands beside it.
pub proof fn lemma_map_of<V>(pairs: Seq<(Seq<char>, V)>)
    requires
        distinct_keys(pairs),
    ensures
        forall|k: Seq<char>| #[trigger]
            map_of(pairs).dom().contains(k) <==> exists|i: int|
                0 <= i < pairs.len() && (#[trigger] pairs[i]).0 == k,
        forall|i: int| 0 <= i < pairs.len() ==> map_of(pairs)[(#[trigger] pairs[i]).0] == pairs[i].1,
    decreases pairs.len(),
{
    if pairs.len() > 0 {
        let head = pairs.drop_last();
        assert forall|i: int, j: int| 0 <= i < j < head.len() implies (#[trigger] head[i]).0 != (
        #[trigger] head[j]).0 by {
            assert(pairs[i].0 != pairs[j].0);
        }
        lemma_map_of(head);
        assert forall|k: Seq<char>| #[trigger]
            map_of(pairs).dom().contains(k) <==> exists|i: int|
                0 <= i < pairs.len() && (#[trigger] pairs[i]).0 == k by {
            if map_of(pairs).dom().contains(k) {
                if k == pairs.last().0 {
                    assert(pairs[pairs.len() - 1].0 == k);
                } else {
                    assert(map_of(head).dom().contains(k));
                    let i = choose|i: int| 0 <= i < head.len() && (#[trigger] head[i]).0 == k;
                    assert(pairs[i].0 == k);
                }
            }
            if exists|i: int| 0 <= i < pairs.len() && (#[trigger] pairs[i]).0 == k {
                let i = choose|i: int| 0 <= i < pairs.len() && (#[trigger] pairs[i]).0 == k;
                if i < head.len() {
                    assert(head[i].0 == k);
                    assert(map_of(head).dom().contains(k));
                }
            }
        }
        assert forall|i: int| 0 <= i < pairs.len() implies map_of(pairs)[(#[trigger] pairs[i]).0]
            == pairs[i].1 by {
            if i < head.len() {
                assert(head[i] == pairs[i]);
                assert(pairs[i].0 != pairs[pairs.len() - 1].0);
            }
        }
    }
}

/// What can be wrong with a snapshot.
#[derive(Clone, Copy, Debug, PartialEq, Eq)]
pub enum SnapshotError {
    /// The tracks are not in the order of their paths.
    TracksNotSorted,
    /// The folders are not the folder index of the tracks, or one is listed twice.
    FoldersNotIndex,
    /// A picture key is listed twice.
    DuplicateArtwork,
}

/// The folders of the snapshot spell out the folder index of its tracks.
pub open spec fn folders_fit(snap: SnapshotView) -> bool {
    distinct_keys(snap.folders) && is_index_of(map_of(snap.folders), view_paths(snap.tracks))
}

/// The first thing that is wrong with a snapshot, if anything is.
pub open spec fn snapshot_error(snap: SnapshotView) -> Option<SnapshotError> {
    if !sorted(view_paths(snap.tracks)) {
        Some(SnapshotError::TracksNotSorted)
    } else if !folders_fit(snap) {
        Some(SnapshotError::FoldersNotIndex)
    } else if !distinct_keys(snap.artworks) {
        Some(SnapshotError::DuplicateArtwork)
    } else {
        None
    }
}

/// The library that a snapshot holds, once it is given its root.
pub open spec fn loaded(root: Seq<char>, snap: SnapshotView) -> LibraryView {
    LibraryView {
        root,
        tracks: snap.tracks,
        folders: map_of(snap.folders),
        artworks: map_of(snap.artworks),
    }
}

/// `snap` is a snapshot of `lib`: it has the tracks of `lib` in their order,
/// and lists each folder and each picture of `lib` once.
pub open spec fn snapshot_of(snap: SnapshotView, lib: LibraryView) -> bool {
    &&& snap.tracks == lib.tracks
    &&& distinct_keys(snap.folders)
    &&& map_of(snap.folders) == lib.folders
    &&& distinct_keys(snap.artworks)
    &&& map_of(snap.artworks) == lib.artworks
}

/// Saving and loading gives the library back: a snapshot of a library has
/// nothing wrong with it, and what it holds, given the library's root, is
/// that library, with its tracks, its folders and its pictures.
pub proof fn lemma_snapshot_round_trip(lib: LibraryView, snap: SnapshotView)
    requires
        consistent(lib),
        snapshot_of(snap, lib),
    ensures
        snapshot_error(snap) is None,
        loaded(lib.root, snap) == lib,
{
}

/// Whether two lists hold the same strings in the same order.
pub fn same_strings(a: &Vec<String>, b: &Vec<String>) -> (same: bool)
    ensures
        same == (views(a@) == views(b@)),
{
    if a.len() != b.len() {
        assert(views(a@).len() != views(b@).len());
        return false;
    }
    let mut i: usize = 0;
    while i < a.len()
        invariant
            i <= a.len(),
            a.len() == b.len(),
            forall|j: int| 0 <= j < i ==> a[j]@ == b[j]@,
        decreases a.len() - i,
    {
        if a[i] != b[i] {
            assert(views(a@)[i as int] != views(b@)[i as int]);
            return false;
        }
        i += 1;
    }
    assert(views(a@) =~= views(b@));
    true
}

/// Whether two lists hold the same indices in the same order.
pub fn same_indices(a: &Vec<usize>, b: &Vec<usize>) -> (same: bool)
    ensures
        same == (a@ == b@),
{
    if a.len() != b.len() {
        return false;
    }
    let mut i: usize = 0;
    while i < a.len()
        invariant
            i <= a.len(),
            a.len() == b.len(),
            forall|j: int| 0 <= j < i ==> a[j] == b[j],
        decreases a.len() - i,
    {
        if a[i] != b[i] {
            return false;
        }
        i += 1;
    }
    assert(a@ =~= b@);
    true
}

/// Whether the listed folders spell out the folder index `built`.
pub(crate) fn folders_match(
    built: &FolderIndex,
    pairs: &Vec<(String, FolderEntry)>,
    Ghost(paths): Ghost<Seq<Seq<char>>>,
) -> (fit: bool)
    requires
        built.wf(),
        is_index_of(built@, paths),
    ensures
        fit == (distinct_keys(folder_pairs(pairs@)) && is_index_of(
            map_of(folder_pairs(pairs@)),
            paths,
        )),
        fit ==> map_of(folder_pairs(pairs@)) == built@,
{
    let ghost pv = folder_pairs(pairs@);
    let mut listed = KeyIndex::new();
    let mut i: usize = 0;
    while i < pairs.len()
        invariant
            i <= pairs.len(),
            pv == folder_pairs(pairs@),
            built.wf(),
            is_index_of(built@, paths),
            listed.wf(),
            listed.count() == i,
            forall|j: int| 0 <= j < i ==> listed.key_at(j) == (#[trigger] pv[j]).0,
            distinct_keys(pv.take(i as int)),
            forall|j: int|
                0 <= j < i ==> built@.dom().contains((#[trigger] pv[j]).0) && built@[pv[j].0]
                    == pv[j].1,
        decreases pairs.len() - i,
    {
        let key = &pairs[i].0;
        let entry = &pairs[i].1;
        assert(pv[i as int] == (key@, entry@));
        proof {
            listed.lemma_slots();
            if distinct_keys(pv) && is_index_of(map_of(pv), paths) {
                lemma_index_unique(map_of(pv), built@, paths);
                lemma_map_of(pv);
            }
        }
        match listed.find(key.as_str()) {
            Some(j) => {
                assert(pv[j as int].0 == pv[i as int].0);
                return false;
            },
            None => {},
        }
        match built.get(key.as_str()) {
            Some(e) => {
                if !same_strings(&e.subfolders, &entry.subfolders) || !same_indices(
                    &e.tracks,
                    &entry.tracks,
                ) {
                    return false;
                }
            },
            None => {
                return false;
            },
        }
        listed.add(key.clone());
        proof {
            let next = pv.take(i + 1);
            let sofar = pv.take(i as int);
            assert forall|a: int, b: int| 0 <= a < b < next.len() implies (#[trigger] next[a]).0 != (
            #[trigger] next[b]).0 by {
                if b < i {
                    assert(sofar[a].0 != sofar[b].0);
                } else {
                    assert(listed.key_at(a) == pv[a].0);
                }
            }
        }
        i += 1;
    }
    assert(pv.take(pairs.len() as int) == pv);
    let mut s: usize = 0;
    while s < built.len()
        invariant
            s <= built.count(),
            pv == folder_pairs(pairs@),
            pv.len() == pairs.len(),
            built.wf(),
            is_index_of(built@, paths),
            listed.wf(),
            listed.count() == pairs.len(),
            distinct_keys(pv),
            forall|j: int| 0 <= j < pv.len() ==> listed.key_at(j) == (#[trigger] pv[j]).0,
            forall|t: int| 0 <= t < s ==> listed.has(#[trigger] built.key_at(t)),
        decreases built.count() - s,
    {
        proof {
            listed.lemma_slots();
            built.lemma_slots();
        }
        match listed.find(built.key(s).as_str()) {
            Some(_) => {},
            None => {
                proof {
                    if is_index_of(map_of(pv), paths) {
                        lemma_index_unique(map_of(pv), built@, paths);
                        lemma_map_of(pv);
                        let k = built.key_at(s as int);
                        assert(map_of(pv).dom().contains(k));
                        let j = choose|j: int| 0 <= j < pv.len() && (#[trigger] pv[j]).0 == k;
                        assert(listed.key_at(j) == k);
                    }
                }
                return false;
            },
        }
        s += 1;
    }
    proof {
        listed.lemma_slots();
        built.lemma_slots();
        lemma_map_of(pv);
        let m = map_of(pv);
        assert forall|k: Seq<char>| m.dom().contains(k) <==> built@.dom().contains(k) by {
            if m.dom().contains(k) {
                let j = choose|j: int| 0 <= j < pv.len() && (#[trigger] pv[j]).0 == k;
            }
            if built@.dom().contains(k) {
                let t = choose|t: int| 0 <= t < built.count() && built.key_at(t) == k;
                assert(listed.has(built.key_at(t)));
                let j = listed.slot(k);
                assert(listed.key_at(j) == pv[j].0);
            }
        }
        assert forall|k: Seq<char>| m.dom().contains(k) implies #[trigger] m[k] == built@[k] by {
            let j = choose|j: int| 0 <= j < pv.len() && (#[trigger] pv[j]).0 == k;
        }
        assert(m.dom() =~= built@.dom());
        assert(m =~= built@);
    }
    true
}

} // verus!
