use vstd::prelude::*;
use vstd::seq_lib::*;
use crate::folders::lemma_index_unique;
use crate::library::{
    artwork_key, artworks_found, holds_files, identified, identified_all, is_scan_of, track_of,
    tracks_found, view_paths, FoundFileView, LibraryView, ScannedFileView, TrackView,
};
use crate::order::{lemma_le_antisym, sorted};
use crate::path_utils::indexable;
use crate::sorting::{has_path, with_path};

verus! {

/// The tracks of one path in a sequence without its last track: the same,
/// but for the last of them where the last track has that path.
proof fn lemma_with_path_drop_last(s: Seq<TrackView>, p: Seq<char>)
    requires
        s.len() > 0,
    ensures
        with_path(s.drop_last(), p) == if s.last().path == p {
            with_path(s, p).drop_last()
        } else {
            with_path(s, p)
        },
        s.last().path == p ==> with_path(s, p).len() > 0 && with_path(s, p).last() == s.last(),
{
    reveal(Seq::filter);
    assert(has_path(p)(s.last()) == (s.last().path == p));
    if s.last().path == p {
        assert(with_path(s, p) == with_path(s.drop_last(), p).push(s.last()));
        assert(with_path(s, p).drop_last() == with_path(s.drop_last(), p));
    }
}

/// A sequence that holds no track of any path is empty.
proof fn lemma_with_path_none(s: Seq<TrackView>)
    requires
        forall|p: Seq<char>| #[trigger] with_path(s, p).len() == 0,
    ensures
        s.len() == 0,
{
    if s.len() > 0 {
        lemma_with_path_drop_last(s, s.last().path);
        assert(with_path(s, s.last().path).len() > 0);
    }
}

/// Two sorted sequences of tracks that hold, for every path, the same tracks
/// of that path in the same order, are the same sequence.
pub proof fn lemma_sorted_tracks_unique(a: Seq<TrackView>, b: Seq<TrackView>)
    requires
        sorted(view_paths(a)),
        sorted(view_paths(b)),
        forall|p: Seq<char>| #[trigger] with_path(a, p) == with_path(b, p),
    ensures
        a == b,
    decreases a.len(),
{
    if a.len() == 0 {
        assert forall|p: Seq<char>| #[trigger] with_path(b, p).len() == 0 by {
            reveal(Seq::filter);
            assert(with_path(a, p) == with_path(b, p));
        }
        lemma_with_path_none(b);
        assert(a =~= b);
    } else if b.len() == 0 {
        assert forall|p: Seq<char>| #[trigger] with_path(a, p).len() == 0 by {
            reveal(Seq::filter);
            assert(with_path(a, p) == with_path(b, p));
        }
        lemma_with_path_none(a);
    } else {
        let pa = a.last().path;
        let pb = b.last().path;
        lemma_with_path_drop_last(a, pa);
        lemma_with_path_drop_last(b, pb);
        lemma_with_path_drop_last(a, pb);
        lemma_with_path_drop_last(b, pa);
        assert(with_path(a, pb) == with_path(b, pb));
        assert(with_path(a, pa) == with_path(b, pa));
        // The last path of each sequence occurs in the other, so neither comes after the other.
        let x = with_path(a, pb).last();
        a.lemma_filter_pred(has_path(pb), with_path(a, pb).len() - 1);
        assert(with_path(a, pb).contains(x));
        a.lemma_filter_contains_rev(has_path(pb), x);
        let i = choose|i: int| 0 <= i < a.len() && a[i] == x;
        assert(view_paths(a)[i] == pb && view_paths(a)[a.len() - 1] == pa);
        let y = with_path(b, pa).last();
        b.lemma_filter_pred(has_path(pa), with_path(b, pa).len() - 1);
        assert(with_path(b, pa).contains(y));
        b.lemma_filter_contains_rev(has_path(pa), y);
        let j = choose|j: int| 0 <= j < b.len() && b[j] == y;
        assert(view_paths(b)[j] == pa && view_paths(b)[b.len() - 1] == pb);
        lemma_le_antisym(pa, pb);
        assert(a.last() == b.last());
        let a0 = a.drop_last();
        let b0 = b.drop_last();
        assert forall|p: Seq<char>| #[trigger] with_path(a0, p) == with_path(b0, p) by {
            lemma_with_path_drop_last(a, p);
            lemma_with_path_drop_last(b, p);
            assert(with_path(a, p) == with_path(b, p));
        }
        assert forall|i: int, j: int| 0 <= i <= j < a0.len() implies crate::order::path_le(
            #[trigger] view_paths(a0)[i],
            #[trigger] view_paths(a0)[j],
        ) by {
            assert(view_paths(a0)[i] == view_paths(a)[i] && view_paths(a0)[j] == view_paths(a)[j]);
        }
        assert forall|i: int, j: int| 0 <= i <= j < b0.len() implies crate::order::path_le(
            #[trigger] view_paths(b0)[i],
            #[trigger] view_paths(b0)[j],
        ) by {
            assert(view_paths(b0)[i] == view_paths(b)[i] && view_paths(b0)[j] == view_paths(b)[j]);
        }
        lemma_sorted_tracks_unique(a0, b0);
        assert(a == a0.push(a.last()));
        assert(b == b0.push(b.last()));
    }
}

/// The files determine their library: two libraries of the same files under
/// the same root are equal in every part.
pub proof fn lemma_files_determine_library(
    first: LibraryView,
    second: LibraryView,
    root: Seq<char>,
    files: Seq<FoundFileView>,
)
    requires
        holds_files(first, root, files),
        holds_files(second, root, files),
    ensures
        first == second,
{
    let found = tracks_found(files);
    assert forall|p: Seq<char>| #[trigger]
        with_path(first.tracks, p) == with_path(second.tracks, p) by {
        assert(with_path(first.tracks, p) == with_path(found, p));
        assert(with_path(second.tracks, p) == with_path(found, p));
    }
    lemma_sorted_tracks_unique(first.tracks, second.tracks);
    lemma_index_unique(first.folders, second.folders, view_paths(first.tracks));
}

/// A scan is a function of what was found: two libraries that are scans of
/// the same files under the same root are equal in every part. So scanning
/// an unchanged directory again gives the same library.
pub proof fn lemma_scan_deterministic(
    first: LibraryView,
    second: LibraryView,
    root: Seq<char>,
    files: Seq<ScannedFileView>,
)
    requires
        is_scan_of(first, root, files),
        is_scan_of(second, root, files),
    ensures
        first == second,
{
    lemma_files_determine_library(first, second, root, identified_all(files));
}

/// Every track found comes from a file that is indexed.
pub proof fn lemma_found_indexable(files: Seq<FoundFileView>, t: TrackView)
    requires
        tracks_found(files).contains(t),
    ensures
        indexable(t.path),
        exists|i: int| 0 <= i < files.len() && indexable(files[i].path) && t == track_of(#[trigger] files[i]),
    decreases files.len(),
{
    if files.len() > 0 {
        let head = files.drop_last();
        let j = choose|j: int| 0 <= j < tracks_found(files).len() && tracks_found(files)[j] == t;
        if indexable(files.last().path) && j == tracks_found(head).len() {
            assert(t == track_of(files[files.len() - 1]));
        } else {
            assert(tracks_found(head)[j] == t);
            lemma_found_indexable(head, t);
            let i = choose|i: int| 0 <= i < head.len() && indexable(head[i].path) && t == track_of(#[trigger] head[i]);
            assert(files[i] == head[i]);
        }
    }
}

/// Every file that is indexed is among the tracks found.
pub proof fn lemma_indexable_found(files: Seq<FoundFileView>, i: int)
    requires
        0 <= i < files.len(),
        indexable(files[i].path),
    ensures
        tracks_found(files).contains(track_of(files[i])),
    decreases files.len(),
{
    let head = files.drop_last();
    if i == files.len() - 1 {
        assert(tracks_found(files)[tracks_found(head).len() as int] == track_of(files[i]));
    } else {
        lemma_indexable_found(head, i);
        let j = choose|j: int| 0 <= j < tracks_found(head).len() && tracks_found(head)[j] == track_of(head[i]);
        assert(tracks_found(files)[j] == track_of(files[i]));
    }
}

/// What a scan leaves out and what it takes: no track of a scanned library
/// has a hidden segment anywhere in its path, each has an audio extension,
/// and every file that has both is a track of the library.
pub proof fn lemma_scan_excludes_hidden(lib: LibraryView, root: Seq<char>, scanned: Seq<ScannedFileView>)
    requires
        is_scan_of(lib, root, scanned),
    ensures
        forall|i: int| 0 <= i < lib.tracks.len() ==> indexable((#[trigger] lib.tracks[i]).path),
        forall|i: int|
            0 <= i < scanned.len() && indexable(scanned[i].path) ==> lib.tracks.contains(
                track_of(identified(#[trigger] scanned[i])),
            ),
{
    broadcast use to_multiset_contains;

    let files = identified_all(scanned);
    let found = tracks_found(files);
    assert forall|i: int| 0 <= i < lib.tracks.len() implies indexable(
        (#[trigger] lib.tracks[i]).path,
    ) by {
        assert(lib.tracks.contains(lib.tracks[i]));
        assert(lib.tracks.to_multiset().contains(lib.tracks[i]));
        assert(found.to_multiset().contains(lib.tracks[i]));
        lemma_found_indexable(files, lib.tracks[i]);
    }
    assert forall|i: int| 0 <= i < scanned.len() && indexable(scanned[i].path) implies lib.tracks.contains(
        track_of(identified(#[trigger] scanned[i])),
    ) by {
        assert(files[i] == identified(scanned[i]));
        lemma_indexable_found(files, i);
        assert(found.to_multiset().contains(track_of(files[i])));
        assert(lib.tracks.to_multiset().contains(track_of(files[i])));
    }
}

/// The picture of every indexed file is stored under its key.
pub proof fn lemma_artwork_stored(files: Seq<FoundFileView>, i: int)
    requires
        0 <= i < files.len(),
        indexable(files[i].path),
        files[i].artwork is Some,
    ensures
        artworks_found(files).dom().contains(artwork_key(files[i])->0),
    decreases files.len(),
{
    if i < files.len() - 1 {
        lemma_artwork_stored(files.drop_last(), i);
    }
}

/// Pictures are stored once: two indexed files that carry the same picture
/// bytes become tracks with the same picture key, the content hash of those
/// bytes, and the pictures of the library have an entry under that key, one
/// entry as under every key.
pub proof fn lemma_artwork_shared(files: Seq<ScannedFileView>, i: int, j: int)
    requires
        0 <= i < files.len(),
        0 <= j < files.len(),
        indexable(files[i].path),
        indexable(files[j].path),
        files[i].artwork is Some,
        files[j].artwork is Some,
        files[i].artwork->0.data == files[j].artwork->0.data,
    ensures
        track_of(identified(files[i])).metadata.artwork_id == track_of(
            identified(files[j]),
        ).metadata.artwork_id,
        track_of(identified(files[i])).metadata.artwork_id is Some,
        artworks_found(identified_all(files)).dom().contains(
            track_of(identified(files[i])).metadata.artwork_id->0,
        ),
{
    let found = identified_all(files);
    assert(found[i] == identified(files[i]));
    lemma_artwork_stored(found, i);
}

} // verus!
