use vstd::prelude::*;
use vstd::seq_lib::lemma_no_dup_in_concat;
use crate::folders::{
    collect, collect_below, depth_bound, entry_of, folder_above, increasing, is_index_of,
    lemma_increasing_unique, lemma_keys_bounded, lemma_parent_above, lemma_parent_len,
    lemma_parent_of_folder, parent_key, parent_len, seen,
};
use crate::library::{collected, consistent, view_paths, FolderView, LibraryView};
use crate::order::{
    lemma_le_antisym, lemma_lt_join, lemma_lt_split, path_le, path_lt, sorted,
};

verus! {

/// The file at `p` lies in the folder `k` or in a folder below it.
pub open spec fn under(k: Seq<char>, p: Seq<char>) -> bool {
    k.len() == 0 || folder_above(k, p)
}

/// Files come first: each track stands before every track that lies in a
/// folder below the folder it lies in.
pub open spec fn files_first(paths: Seq<Seq<char>>) -> bool {
    forall|i: int, j: int|
        0 <= i < paths.len() && 0 <= j < paths.len() && under(
            parent_key(#[trigger] paths[i]),
            #[trigger] paths[j],
        ) && parent_key(paths[j]) != parent_key(paths[i]) ==> i < j
}

/// The indices `0, 1, ..` up to `n`, in order.
pub open spec fn all_indices(n: nat) -> Seq<usize> {
    Seq::new(n, |i: int| i as usize)
}

/// The chain of folders above a track has no gap. Every folder above a
/// track has an entry, and so has the root. The folder in which such a folder
/// lies has an entry too, names it among its subfolders, has a shorter key,
/// and is itself the root or a folder above the track: so the chain leads
/// from the folder of the track up to the root, each link held by the next.
pub proof fn lemma_ancestor_chain(
    folders: Map<Seq<char>, FolderView>,
    paths: Seq<Seq<char>>,
    i: int,
    k: Seq<char>,
)
    requires
        is_index_of(folders, paths),
        0 <= i < paths.len(),
        folder_above(k, paths[i]),
    ensures
        folders.dom().contains(Seq::<char>::empty()),
        folders.dom().contains(k),
        folders.dom().contains(parent_key(k)),
        folders[parent_key(k)].subfolders.contains(k),
        parent_key(k).len() < k.len(),
        parent_key(k).len() == 0 || folder_above(parent_key(k), paths[i]),
{
    let n = paths.len() as int;
    lemma_parent_of_folder(k, paths[i]);
    assert(seen(paths, n, 0, Seq::<char>::empty()));
    assert(seen(paths, n, 0, k));
    assert(seen(paths, n, 0, parent_key(k)));
    assert(folders.dom().contains(parent_key(k)));
    assert(entry_of(folders[parent_key(k)], paths, n, 0, parent_key(k)));
}

/// A track stands in the entry of the folder in which it lies directly, and
/// in no other entry. That folder is the root or a folder above the track.
pub proof fn lemma_track_placed(folders: Map<Seq<char>, FolderView>, paths: Seq<Seq<char>>, i: usize)
    requires
        is_index_of(folders, paths),
        i < paths.len(),
    ensures
        folders.dom().contains(parent_key(paths[i as int])),
        under(parent_key(paths[i as int]), paths[i as int]),
        forall|k: Seq<char>|
            folders.dom().contains(k) ==> (#[trigger] folders[k].tracks.contains(i) <==> k
                == parent_key(paths[i as int])),
{
    let n = paths.len() as int;
    let par = parent_key(paths[i as int]);
    lemma_parent_above(paths[i as int]);
    assert(seen(paths, n, 0, par));
    assert forall|k: Seq<char>| folders.dom().contains(k) implies (#[trigger] folders[k].tracks.contains(
        i,
    ) <==> k == par) by {
        assert(entry_of(folders[k], paths, n, 0, k));
    }
}

/// A folder above a folder above a file is above that file.
pub proof fn lemma_above_trans(c: Seq<char>, a: Seq<char>, p: Seq<char>)
    requires
        folder_above(c, a),
        folder_above(a, p),
    ensures
        folder_above(c, p),
{
    assert(p[c.len() as int] == a[c.len() as int]);
    assert(p.take(c.len() as int) == a.take(c.len() as int));
}

/// The folder in which a file lies directly has a key at least as long as
/// that of any folder above the file.
pub proof fn lemma_parent_deepest(c: Seq<char>, p: Seq<char>)
    requires
        folder_above(c, p),
    ensures
        c.len() <= parent_len(p),
{
    lemma_parent_len(p);
}

/// From a folder `a` up to the folder `k` above it: on the way there is a
/// folder that lies directly in `k`; it is `a` itself or a folder above `a`.
pub proof fn lemma_climb(k: Seq<char>, a: Seq<char>) -> (c: Seq<char>)
    requires
        a.len() > 0,
        under(k, a),
    ensures
        c.len() > 0,
        parent_key(c) == k,
        c == a || folder_above(c, a),
    decreases a.len(),
{
    let b = parent_key(a);
    lemma_parent_len(a);
    lemma_parent_above(a);
    if b == k {
        a
    } else {
        if k.len() == 0 {
            assert(b.len() > 0) by {
                if b.len() == 0 {
                    assert(b =~= k);
                }
            }
        } else {
            lemma_parent_deepest(k, a);
            if k.len() == b.len() {
                assert(k =~= b);
            }
            assert(b[k.len() as int] == a[k.len() as int]);
            assert(b.take(k.len() as int) =~= a.take(k.len() as int));
        }
        let c = lemma_climb(k, b);
        if c != b {
            lemma_above_trans(c, b, a);
        }
        c
    }
}

/// Two folders that lie in one folder and are both above one file are the
/// same folder.
pub proof fn lemma_siblings_disjoint(ca: Seq<char>, cb: Seq<char>, p: Seq<char>)
    requires
        parent_key(ca) == parent_key(cb),
        folder_above(ca, p),
        folder_above(cb, p),
    ensures
        ca == cb,
{
    lemma_parent_len(ca);
    lemma_parent_len(cb);
    assert(parent_key(ca).len() == parent_len(ca) && parent_key(cb).len() == parent_len(cb));
    if ca.len() == cb.len() {
        assert(ca =~= cb);
    } else if ca.len() < cb.len() {
        assert(cb[ca.len() as int] == p[ca.len() as int]);
    } else {
        assert(ca[cb.len() as int] == p[cb.len() as int]);
    }
}

/// Of two folders that lie in one folder, the files below the one that
/// comes first in the order of paths come before the files below the other.
pub proof fn lemma_below_siblings(ca: Seq<char>, cb: Seq<char>, p: Seq<char>, q: Seq<char>)
    requires
        path_lt(ca, cb),
        parent_key(ca) == parent_key(cb),
        folder_above(ca, p),
        folder_above(cb, q),
    ensures
        path_lt(p, q),
{
    let d = lemma_lt_split(ca, cb);
    lemma_parent_len(ca);
    lemma_parent_len(cb);
    assert(parent_key(ca).len() == parent_len(ca) && parent_key(cb).len() == parent_len(cb));
    assert(p.take(d) =~= ca.take(d));
    assert(q.take(d) =~= cb.take(d));
    if d < ca.len() {
        assert(p[d] == ca[d] && q[d] == cb[d]);
    } else {
        assert(q[d] == cb[d]);
        assert(cb[d] != '/');
        crate::order::lemma_rank(p[d], q[d]);
    }
    lemma_lt_join(p, q, d);
}

/// In a sorted list, a path that comes before another one has the smaller index.
pub proof fn lemma_sorted_index(paths: Seq<Seq<char>>, x: int, y: int)
    requires
        sorted(paths),
        0 <= x < paths.len(),
        0 <= y < paths.len(),
        path_lt(paths[x], paths[y]),
    ensures
        x < y,
{
    if y <= x {
        assert(path_le(paths[y], paths[x]));
        lemma_le_antisym(paths[x], paths[y]);
    }
}

/// What the first `m` subfolders of the folder `k` collect: the tracks
/// below those subfolders, each once; in ascending order where the tracks
/// are sorted and files come first.
pub proof fn lemma_collect_below(
    folders: Map<Seq<char>, FolderView>,
    paths: Seq<Seq<char>>,
    k: Seq<char>,
    m: int,
)
    requires
        is_index_of(folders, paths),
        folders.dom().contains(k),
        0 <= m <= folders[k].subfolders.len(),
    ensures
        ({
            let subs = folders[k].subfolders;
            let s = collect_below(folders, k, subs.take(m), depth_bound(paths));
            &&& forall|x: usize|
                #![trigger s.contains(x)]
                s.contains(x) <==> (x < paths.len() && exists|j: int|
                    0 <= j < m && folder_above(#[trigger] subs[j], paths[x as int]))
            &&& s.no_duplicates()
            &&& sorted(paths) && files_first(paths) ==> increasing(s)
        }),
    decreases depth_bound(paths) - k.len(), 0int, m,
{
    let bound = depth_bound(paths);
    let subs = folders[k].subfolders;
    let n = paths.len() as int;
    let s = collect_below(folders, k, subs.take(m), bound);
    if m == 0 {
        assert(subs.take(0).len() == 0);
        assert(s.len() == 0);
    } else {
        let c = subs[m - 1];
        assert(subs.take(m).drop_last() =~= subs.take(m - 1));
        assert(subs.take(m).last() == c);
        lemma_keys_bounded(folders, paths);
        assert(folders.dom().contains(c) && k.len() < c.len() <= bound);
        let head = collect_below(folders, k, subs.take(m - 1), bound);
        let tail = collect(folders, c, bound);
        assert(s == head + tail);
        lemma_collect_below(folders, paths, k, m - 1);
        lemma_collect(folders, paths, c);
        assert(entry_of(folders[k], paths, n, 0, k));
        assert forall|x: usize|
            #![trigger s.contains(x)]
            s.contains(x) <==> (x < paths.len() && exists|j: int|
                0 <= j < m && folder_above(#[trigger] subs[j], paths[x as int])) by {
            if s.contains(x) {
                let i = choose|i: int| 0 <= i < s.len() && s[i] == x;
                if i < head.len() {
                    assert(head[i] == x);
                    assert(head.contains(x));
                    let j = choose|j: int|
                        0 <= j < m - 1 && folder_above(#[trigger] subs[j], paths[x as int]);
                    assert(folder_above(subs[j], paths[x as int]));
                } else {
                    assert(tail[i - head.len()] == x);
                    assert(tail.contains(x));
                    assert(folder_above(subs[m - 1], paths[x as int]));
                }
            }
            if x < paths.len() && exists|j: int|
                0 <= j < m && folder_above(#[trigger] subs[j], paths[x as int]) {
                let j = choose|j: int| 0 <= j < m && folder_above(#[trigger] subs[j], paths[x as int]);
                if j < m - 1 {
                    assert(head.contains(x));
                    let i = choose|i: int| 0 <= i < head.len() && head[i] == x;
                    assert(s[i] == x);
                } else {
                    assert(tail.contains(x));
                    let i = choose|i: int| 0 <= i < tail.len() && tail[i] == x;
                    assert(s[head.len() + i] == x);
                }
            }
        }
        assert forall|i: int, j: int| 0 <= i < head.len() && 0 <= j < tail.len() implies head[i]
            != tail[j] by {
            let x = head[i];
            assert(head.contains(x));
            if tail[j] == x {
                assert(tail.contains(x));
                let a = choose|a: int|
                    0 <= a < m - 1 && folder_above(#[trigger] subs[a], paths[x as int]);
                assert(subs.contains(subs[a]) && subs.contains(c));
                assert(path_lt(subs[a], subs[m - 1]));
                assert(parent_key(subs[a]) == k && parent_key(c) == k);
                lemma_siblings_disjoint(subs[a], c, paths[x as int]);
            }
        }
        lemma_no_dup_in_concat(head, tail);
        if sorted(paths) && files_first(paths) {
            assert forall|i: int, j: int| 0 <= i < j < s.len() implies s[i] < s[j] by {
                if j < head.len() {
                    assert(s[i] == head[i] && s[j] == head[j]);
                } else if i >= head.len() {
                    assert(s[i] == tail[i - head.len()] && s[j] == tail[j - head.len()]);
                } else {
                    let x = head[i];
                    let y = tail[j - head.len()];
                    assert(head.contains(x) && tail.contains(y));
                    let a = choose|a: int|
                        0 <= a < m - 1 && folder_above(#[trigger] subs[a], paths[x as int]);
                    assert(subs.contains(subs[a]) && subs.contains(c));
                    assert(path_lt(subs[a], subs[m - 1]));
                    assert(parent_key(subs[a]) == k && parent_key(c) == k);
                    lemma_below_siblings(subs[a], c, paths[x as int], paths[y as int]);
                    lemma_sorted_index(paths, x as int, y as int);
                }
            }
        }
    }
}

/// What the folder `k` collects: the tracks in and below it, each once; in
/// ascending order where the tracks are sorted and files come first.
pub proof fn lemma_collect(folders: Map<Seq<char>, FolderView>, paths: Seq<Seq<char>>, k: Seq<char>)
    requires
        is_index_of(folders, paths),
        folders.dom().contains(k),
    ensures
        ({
            let s = collect(folders, k, depth_bound(paths));
            &&& forall|x: usize|
                #![trigger s.contains(x)]
                s.contains(x) <==> (x < paths.len() && under(k, paths[x as int]))
            &&& s.no_duplicates()
            &&& sorted(paths) && files_first(paths) ==> increasing(s)
        }),
    decreases depth_bound(paths) - k.len(), 1int, 0int,
{
    let bound = depth_bound(paths);
    let n = paths.len() as int;
    let own = folders[k].tracks;
    let subs = folders[k].subfolders;
    lemma_keys_bounded(folders, paths);
    let below = collect_below(folders, k, subs, bound);
    let s = collect(folders, k, bound);
    assert(s == own + below);
    assert(subs.take(subs.len() as int) =~= subs);
    lemma_collect_below(folders, paths, k, subs.len() as int);
    assert(entry_of(folders[k], paths, n, 0, k));
    assert forall|x: usize|
        #![trigger s.contains(x)]
        s.contains(x) <==> (x < paths.len() && under(k, paths[x as int])) by {
        if s.contains(x) {
            let i = choose|i: int| 0 <= i < s.len() && s[i] == x;
            if i < own.len() {
                assert(own[i] == x);
                assert(own.contains(x));
                lemma_parent_above(paths[x as int]);
            } else {
                assert(below[i - own.len()] == x);
                assert(below.contains(x));
                let j = choose|j: int|
                    0 <= j < subs.len() && folder_above(#[trigger] subs[j], paths[x as int]);
                assert(subs.contains(subs[j]));
                lemma_parent_above(subs[j]);
                if k.len() > 0 {
                    lemma_above_trans(k, subs[j], paths[x as int]);
                }
            }
        }
        if x < paths.len() && under(k, paths[x as int]) {
            let p = paths[x as int];
            if parent_key(p) == k {
                assert(own.contains(x));
                let i = choose|i: int| 0 <= i < own.len() && own[i] == x;
                assert(s[i] == x);
            } else {
                let a = parent_key(p);
                lemma_parent_above(p);
                lemma_parent_len(p);
                assert(a.len() > 0) by {
                    if a.len() == 0 {
                        if k.len() == 0 {
                            assert(k =~= a);
                        }
                        lemma_parent_deepest(k, p);
                    }
                }
                assert(under(k, a)) by {
                    if k.len() > 0 {
                        lemma_parent_deepest(k, p);
                        if k.len() == a.len() {
                            assert(k =~= a);
                        }
                        assert(a[k.len() as int] == p[k.len() as int]);
                        assert(a.take(k.len() as int) =~= p.take(k.len() as int));
                    }
                }
                let c = lemma_climb(k, a);
                if c != a {
                    lemma_above_trans(c, a, p);
                }
                assert(folder_above(c, p));
                assert(seen(paths, n, 0, c));
                assert(subs.contains(c));
                let j = choose|j: int| 0 <= j < subs.len() && subs[j] == c;
                assert(folder_above(subs[j], paths[x as int]));
                assert(below.contains(x));
                let i = choose|i: int| 0 <= i < below.len() && below[i] == x;
                assert(s[own.len() + i] == x);
            }
        }
    }
    assert forall|i: int, j: int| 0 <= i < own.len() && 0 <= j < below.len() implies own[i]
        != below[j] by {
        let x = own[i];
        assert(own.contains(x));
        if below[j] == x {
            assert(below.contains(x));
            let a = choose|a: int|
                0 <= a < subs.len() && folder_above(#[trigger] subs[a], paths[x as int]);
            lemma_parent_deepest(subs[a], paths[x as int]);
            lemma_parent_len(paths[x as int]);
            assert(k.len() < folders[k].subfolders[a].len());
            assert(parent_key(paths[x as int]).len() == parent_len(paths[x as int]));
        }
    }
    assert(own.no_duplicates());
    lemma_no_dup_in_concat(own, below);
    if sorted(paths) && files_first(paths) {
        assert forall|i: int, j: int| 0 <= i < j < s.len() implies s[i] < s[j] by {
            if j < own.len() {
                assert(s[i] == own[i] && s[j] == own[j]);
            } else if i >= own.len() {
                assert(s[i] == below[i - own.len()] && s[j] == below[j - own.len()]);
            } else {
                let x = own[i];
                let y = below[j - own.len()];
                assert(own.contains(x) && below.contains(y));
                let a = choose|a: int|
                    0 <= a < subs.len() && folder_above(#[trigger] subs[a], paths[y as int]);
                assert(subs.contains(subs[a]));
                lemma_parent_deepest(subs[a], paths[y as int]);
                lemma_parent_above(subs[a]);
                if k.len() > 0 {
                    lemma_above_trans(k, subs[a], paths[y as int]);
                }
                lemma_parent_len(paths[y as int]);
                assert(k.len() < folders[k].subfolders[a].len());
                assert(parent_key(paths[y as int]).len() == parent_len(paths[y as int]));
                assert(under(parent_key(paths[x as int]), paths[y as int]));
                assert(parent_key(paths[y as int]).len() != k.len());
            }
        }
    }
}

/// The root collects every track of the library, each once. Where the
/// tracks are sorted and files come first, it collects them in their order:
/// the depth-first walk of the folders gives the flat sorted list.
pub proof fn lemma_root_collects_all(folders: Map<Seq<char>, FolderView>, paths: Seq<Seq<char>>)
    requires
        is_index_of(folders, paths),
    ensures
        ({
            let s = collect(folders, Seq::<char>::empty(), depth_bound(paths));
            &&& forall|x: usize| #![trigger s.contains(x)] s.contains(x) <==> x < paths.len()
            &&& s.no_duplicates()
            &&& sorted(paths) && files_first(paths) && paths.len() <= usize::MAX ==> s
                == all_indices(paths.len())
        }),
{
    let root = Seq::<char>::empty();
    let s = collect(folders, root, depth_bound(paths));
    assert(seen(paths, paths.len() as int, 0, root));
    lemma_collect(folders, paths, root);
    if sorted(paths) && files_first(paths) && paths.len() <= usize::MAX {
        let all = all_indices(paths.len());
        assert forall|x: usize| s.contains(x) <==> all.contains(x) by {
            if all.contains(x) {
                let i = choose|i: int| 0 <= i < all.len() && all[i] == x;
            }
            if x < paths.len() {
                assert(all[x as int] == x);
            }
        }
        assert(increasing(all));
        lemma_increasing_unique(s, all);
    }
}

/// The same of a library: the walk from its root folder meets every track
/// once, and meets them in the order of the library's track list where files
/// come first in it.
pub proof fn lemma_library_root_walk(lib: LibraryView)
    requires
        consistent(lib),
    ensures
        collected(lib, Seq::<char>::empty()).no_duplicates(),
        forall|x: usize|
            #![trigger collected(lib, Seq::<char>::empty()).contains(x)]
            collected(lib, Seq::<char>::empty()).contains(x) <==> x < lib.tracks.len(),
        files_first(view_paths(lib.tracks)) && lib.tracks.len() <= usize::MAX ==> collected(
            lib,
            Seq::<char>::empty(),
        ) == all_indices(lib.tracks.len()),
{
    lemma_root_collects_all(lib.folders, view_paths(lib.tracks));
}

} // verus!
