use std::sync::Arc;
use vstd::prelude::*;
use crate::keyindex::KeyIndex;
use crate::library::{paths_of, views, FolderEntry, FolderView, Track};
use crate::order::{
    lemma_le_antisym, lemma_not_le, lemma_strictly_sorted_insert, path_le, path_le_chars, path_lt,
    strictly_sorted,
};
use crate::text::{chars_of, string_of};

verus! {

/// `k` is the key of a folder above the file at `p`: what `p` holds before
/// one of its separators, the first character of `p` aside.
pub open spec fn folder_above(k: Seq<char>, p: Seq<char>) -> bool {
    &&& 0 < k.len() < p.len()
    &&& p[k.len() as int] == '/'
    &&& p.take(k.len() as int) == k
}

/// The length of the key of the folder in which `p` lies directly: the
/// position of the last separator of `p` that is not its first character, or
/// 0, the length of the root key, where there is none.
pub open spec fn parent_len(p: Seq<char>) -> int
    decreases p.len(),
{
    if p.len() <= 1 {
        0
    } else if p.last() == '/' {
        p.len() - 1
    } else {
        parent_len(p.drop_last())
    }
}

/// The key of the folder in which the file or folder `p` lies directly.
pub open spec fn parent_key(p: Seq<char>) -> Seq<char> {
    p.take(parent_len(p))
}

/// Whether `k` is the key of a folder of the tree of `paths`: the root key,
/// which is empty, or the key of a folder above one of the paths.
pub open spec fn is_folder_key(paths: Seq<Seq<char>>, k: Seq<char>) -> bool {
    k.len() == 0 || exists|i: int| 0 <= i < paths.len() && folder_above(k, #[trigger] paths[i])
}

/// Each index is smaller than every index after it.
pub open spec fn increasing(s: Seq<usize>) -> bool {
    forall|i: int, j: int| 0 <= i < j < s.len() ==> s[i] < s[j]
}

/// The folders known once the first `n` paths are taken in whole, and of the
/// next path the folders with keys shorter than `bound`.
pub open spec fn seen(paths: Seq<Seq<char>>, n: int, bound: int, k: Seq<char>) -> bool {
    ||| k.len() == 0
    ||| exists|i: int| 0 <= i < n && i < paths.len() && folder_above(k, #[trigger] paths[i])
    ||| (0 <= n < paths.len() && folder_above(k, paths[n]) && k.len() < bound)
}

/// `entry` is the entry of the folder `k` once the first `n` paths are taken
/// in whole and of the next path the folders with keys shorter than `bound`:
/// it lists, in ascending order and once each, the tracks that lie directly
/// in `k` and the known folders that lie directly in `k`.
pub open spec fn entry_of(
    entry: FolderView,
    paths: Seq<Seq<char>>,
    n: int,
    bound: int,
    k: Seq<char>,
) -> bool {
    &&& increasing(entry.tracks)
    &&& forall|i: usize|
        #![trigger entry.tracks.contains(i)]
        entry.tracks.contains(i) <==> (i < n && i < paths.len() && parent_key(paths[i as int]) == k)
    &&& strictly_sorted(entry.subfolders)
    &&& forall|c: Seq<char>|
        #![trigger entry.subfolders.contains(c)]
        entry.subfolders.contains(c) <==> (c.len() > 0 && seen(paths, n, bound, c) && parent_key(c)
            == k)
}

/// `folders` holds an entry for exactly the known folders, each as `entry_of` says.
pub open spec fn indexes(
    folders: Map<Seq<char>, FolderView>,
    paths: Seq<Seq<char>>,
    n: int,
    bound: int,
) -> bool {
    &&& forall|k: Seq<char>| #[trigger] folders.dom().contains(k) <==> seen(paths, n, bound, k)
    &&& forall|k: Seq<char>| #[trigger]
        folders.dom().contains(k) ==> entry_of(folders[k], paths, n, bound, k)
}

/// `folders` is the folder index of the tracks at `paths`. It has an entry
/// for the root, whose key is empty, and for every folder above a track, and
/// for nothing else. The entry of a folder lists the indices of the tracks
/// that lie directly in it, ascending, and the keys of the folders that lie
/// directly in it, in the order of paths.
pub open spec fn is_index_of(folders: Map<Seq<char>, FolderView>, paths: Seq<Seq<char>>) -> bool {
    indexes(folders, paths, paths.len() as int, 0)
}

/// What a folder index holds, in one piece: its keys are the folder keys of
/// the tree; the entry of a folder lists the tracks that lie directly in it,
/// ascending, and the folders that lie directly in it, in the order of paths.
pub proof fn lemma_index_entries(folders: Map<Seq<char>, FolderView>, paths: Seq<Seq<char>>)
    requires
        is_index_of(folders, paths),
    ensures
        forall|k: Seq<char>| #[trigger] folders.dom().contains(k) <==> is_folder_key(paths, k),
        forall|k: Seq<char>| #[trigger]
            folders.dom().contains(k) ==> increasing(folders[k].tracks) && strictly_sorted(
                folders[k].subfolders,
            ),
        forall|k: Seq<char>, i: usize|
            folders.dom().contains(k) ==> (#[trigger] folders[k].tracks.contains(i) <==> i
                < paths.len() && parent_key(paths[i as int]) == k),
        forall|k: Seq<char>, c: Seq<char>|
            folders.dom().contains(k) ==> (#[trigger] folders[k].subfolders.contains(c) <==> c.len()
                > 0 && is_folder_key(paths, c) && parent_key(c) == k),
{
    let n = paths.len() as int;
    assert forall|k: Seq<char>| seen(paths, n, 0, k) == is_folder_key(paths, k) by {
        if is_folder_key(paths, k) && k.len() > 0 {
            let i = choose|i: int| 0 <= i < paths.len() && folder_above(k, #[trigger] paths[i]);
            assert(seen(paths, n, 0, k));
        }
    }
    assert forall|k: Seq<char>| #[trigger] folders.dom().contains(k) implies increasing(
        folders[k].tracks,
    ) && strictly_sorted(folders[k].subfolders) by {
        assert(entry_of(folders[k], paths, n, 0, k));
    }
    assert forall|k: Seq<char>, i: usize| folders.dom().contains(k) implies (
    #[trigger] folders[k].tracks.contains(i) <==> i < paths.len() && parent_key(paths[i as int])
        == k) by {
        assert(entry_of(folders[k], paths, n, 0, k));
    }
    assert forall|k: Seq<char>, c: Seq<char>| folders.dom().contains(k) implies (
    #[trigger] folders[k].subfolders.contains(c) <==> c.len() > 0 && is_folder_key(paths, c)
        && parent_key(c) == k) by {
        assert(entry_of(folders[k], paths, n, 0, k));
    }
}

/// The parent key is a proper prefix that ends before a separator, and no
/// separator follows the one behind it.
pub proof fn lemma_parent_len(p: Seq<char>)
    ensures
        0 <= parent_len(p) <= p.len(),
        p.len() > 0 ==> parent_len(p) < p.len(),
        parent_len(p) > 0 ==> p[parent_len(p)] == '/',
        forall|j: int| parent_len(p) < j < p.len() && j > 0 ==> p[j] != '/',
    decreases p.len(),
{
    if p.len() > 1 && p.last() != '/' {
        lemma_parent_len(p.drop_last());
        let q = p.drop_last();
        assert forall|j: int| parent_len(p) < j < p.len() && j > 0 implies p[j] != '/' by {
            if j < q.len() {
                assert(q[j] == p[j]);
            }
        }
        if parent_len(p) > 0 {
            assert(q[parent_len(q)] == p[parent_len(p)]);
        }
    }
}

/// How the parent length grows with the path, character by character.
pub proof fn lemma_parent_len_step(p: Seq<char>, i: int)
    requires
        0 <= i < p.len(),
    ensures
        parent_len(p.take(i + 1)) == if i >= 1 && p[i] == '/' {
            i
        } else {
            parent_len(p.take(i))
        },
{
    assert(p.take(i + 1).drop_last() == p.take(i));
    assert(p.take(i + 1).last() == p[i]);
}

/// The folder in which a file lies directly is the root or a folder above it.
pub proof fn lemma_parent_above(p: Seq<char>)
    ensures
        parent_key(p).len() == 0 || folder_above(parent_key(p), p),
{
    lemma_parent_len(p);
}

/// The parent of a folder above a file is the root or again a folder above
/// that file, and its key is shorter.
pub proof fn lemma_parent_of_folder(k: Seq<char>, p: Seq<char>)
    requires
        folder_above(k, p),
    ensures
        parent_key(k).len() < k.len(),
        parent_key(k).len() == 0 || folder_above(parent_key(k), p),
{
    lemma_parent_len(k);
    let j = parent_len(k);
    if j > 0 {
        assert(p[j] == k[j]);
        assert(p.take(j) == k.take(j));
    }
}

/// Nothing changes at a position of the path where no new folder ends.
pub proof fn lemma_step_known(
    folders: Map<Seq<char>, FolderView>,
    paths: Seq<Seq<char>>,
    n: int,
    bound: int,
)
    requires
        indexes(folders, paths, n, bound),
        0 <= n < paths.len(),
        forall|k: Seq<char>|
            folder_above(k, paths[n]) && k.len() == bound ==> #[trigger] folders.dom().contains(k),
    ensures
        indexes(folders, paths, n, bound + 1),
{
    assert forall|k: Seq<char>| seen(paths, n, bound + 1, k) == seen(paths, n, bound, k) by {
        if folder_above(k, paths[n]) && k.len() == bound {
            assert(folders.dom().contains(k));
        }
    }
    assert forall|k: Seq<char>| #[trigger] folders.dom().contains(k) implies entry_of(
        folders[k],
        paths,
        n,
        bound + 1,
        k,
    ) by {
        assert(entry_of(folders[k], paths, n, bound, k));
    }
}

/// The index after a folder that was not known is added: it gets an empty
/// entry, and its key goes into the entry of its parent.
pub proof fn lemma_step_new_folder(
    before: Map<Seq<char>, FolderView>,
    after: Map<Seq<char>, FolderView>,
    paths: Seq<Seq<char>>,
    n: int,
    c: Seq<char>,
)
    requires
        0 <= n < paths.len(),
        folder_above(c, paths[n]),
        indexes(before, paths, n, c.len() as int),
        !before.dom().contains(c),
        forall|k: Seq<char>| #[trigger] after.dom().contains(k) <==> before.dom().contains(k) || k == c,
        after[c].tracks.len() == 0,
        after[c].subfolders.len() == 0,
        after[parent_key(c)].tracks == before[parent_key(c)].tracks,
        strictly_sorted(after[parent_key(c)].subfolders),
        forall|x: Seq<char>|
            #![trigger after[parent_key(c)].subfolders.contains(x)]
            after[parent_key(c)].subfolders.contains(x) <==> before[parent_key(
                c,
            )].subfolders.contains(x) || x == c,
        forall|k: Seq<char>|
            before.dom().contains(k) && k != parent_key(c) ==> #[trigger] after[k] == before[k],
    ensures
        indexes(after, paths, n, c.len() as int + 1),
{
    let bound = c.len() as int;
    let par = parent_key(c);
    lemma_parent_of_folder(c, paths[n]);
    assert forall|k: Seq<char>| seen(paths, n, bound + 1, k) == (seen(paths, n, bound, k) || k
        == c) by {
        if folder_above(k, paths[n]) && k.len() == bound {
            assert(k == c);
        }
    }
    assert(seen(paths, n, bound, par));
    assert(before.dom().contains(par));
    assert forall|k: Seq<char>| #[trigger] after.dom().contains(k) implies entry_of(
        after[k],
        paths,
        n,
        bound + 1,
        k,
    ) by {
        let e = after[k];
        if k == c {
            assert forall|i: usize|
                #![trigger e.tracks.contains(i)]
                !(i < n && i < paths.len() && parent_key(paths[i as int]) == k) by {
                if i < n && parent_key(paths[i as int]) == k {
                    lemma_parent_above(paths[i as int]);
                    assert(seen(paths, n, bound, c));
                }
            }
            assert forall|x: Seq<char>|
                #![trigger e.subfolders.contains(x)]
                !(x.len() > 0 && seen(paths, n, bound + 1, x) && parent_key(x) == k) by {
                if x.len() > 0 && seen(paths, n, bound + 1, x) && parent_key(x) == k {
                    lemma_parent_len(x);
                    assert(x != c);
                    if exists|i: int| 0 <= i < n && i < paths.len() && folder_above(x, #[trigger] paths[i]) {
                        let i = choose|i: int| 0 <= i < n && i < paths.len() && folder_above(x, #[trigger] paths[i]);
                        lemma_parent_of_folder(x, paths[i]);
                        assert(seen(paths, n, bound, c));
                    }
                }
            }
        } else if k == par {
            assert(entry_of(before[k], paths, n, bound, k));
            assert(e.tracks == before[k].tracks);
            assert forall|x: Seq<char>|
                #![trigger e.subfolders.contains(x)]
                e.subfolders.contains(x) <==> (x.len() > 0 && seen(paths, n, bound + 1, x)
                    && parent_key(x) == k) by {
                assert(e.subfolders.contains(x) <==> before[k].subfolders.contains(x) || x == c);
            }
        } else {
            assert(entry_of(before[k], paths, n, bound, k));
            assert(e == before[k]);
        }
    }
}

/// The index after the next track is put into the entry of the folder in
/// which it lies directly, once all folders above it are known.
pub proof fn lemma_step_track(
    before: Map<Seq<char>, FolderView>,
    after: Map<Seq<char>, FolderView>,
    paths: Seq<Seq<char>>,
    n: usize,
)
    requires
        n < paths.len(),
        indexes(before, paths, n as int, paths[n as int].len() as int),
        after.dom() == before.dom(),
        after[parent_key(paths[n as int])].tracks == before[parent_key(paths[n as int])].tracks.push(n),
        after[parent_key(paths[n as int])].subfolders == before[parent_key(
            paths[n as int],
        )].subfolders,
        forall|k: Seq<char>|
            before.dom().contains(k) && k != parent_key(paths[n as int]) ==> #[trigger] after[k]
                == before[k],
    ensures
        indexes(after, paths, n + 1, 0),
{
    let p = paths[n as int];
    let par = parent_key(p);
    let len = p.len() as int;
    lemma_parent_above(p);
    assert forall|k: Seq<char>| seen(paths, n + 1, 0, k) == seen(paths, n as int, len, k) by {
        if seen(paths, n + 1, 0, k) && k.len() > 0 {
            let i = choose|i: int| 0 <= i < n + 1 && i < paths.len() && folder_above(k, #[trigger] paths[i]);
            if i < n {
                assert(seen(paths, n as int, len, k));
            }
        }
        if folder_above(k, paths[n as int]) {
            assert(seen(paths, n + 1, 0, k));
        }
    }
    assert(before.dom().contains(par));
    assert forall|k: Seq<char>| #[trigger] after.dom().contains(k) implies entry_of(
        after[k],
        paths,
        n + 1,
        0,
        k,
    ) by {
        let e = after[k];
        let b = before[k];
        assert(entry_of(b, paths, n as int, len, k));
        if k == par {
            assert forall|i: int, j: int| 0 <= i < j < e.tracks.len() implies e.tracks[i]
                < e.tracks[j] by {
                if j == b.tracks.len() {
                    assert(b.tracks.contains(b.tracks[i]));
                }
            }
            assert forall|i: usize|
                #![trigger e.tracks.contains(i)]
                e.tracks.contains(i) <==> (i < n + 1 && i < paths.len() && parent_key(
                    paths[i as int],
                ) == k) by {
                if e.tracks.contains(i) {
                    let j = choose|j: int| 0 <= j < e.tracks.len() && e.tracks[j] == i;
                    if j < b.tracks.len() {
                        assert(b.tracks.contains(i));
                    }
                }
                if i < n && parent_key(paths[i as int]) == k {
                    assert(b.tracks.contains(i));
                    let j = choose|j: int| 0 <= j < b.tracks.len() && b.tracks[j] == i;
                    assert(e.tracks[j] == i);
                }
                if i == n {
                    assert(e.tracks[b.tracks.len() as int] == i);
                }
            }
        } else {
            assert(e == b);
        }
    }
}

/// The length of the longest of the paths; no folder key is as long.
pub open spec fn depth_bound(paths: Seq<Seq<char>>) -> nat
    decreases paths.len(),
{
    if paths.len() == 0 {
        0
    } else if paths.last().len() > depth_bound(paths.drop_last()) {
        paths.last().len()
    } else {
        depth_bound(paths.drop_last())
    }
}

/// The indices of the tracks in and below the folder `key`, depth first: the
/// folder's own tracks in the order of its entry, then what each of its
/// subfolders collects, the subfolders in the order of its entry. A key
/// without an entry collects nothing. (`bound` limits the length of the keys
/// that are followed; an index follows every one of its keys, see
/// `lemma_keys_bounded`.)
pub open spec fn collect(folders: Map<Seq<char>, FolderView>, key: Seq<char>, bound: nat) -> Seq<
    usize,
>
    decreases bound - key.len(), 1int, 0nat,
{
    if !folders.dom().contains(key) || key.len() > bound {
        Seq::empty()
    } else {
        folders[key].tracks + collect_below(folders, key, folders[key].subfolders, bound)
    }
}

/// What the folders `children`, which lie in the folder `key`, collect one
/// after the other.
pub open spec fn collect_below(
    folders: Map<Seq<char>, FolderView>,
    key: Seq<char>,
    children: Seq<Seq<char>>,
    bound: nat,
) -> Seq<usize>
    decreases bound - key.len(), 0int, children.len(),
{
    if children.len() == 0 {
        Seq::empty()
    } else {
        let c = children.last();
        collect_below(folders, key, children.drop_last(), bound) + if key.len() < c.len() <= bound {
            collect(folders, c, bound)
        } else {
            Seq::empty()
        }
    }
}

/// Every path is at most as long as the bound.
pub proof fn lemma_depth_bound(paths: Seq<Seq<char>>, i: int)
    requires
        0 <= i < paths.len(),
    ensures
        paths[i].len() <= depth_bound(paths),
    decreases paths.len(),
{
    if i < paths.len() - 1 {
        lemma_depth_bound(paths.drop_last(), i);
    }
}

/// In a folder index every key is shorter than the bound allows, every
/// subfolder has an entry of its own and a longer key than the folder it lies
/// in, and every track index is that of a track.
pub proof fn lemma_keys_bounded(folders: Map<Seq<char>, FolderView>, paths: Seq<Seq<char>>)
    requires
        is_index_of(folders, paths),
    ensures
        forall|k: Seq<char>| #[trigger] folders.dom().contains(k) ==> k.len() <= depth_bound(paths),
        forall|k: Seq<char>, j: int|
            folders.dom().contains(k) && 0 <= j < folders[k].subfolders.len() ==> {
                let c = #[trigger] folders[k].subfolders[j];
                k.len() < c.len() && folders.dom().contains(c)
            },
        forall|k: Seq<char>, j: int|
            folders.dom().contains(k) && 0 <= j < folders[k].tracks.len()
                ==> #[trigger] folders[k].tracks[j] < paths.len(),
{
    let n = paths.len() as int;
    assert forall|k: Seq<char>| #[trigger] folders.dom().contains(k) implies k.len()
        <= depth_bound(paths) by {
        if k.len() > 0 {
            let i = choose|i: int| 0 <= i < n && i < paths.len() && folder_above(k, #[trigger] paths[i]);
            lemma_depth_bound(paths, i);
        }
    }
    assert forall|k: Seq<char>, j: int|
        folders.dom().contains(k) && 0 <= j < folders[k].subfolders.len() implies {
        let c = #[trigger] folders[k].subfolders[j];
        k.len() < c.len() && folders.dom().contains(c)
    } by {
        let c = folders[k].subfolders[j];
        assert(entry_of(folders[k], paths, n, 0, k));
        assert(folders[k].subfolders.contains(c));
        lemma_parent_len(c);
    }
    assert forall|k: Seq<char>, j: int|
        folders.dom().contains(k) && 0 <= j < folders[k].tracks.len() implies #[trigger] folders[k].tracks[j]
        < paths.len() by {
        assert(entry_of(folders[k], paths, n, 0, k));
        assert(folders[k].tracks.contains(folders[k].tracks[j]));
    }
}

/// Two strictly sorted sequences that hold the same paths are the same.
pub proof fn lemma_sorted_unique(a: Seq<Seq<char>>, b: Seq<Seq<char>>)
    requires
        strictly_sorted(a),
        strictly_sorted(b),
        forall|x: Seq<char>| a.contains(x) <==> b.contains(x),
    ensures
        a == b,
    decreases a.len(),
{
    if a.len() == 0 {
        if b.len() > 0 {
            assert(b.contains(b[0]));
        }
        assert(a =~= b);
    } else {
        assert(a.contains(a.last()));
        let i = choose|i: int| 0 <= i < b.len() && b[i] == a.last();
        assert(b.contains(b.last()));
        let j = choose|j: int| 0 <= j < a.len() && a[j] == b.last();
        if i < b.len() - 1 && j < a.len() - 1 {
            assert(path_lt(b[i], b.last()));
            assert(path_lt(a[j], a.last()));
            lemma_le_antisym(a.last(), b.last());
        }
        assert(a.last() == b.last());
        let a0 = a.drop_last();
        let b0 = b.drop_last();
        assert forall|x: Seq<char>| a0.contains(x) <==> b0.contains(x) by {
            if a0.contains(x) {
                let m = choose|m: int| 0 <= m < a0.len() && a0[m] == x;
                assert(a[m] == x);
                assert(path_lt(a[m], a.last()));
                assert(a.contains(x));
                let q = choose|q: int| 0 <= q < b.len() && b[q] == x;
                assert(b0[q] == x);
            }
            if b0.contains(x) {
                let m = choose|m: int| 0 <= m < b0.len() && b0[m] == x;
                assert(b[m] == x);
                assert(path_lt(b[m], b.last()));
                assert(b.contains(x));
                let q = choose|q: int| 0 <= q < a.len() && a[q] == x;
                assert(a0[q] == x);
            }
        }
        lemma_sorted_unique(a0, b0);
        assert(a == a0.push(a.last()));
        assert(b == b0.push(b.last()));
    }
}

/// Two increasing sequences that hold the same indices are the same.
pub proof fn lemma_increasing_unique(a: Seq<usize>, b: Seq<usize>)
    requires
        increasing(a),
        increasing(b),
        forall|x: usize| a.contains(x) <==> b.contains(x),
    ensures
        a == b,
    decreases a.len(),
{
    if a.len() == 0 {
        if b.len() > 0 {
            assert(b.contains(b[0]));
        }
        assert(a =~= b);
    } else {
        assert(a.contains(a.last()));
        let i = choose|i: int| 0 <= i < b.len() && b[i] == a.last();
        assert(b.contains(b.last()));
        let j = choose|j: int| 0 <= j < a.len() && a[j] == b.last();
        assert(a.last() == b.last());
        let a0 = a.drop_last();
        let b0 = b.drop_last();
        assert forall|x: usize| a0.contains(x) <==> b0.contains(x) by {
            if a0.contains(x) {
                let m = choose|m: int| 0 <= m < a0.len() && a0[m] == x;
                assert(a[m] == x);
                assert(a.contains(x));
                let q = choose|q: int| 0 <= q < b.len() && b[q] == x;
                assert(b0[q] == x);
            }
            if b0.contains(x) {
                let m = choose|m: int| 0 <= m < b0.len() && b0[m] == x;
                assert(b[m] == x);
                assert(b.contains(x));
                let q = choose|q: int| 0 <= q < a.len() && a[q] == x;
                assert(a0[q] == x);
            }
        }
        lemma_increasing_unique(a0, b0);
        assert(a == a0.push(a.last()));
        assert(b == b0.push(b.last()));
    }
}

/// A list of tracks has one folder index and no other.
pub proof fn lemma_index_unique(
    first: Map<Seq<char>, FolderView>,
    second: Map<Seq<char>, FolderView>,
    paths: Seq<Seq<char>>,
)
    requires
        is_index_of(first, paths),
        is_index_of(second, paths),
    ensures
        first == second,
{
    let n = paths.len() as int;
    assert forall|k: Seq<char>| first.dom().contains(k) implies #[trigger] first[k] == second[k] by {
        assert(second.dom().contains(k));
        assert(entry_of(first[k], paths, n, 0, k));
        assert(entry_of(second[k], paths, n, 0, k));
        lemma_increasing_unique(first[k].tracks, second[k].tracks);
        lemma_sorted_unique(first[k].subfolders, second[k].subfolders);
    }
    assert(first.dom() =~= second.dom());
    assert(first =~= second);
}

/// Where in a strictly sorted list of keys the key `key` belongs: behind the
/// last key that comes no later than it.
fn insert_position(subs: &Vec<String>, key: &[char]) -> (at: usize)
    ensures
        at <= subs.len(),
        at > 0 ==> path_le(subs[at - 1]@, key@),
        forall|j: int| at <= j < subs.len() ==> path_lt(key@, #[trigger] subs[j]@),
{
    let mut at: usize = subs.len();
    while at > 0
        invariant
            at <= subs.len(),
            forall|j: int| at <= j < subs.len() ==> path_lt(key@, #[trigger] subs[j]@),
        decreases at,
    {
        let s = chars_of(subs[at - 1].as_str());
        if path_le_chars(s.as_slice(), key) {
            return at;
        }
        proof {
            lemma_not_le(s@, key@);
        }
        at -= 1;
    }
    at
}

/// The folders of a library: for each folder key its entry. The entries are
/// found by key, and walked in the order in which the folders were first met.
pub(crate) struct FolderIndex {
    keys: KeyIndex,
    entries: Vec<FolderEntry>,
}

impl View for FolderIndex {
    type V = Map<Seq<char>, FolderView>;

    closed spec fn view(&self) -> Map<Seq<char>, FolderView> {
        Map::new(|k: Seq<char>| self.keys.has(k), |k: Seq<char>| self.entries[self.keys.slot(k)]@)
    }
}

impl FolderIndex {
    /// Every key has its entry.
    pub closed spec fn wf(&self) -> bool {
        self.keys.wf() && self.keys.count() == self.entries.len()
    }

    /// The number of folders.
    pub closed spec fn count(&self) -> nat {
        self.entries.len() as nat
    }

    /// The key of the folder in slot `i`.
    pub closed spec fn key_at(&self, i: int) -> Seq<char> {
        self.keys.key_at(i)
    }

    /// The entry of the folder in slot `i`.
    pub closed spec fn entry_at(&self, i: int) -> FolderView {
        self.entries[i]@
    }

    /// The slots hold the folders of the view, each once.
    pub proof fn lemma_slots(&self)
        requires
            self.wf(),
        ensures
            forall|i: int|
                0 <= i < self.count() ==> self@.dom().contains(#[trigger] self.key_at(i))
                    && self@[self.key_at(i)] == self.entry_at(i),
            forall|i: int, j: int|
                0 <= i < self.count() && 0 <= j < self.count() && self.key_at(i) == self.key_at(j)
                    ==> i == j,
            forall|k: Seq<char>| #[trigger]
                self@.dom().contains(k) ==> exists|i: int|
                    0 <= i < self.count() && self.key_at(i) == k,
    {
        self.keys.lemma_slots();
        assert forall|k: Seq<char>| #[trigger] self@.dom().contains(k) implies exists|i: int|
            0 <= i < self.count() && self.key_at(i) == k by {
            assert(self.key_at(self.keys.slot(k)) == k);
        }
    }

    /// The index of a library without tracks: the root folder alone, empty.
    pub fn new() -> (index: FolderIndex)
        ensures
            index.wf(),
            is_index_of(index@, Seq::<Seq<char>>::empty()),
    {
        let mut keys = KeyIndex::new();
        let mut entries: Vec<FolderEntry> = Vec::new();
        let root = keys.add(String::new());
        entries.push(FolderEntry { subfolders: Vec::new(), tracks: Vec::new() });
        let index = FolderIndex { keys, entries };
        proof {
            let paths = Seq::<Seq<char>>::empty();
            assert forall|k: Seq<char>| #[trigger] index@.dom().contains(k) <==> seen(paths, 0, 0, k) by {
                assert(k.len() == 0 <==> k =~= Seq::<char>::empty());
            }
            assert forall|k: Seq<char>| #[trigger] index@.dom().contains(k) implies entry_of(
                index@[k],
                paths,
                0,
                0,
                k,
            ) by {
                assert(index@[k].tracks.len() == 0);
                assert(index@[k].subfolders.len() == 0);
            }
        }
        index
    }

    /// The number of folders.
    pub fn len(&self) -> (n: usize)
        ensures
            n == self.count(),
    {
        self.entries.len()
    }

    /// The key of the folder in slot `i`.
    pub fn key(&self, i: usize) -> (k: &String)
        requires
            self.wf(),
            i < self.count(),
        ensures
            k@ == self.key_at(i as int),
    {
        self.keys.key(i)
    }

    /// The entry of the folder in slot `i`.
    pub fn entry(&self, i: usize) -> (e: &FolderEntry)
        requires
            i < self.count(),
        ensures
            e@ == self.entry_at(i as int),
    {
        &self.entries[i]
    }

    /// The slot of the folder with key `key`, if there is one.
    pub fn find(&self, key: &str) -> (found: Option<usize>)
        requires
            self.wf(),
        ensures
            match found {
                Some(i) => self@.dom().contains(key@) && i < self.count() && self.key_at(i as int)
                    == key@ && self@[key@] == self.entry_at(i as int),
                None => !self@.dom().contains(key@),
            },
    {
        self.keys.find(key)
    }

    /// The entry of the folder with key `key`, if there is one.
    pub fn get(&self, key: &str) -> (found: Option<&FolderEntry>)
        requires
            self.wf(),
        ensures
            match found {
                Some(e) => self@.dom().contains(key@) && e@ == self@[key@],
                None => !self@.dom().contains(key@),
            },
    {
        match self.keys.find(key) {
            Some(i) => Some(&self.entries[i]),
            None => None,
        }
    }

    /// Makes sure the folder `key` is known; `parent` is the slot of the
    /// folder in which it lies. Returns the slot of `key`.
    fn ensure_folder(&mut self, parent: usize, key: &Vec<char>) -> (slot: usize)
        requires
            old(self).wf(),
            key@.len() > 0,
            old(self).keys.has(parent_key(key@)),
            parent == old(self).keys.slot(parent_key(key@)),
            strictly_sorted(old(self)@[parent_key(key@)].subfolders),
            old(self)@[parent_key(key@)].subfolders.contains(key@) ==> old(self)@.dom().contains(
                key@,
            ),
        ensures
            final(self).wf(),
            final(self).keys.has(key@),
            slot == final(self).keys.slot(key@),
            old(self)@.dom().contains(key@) ==> final(self)@ == old(self)@,
            !old(self)@.dom().contains(key@) ==> {
                let before = old(self)@;
                let after = final(self)@;
                let par = parent_key(key@);
                &&& forall|k: Seq<char>| #[trigger]
                    after.dom().contains(k) <==> before.dom().contains(k) || k == key@
                &&& after[key@].tracks.len() == 0
                &&& after[key@].subfolders.len() == 0
                &&& after[par].tracks == before[par].tracks
                &&& strictly_sorted(after[par].subfolders)
                &&& forall|x: Seq<char>|
                    #![trigger after[par].subfolders.contains(x)]
                    after[par].subfolders.contains(x) <==> before[par].subfolders.contains(x) || x
                        == key@
                &&& forall|k: Seq<char>|
                    before.dom().contains(k) && k != par ==> #[trigger] after[k] == before[k]
            },
    {
        let name = string_of(key.as_slice());
        proof {
            self.keys.lemma_slots();
        }
        match self.keys.find(name.as_str()) {
            Some(slot) => slot,
            None => {
                let ghost par = parent_key(key@);
                let ghost before = self@;
                let ghost old_subs = self.entries[parent as int].subfolders@;
                let at = insert_position(&self.entries[parent].subfolders, key.as_slice());
                proof {
                    lemma_parent_len(key@);
                    assert(views(old_subs) == before[par].subfolders);
                    let vs = views(old_subs);
                    if at > 0 {
                        assert(vs[at - 1] == old_subs[at - 1]@);
                        assert(vs.contains(vs[at - 1]));
                    }
                    assert forall|j: int| at <= j < vs.len() implies path_lt(key@, #[trigger] vs[j]) by {
                        assert(vs[j] == old_subs[j]@);
                    }
                    lemma_strictly_sorted_insert(vs, at as int, key@);
                }
                let slot = self.keys.add(name.clone());
                self.entries.push(FolderEntry { subfolders: Vec::new(), tracks: Vec::new() });
                self.entries[parent].subfolders.insert(at, name);
                proof {
                    self.keys.lemma_slots();
                    let after = self@;
                    let vs = views(old_subs);
                    assert(after[par].subfolders == vs.insert(at as int, key@));
                    assert forall|x: Seq<char>|
                        #![trigger after[par].subfolders.contains(x)]
                        after[par].subfolders.contains(x) <==> before[par].subfolders.contains(x)
                            || x == key@ by {
                        let ns = vs.insert(at as int, key@);
                        if ns.contains(x) {
                            let j = choose|j: int| 0 <= j < ns.len() && ns[j] == x;
                            if j < at {
                                assert(vs[j] == x);
                            } else if j > at {
                                assert(vs[j - 1] == x);
                            }
                        }
                        if vs.contains(x) {
                            let j = choose|j: int| 0 <= j < vs.len() && vs[j] == x;
                            if j < at {
                                assert(ns[j] == x);
                            } else {
                                assert(ns[j + 1] == x);
                            }
                        }
                        assert(ns[at as int] == key@);
                    }
                    assert forall|k: Seq<char>|
                        before.dom().contains(k) && k != par implies #[trigger] after[k]
                        == before[k] by {
                        assert(old(self).keys.slot(k) != parent);
                    }
                }
                slot
            },
        }
    }

    /// Takes the track with index `n` into the index: makes the folders above
    /// it known and puts it into the entry of the folder in which it lies.
    fn add_track(&mut self, path: &str, n: usize, Ghost(paths): Ghost<Seq<Seq<char>>>)
        requires
            old(self).wf(),
            n < paths.len(),
            paths[n as int] == path@,
            indexes(old(self)@, paths, n as int, 0),
        ensures
            final(self).wf(),
            indexes(final(self)@, paths, n + 1, 0),
    {
        let p = chars_of(path);
        let mut cur: Vec<char> = Vec::new();
        let root = String::new();
        let found = self.keys.find(root.as_str());
        assert(p@.take(0) == Seq::<char>::empty());
        assert(self@.dom().contains(Seq::<char>::empty()));
        let mut parent: usize = found.unwrap();
        assert(parent_key(cur@) =~= root@);
        let mut i: usize = 0;
        while i < p.len()
            invariant
                i <= p.len(),
                p@ == paths[n as int],
                n < paths.len(),
                self.wf(),
                indexes(self@, paths, n as int, i as int),
                cur@ == p@.take(i as int),
                self.keys.has(parent_key(cur@)),
                parent == self.keys.slot(parent_key(cur@)),
            decreases p.len() - i,
        {
            let ghost before = self@;
            proof {
                lemma_parent_len_step(p@, i as int);
                lemma_parent_len(cur@);
                assert(p@.take(i + 1).take(parent_len(cur@)) == cur@.take(parent_len(cur@)));
            }
            if i > 0 && p[i] == '/' {
                proof {
                    assert(folder_above(cur@, p@));
                    let par = parent_key(cur@);
                    assert(before.dom().contains(par));
                    assert(entry_of(before[par], paths, n as int, i as int, par));
                    if before[par].subfolders.contains(cur@) {
                        assert(seen(paths, n as int, i as int, cur@));
                    }
                }
                parent = self.ensure_folder(parent, &cur);
                proof {
                    if before.dom().contains(cur@) {
                        lemma_step_known(before, paths, n as int, i as int);
                    } else {
                        lemma_step_new_folder(before, self@, paths, n as int, cur@);
                    }
                    assert(p@.take(i + 1).take(i as int) == cur@);
                }
            } else {
                proof {
                    lemma_step_known(before, paths, n as int, i as int);
                }
            }
            cur.push(p[i]);
            assert(cur@ == p@.take(i + 1));
            i += 1;
        }
        let ghost before = self@;
        proof {
            assert(p@.take(p.len() as int) == p@);
            self.keys.lemma_slots();
        }
        self.entries[parent].tracks.push(n);
        proof {
            self.keys.lemma_slots();
            let after = self@;
            let par = parent_key(p@);
            assert(after.dom() =~= before.dom());
            assert forall|k: Seq<char>|
                before.dom().contains(k) && k != par implies #[trigger] after[k] == before[k] by {
                assert(self.keys.slot(k) != parent);
            }
            lemma_step_track(before, after, paths, n);
        }
    }

    /// Appends to `out` what the folder in slot `slot` collects.
    pub(crate) fn collect_into(
        &self,
        slot: usize,
        out: &mut Vec<usize>,
        Ghost(paths): Ghost<Seq<Seq<char>>>,
    )
        requires
            self.wf(),
            slot < self.count(),
            is_index_of(self@, paths),
        ensures
            final(out)@ == old(out)@ + collect(self@, self.key_at(slot as int), depth_bound(paths)),
            forall|j: int| old(out)@.len() <= j < final(out)@.len() ==> final(out)@[j] < paths.len(),
        decreases depth_bound(paths) - self.key_at(slot as int).len(),
    {
        let ghost key = self.key_at(slot as int);
        let ghost bound = depth_bound(paths);
        let ghost start = out@;
        proof {
            self.keys.lemma_slots();
            lemma_keys_bounded(self@, paths);
            assert(self@.dom().contains(key));
        }
        let entry = &self.entries[slot];
        assert(entry@ == self@[key]);
        let mut t: usize = 0;
        while t < entry.tracks.len()
            invariant
                t <= entry.tracks.len(),
                entry@ == self@[key],
                self@.dom().contains(key),
                out@ == start + entry.tracks@.take(t as int),
                forall|j: int| start.len() <= j < out@.len() ==> out@[j] < paths.len(),
                forall|k: Seq<char>, j: int|
                    self@.dom().contains(k) && 0 <= j < self@[k].tracks.len()
                        ==> #[trigger] self@[k].tracks[j] < paths.len(),
            decreases entry.tracks.len() - t,
        {
            assert(self@[key].tracks[t as int] < paths.len());
            out.push(entry.tracks[t]);
            t += 1;
        }
        assert(entry.tracks@.take(entry.tracks.len() as int) == entry.tracks@);
        let ghost subs = self@[key].subfolders;
        let mut c: usize = 0;
        assert(subs.take(0) == Seq::<Seq<char>>::empty());
        while c < entry.subfolders.len()
            invariant
                c <= entry.subfolders.len(),
                self.wf(),
                slot < self.count(),
                key == self.key_at(slot as int),
                bound == depth_bound(paths),
                is_index_of(self@, paths),
                entry@ == self@[key],
                subs == self@[key].subfolders,
                self@.dom().contains(key),
                out@ == start + entry.tracks@ + collect_below(self@, key, subs.take(c as int), bound),
                forall|j: int| start.len() <= j < out@.len() ==> out@[j] < paths.len(),
            decreases entry.subfolders.len() - c,
        {
            let ghost child = subs[c as int];
            let ghost sofar = out@;
            proof {
                lemma_keys_bounded(self@, paths);
                assert(views(entry.subfolders@)[c as int] == entry.subfolders@[c as int]@);
                assert(subs.take(c + 1).drop_last() == subs.take(c as int));
                assert(self@.dom().contains(child));
                assert(key.len() < child.len() <= bound);
            }
            match self.keys.find(entry.subfolders[c].as_str()) {
                Some(below) => {
                    self.collect_into(below, out, Ghost(paths));
                },
                None => {},
            }
            assert(out@ == sofar + collect(self@, child, bound));
            c += 1;
        }
        assert(subs.take(entry.subfolders.len() as int) == subs);
    }

    /// Builds the folder index of a list of tracks.
    pub fn build(tracks: &[Arc<Track>]) -> (index: FolderIndex)
        ensures
            index.wf(),
            is_index_of(index@, paths_of(tracks@)),
    {
        let ghost paths = paths_of(tracks@);
        let mut index = FolderIndex::new();
        proof {
            let none = Seq::<Seq<char>>::empty();
            assert forall|k: Seq<char>| seen(paths, 0, 0, k) == seen(none, 0, 0, k) by {}
            assert forall|k: Seq<char>| #[trigger] index@.dom().contains(k) implies entry_of(
                index@[k],
                paths,
                0,
                0,
                k,
            ) by {
                assert(entry_of(index@[k], none, 0, 0, k));
            }
        }
        let mut n: usize = 0;
        while n < tracks.len()
            invariant
                n <= tracks.len(),
                paths == paths_of(tracks@),
                index.wf(),
                indexes(index@, paths, n as int, 0),
            decreases tracks.len() - n,
        {
            index.add_track(tracks[n].path.as_str(), n, Ghost(paths));
            n += 1;
        }
        index
    }
}

} // verus!
