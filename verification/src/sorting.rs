use std::sync::Arc;
use vstd::prelude::*;
use vstd::seq_lib::*;
use crate::library::{track_views, view_paths, Track, TrackView};
use crate::order::{
    lemma_le_refl, lemma_le_trans, lemma_not_le, path_le, path_le_chars, path_lt, sorted,
};
use crate::text::chars_of;

verus! {

/// The test whether a track has the path `p`.
pub open spec fn has_path(p: Seq<char>) -> spec_fn(TrackView) -> bool {
    |t: TrackView| t.path == p
}

/// The tracks of `tracks` whose path is `p`, in the order in which they stand.
pub open spec fn with_path(tracks: Seq<TrackView>, p: Seq<char>) -> Seq<TrackView> {
    tracks.filter(has_path(p))
}

/// `out` holds the tracks of `input` in the order of their paths; tracks that
/// share a path keep the order they have in `input`.
pub open spec fn sorted_from(out: Seq<TrackView>, input: Seq<TrackView>) -> bool {
    &&& sorted(view_paths(out))
    &&& out.to_multiset() == input.to_multiset()
    &&& forall|p: Seq<char>| #[trigger] with_path(out, p) == with_path(input, p)
}

/// `out` holds the tracks of `left` and of `right` in the order of their
/// paths; tracks that share a path keep their order, those of `left` first.
pub open spec fn merged(out: Seq<TrackView>, left: Seq<TrackView>, right: Seq<TrackView>) -> bool {
    &&& sorted(view_paths(out))
    &&& out.to_multiset() == left.to_multiset().add(right.to_multiset())
    &&& forall|p: Seq<char>| #[trigger] with_path(out, p) == with_path(left, p) + with_path(right, p)
}

/// The state of a merge that has taken the first `i` tracks of `left` and
/// the first `j` of `right`: `out` is their merge, no track of `out` comes
/// after a track still to be taken, and every track taken from `right` comes
/// before every track of `left` still to be taken.
pub open spec fn merging(
    out: Seq<TrackView>,
    left: Seq<TrackView>,
    right: Seq<TrackView>,
    i: int,
    j: int,
) -> bool {
    &&& 0 <= i <= left.len()
    &&& 0 <= j <= right.len()
    &&& merged(out, left.take(i), right.take(j))
    &&& forall|o: int, x: int|
        0 <= o < out.len() && i <= x < left.len() ==> path_le(
            (#[trigger] out[o]).path,
            (#[trigger] left[x]).path,
        )
    &&& forall|o: int, y: int|
        0 <= o < out.len() && j <= y < right.len() ==> path_le(
            (#[trigger] out[o]).path,
            (#[trigger] right[y]).path,
        )
    &&& forall|y: int, x: int|
        0 <= y < j && i <= x < left.len() ==> path_lt(
            (#[trigger] right[y]).path,
            (#[trigger] left[x]).path,
        )
}

/// The tracks of one path in a sequence with one more track at its end.
pub proof fn lemma_with_path_push(s: Seq<TrackView>, t: TrackView, p: Seq<char>)
    ensures
        with_path(s.push(t), p) == if t.path == p {
            with_path(s, p).push(t)
        } else {
            with_path(s, p)
        },
{
    reveal(Seq::filter);
    assert(s.push(t).drop_last() == s);
    assert(has_path(p)(t) == (t.path == p));
}

/// A sorted sequence stays sorted when a track is put at its end that comes
/// no earlier than any of its tracks.
proof fn lemma_sorted_push(out: Seq<TrackView>, t: TrackView)
    requires
        sorted(view_paths(out)),
        forall|o: int| 0 <= o < out.len() ==> path_le((#[trigger] out[o]).path, t.path),
    ensures
        sorted(view_paths(out.push(t))),
{
    let ps = view_paths(out.push(t));
    assert forall|a: int, b: int| 0 <= a <= b < ps.len() implies path_le(
        #[trigger] ps[a],
        #[trigger] ps[b],
    ) by {
        if b < out.len() {
            assert(path_le(view_paths(out)[a], view_paths(out)[b]));
        } else if a < out.len() {
            assert(path_le(out[a].path, t.path));
        } else {
            lemma_le_refl(t.path);
        }
    }
}

/// A merge may take the next track of `left` when `right` is used up or its
/// next track comes no earlier.
proof fn lemma_merge_left(
    out: Seq<TrackView>,
    left: Seq<TrackView>,
    right: Seq<TrackView>,
    i: int,
    j: int,
)
    requires
        merging(out, left, right, i, j),
        sorted(view_paths(left)),
        sorted(view_paths(right)),
        i < left.len(),
        j == right.len() || path_le(left[i].path, right[j].path),
    ensures
        merging(out.push(left[i]), left, right, i + 1, j),
{
    let t = left[i];
    let next = out.push(t);
    let l0 = left.take(i);
    let l1 = left.take(i + 1);
    let r0 = right.take(j);
    assert(l1 == l0.push(t));
    lemma_sorted_push(out, t);
    to_multiset_build(out, t);
    to_multiset_build(l0, t);
    assert(next.to_multiset() =~= l1.to_multiset().add(r0.to_multiset()));
    assert forall|p: Seq<char>| #[trigger]
        with_path(next, p) == with_path(l1, p) + with_path(r0, p) by {
        lemma_with_path_push(out, t, p);
        lemma_with_path_push(l0, t, p);
        assert(with_path(out, p) == with_path(l0, p) + with_path(r0, p));
        if t.path == p {
            assert forall|y: int| 0 <= y < r0.len() implies !has_path(p)(#[trigger] r0[y]) by {
                assert(path_lt(right[y].path, left[i].path));
            }
            r0.lemma_all_neg_filter_empty(has_path(p));
            assert(with_path(r0, p) =~= Seq::<TrackView>::empty());
            assert(with_path(next, p) =~= with_path(l1, p) + with_path(r0, p));
        }
    }
    assert forall|o: int, x: int| 0 <= o < next.len() && i + 1 <= x < left.len() implies path_le(
        (#[trigger] next[o]).path,
        (#[trigger] left[x]).path,
    ) by {
        if o == out.len() {
            assert(path_le(view_paths(left)[i], view_paths(left)[x]));
        } else {
            assert(path_le(out[o].path, left[x].path));
        }
    }
    assert forall|o: int, y: int| 0 <= o < next.len() && j <= y < right.len() implies path_le(
        (#[trigger] next[o]).path,
        (#[trigger] right[y]).path,
    ) by {
        if o == out.len() {
            assert(path_le(view_paths(right)[j], view_paths(right)[y]));
            lemma_le_trans(t.path, right[j].path, right[y].path);
        } else {
            assert(path_le(out[o].path, right[y].path));
        }
    }
}

/// A merge may take the next track of `right` when `left` is used up or its
/// next track comes later.
proof fn lemma_merge_right(
    out: Seq<TrackView>,
    left: Seq<TrackView>,
    right: Seq<TrackView>,
    i: int,
    j: int,
)
    requires
        merging(out, left, right, i, j),
        sorted(view_paths(left)),
        sorted(view_paths(right)),
        j < right.len(),
        i == left.len() || path_lt(right[j].path, left[i].path),
    ensures
        merging(out.push(right[j]), left, right, i, j + 1),
{
    let t = right[j];
    let next = out.push(t);
    let l0 = left.take(i);
    let r0 = right.take(j);
    let r1 = right.take(j + 1);
    assert(r1 == r0.push(t));
    lemma_sorted_push(out, t);
    to_multiset_build(out, t);
    to_multiset_build(r0, t);
    assert(next.to_multiset() =~= l0.to_multiset().add(r1.to_multiset()));
    assert forall|p: Seq<char>| #[trigger]
        with_path(next, p) == with_path(l0, p) + with_path(r1, p) by {
        lemma_with_path_push(out, t, p);
        lemma_with_path_push(r0, t, p);
        assert(with_path(out, p) == with_path(l0, p) + with_path(r0, p));
        assert(with_path(next, p) =~= with_path(l0, p) + with_path(r1, p));
    }
    assert forall|o: int, x: int| 0 <= o < next.len() && i <= x < left.len() implies path_le(
        (#[trigger] next[o]).path,
        (#[trigger] left[x]).path,
    ) by {
        if o == out.len() {
            assert(path_le(view_paths(left)[i], view_paths(left)[x]));
            lemma_le_trans(t.path, left[i].path, left[x].path);
        } else {
            assert(path_le(out[o].path, left[x].path));
        }
    }
    assert forall|o: int, y: int| 0 <= o < next.len() && j + 1 <= y < right.len() implies path_le(
        (#[trigger] next[o]).path,
        (#[trigger] right[y]).path,
    ) by {
        if o == out.len() {
            assert(path_le(view_paths(right)[j], view_paths(right)[y]));
        } else {
            assert(path_le(out[o].path, right[y].path));
        }
    }
    assert forall|y: int, x: int| 0 <= y < j + 1 && i <= x < left.len() implies path_lt(
        (#[trigger] right[y]).path,
        (#[trigger] left[x]).path,
    ) by {
        if y == j {
            assert(path_le(view_paths(left)[i], view_paths(left)[x]));
            lemma_le_trans(t.path, left[i].path, left[x].path);
            if t.path == left[x].path {
                crate::order::lemma_le_antisym(left[i].path, t.path);
            }
        } else {
            assert(path_lt(right[y].path, left[x].path));
        }
    }
}

/// A track with the characters of its path, by which it is sorted.
struct Keyed {
    key: Vec<char>,
    track: Arc<Track>,
}

/// The tracks of a sequence of keyed tracks.
spec fn keyed_tracks(s: Seq<Keyed>) -> Seq<TrackView> {
    Seq::new(s.len(), |i: int| s[i].track@)
}

/// Each key holds the characters of the path of its track.
spec fn keys_fit(s: Seq<Keyed>) -> bool {
    forall|i: int| 0 <= i < s.len() ==> (#[trigger] s[i]).key@ == s[i].track.path@
}

/// The elements of `v` in reverse order.
fn reversed(v: Vec<Keyed>) -> (r: Vec<Keyed>)
    ensures
        r.len() == v.len(),
        forall|k: int| 0 <= k < r.len() ==> r[k] == v[v.len() - 1 - k],
{
    let ghost all = v@;
    let mut v = v;
    let mut r: Vec<Keyed> = Vec::new();
    while v.len() > 0
        invariant
            v@ == all.take(v.len() as int),
            r.len() + v.len() == all.len(),
            forall|k: int| 0 <= k < r.len() ==> r[k] == all[all.len() - 1 - k],
        decreases v.len(),
    {
        let last = v.pop().unwrap();
        r.push(last);
    }
    r
}

/// Merges two sorted runs into one. Of tracks with the same path those of
/// `left` come first.
fn merge(left: Vec<Keyed>, right: Vec<Keyed>) -> (out: Vec<Keyed>)
    requires
        keys_fit(left@),
        keys_fit(right@),
        sorted(view_paths(keyed_tracks(left@))),
        sorted(view_paths(keyed_tracks(right@))),
    ensures
        keys_fit(out@),
        merged(keyed_tracks(out@), keyed_tracks(left@), keyed_tracks(right@)),
{
    let ghost l = keyed_tracks(left@);
    let ghost r = keyed_tracks(right@);
    let ghost lk = left@;
    let ghost rk = right@;
    let mut a = reversed(left);
    let mut b = reversed(right);
    let mut out: Vec<Keyed> = Vec::new();
    proof {
        assert(l.take(0) =~= Seq::<TrackView>::empty());
        assert(r.take(0) =~= Seq::<TrackView>::empty());
        assert(keyed_tracks(out@) =~= Seq::<TrackView>::empty());
        assert forall|p: Seq<char>| #[trigger]
            with_path(Seq::<TrackView>::empty(), p) == with_path(Seq::<TrackView>::empty(), p) + with_path(
                Seq::<TrackView>::empty(),
                p,
            ) by {
            reveal(Seq::filter);
        }
        assert(Seq::<TrackView>::empty().to_multiset() =~= Seq::<TrackView>::empty().to_multiset().add(
            Seq::<TrackView>::empty().to_multiset(),
        )) by {
            broadcast use vstd::multiset::group_multiset_axioms;
            Seq::<TrackView>::empty().to_multiset_ensures();
        }
    }
    while a.len() > 0 || b.len() > 0
        invariant
            l == keyed_tracks(lk),
            r == keyed_tracks(rk),
            keys_fit(lk),
            keys_fit(rk),
            sorted(view_paths(l)),
            sorted(view_paths(r)),
            a.len() <= lk.len(),
            b.len() <= rk.len(),
            forall|k: int| 0 <= k < a.len() ==> a[k] == lk[lk.len() - 1 - k],
            forall|k: int| 0 <= k < b.len() ==> b[k] == rk[rk.len() - 1 - k],
            keys_fit(out@),
            merging(keyed_tracks(out@), l, r, lk.len() - a.len(), rk.len() - b.len()),
        decreases a.len() + b.len(),
    {
        let ghost i = lk.len() - a.len();
        let ghost j = rk.len() - b.len();
        let ghost before = keyed_tracks(out@);
        let from_left = if a.len() == 0 {
            false
        } else if b.len() == 0 {
            true
        } else {
            let x = &a[a.len() - 1];
            let y = &b[b.len() - 1];
            assert(*x == lk[i] && *y == rk[j]);
            assert(x.key@ == l[i].path && y.key@ == r[j].path);
            let le = path_le_chars(x.key.as_slice(), y.key.as_slice());
            proof {
                if !le {
                    lemma_not_le(l[i].path, r[j].path);
                }
            }
            le
        };
        if from_left {
            let x = a.pop().unwrap();
            assert(x == lk[i]);
            proof {
                lemma_merge_left(before, l, r, i, j);
            }
            out.push(x);
            assert(keyed_tracks(out@) =~= before.push(l[i]));
        } else {
            let y = b.pop().unwrap();
            assert(y == rk[j]);
            proof {
                lemma_merge_right(before, l, r, i, j);
            }
            out.push(y);
            assert(keyed_tracks(out@) =~= before.push(r[j]));
        }
    }
    assert(l.take(l.len() as int) == l);
    assert(r.take(r.len() as int) == r);
    out
}

/// Sorts keyed tracks by merging sorted halves.
fn sort_keyed(v: Vec<Keyed>) -> (out: Vec<Keyed>)
    requires
        keys_fit(v@),
    ensures
        keys_fit(out@),
        sorted_from(keyed_tracks(out@), keyed_tracks(v@)),
    decreases v.len(),
{
    if v.len() <= 1 {
        proof {
            let ps = view_paths(keyed_tracks(v@));
            assert forall|a: int, b: int| 0 <= a <= b < ps.len() implies path_le(
                #[trigger] ps[a],
                #[trigger] ps[b],
            ) by {
                lemma_le_refl(ps[a]);
            }
        }
        return v;
    }
    let ghost all = keyed_tracks(v@);
    let mut first = v;
    let second = first.split_off(first.len() / 2);
    let ghost l = keyed_tracks(first@);
    let ghost r = keyed_tracks(second@);
    assert(all =~= l + r);
    let left = sort_keyed(first);
    let right = sort_keyed(second);
    let out = merge(left, right);
    proof {
        let o = keyed_tracks(out@);
        lemma_multiset_commutative(l, r);
        assert forall|p: Seq<char>| #[trigger] with_path(o, p) == with_path(all, p) by {
            assert(with_path(o, p) == with_path(keyed_tracks(left@), p) + with_path(
                keyed_tracks(right@),
                p,
            ));
            assert(with_path(keyed_tracks(left@), p) == with_path(l, p));
            assert(with_path(keyed_tracks(right@), p) == with_path(r, p));
            Seq::filter_distributes_over_add(l, r, has_path(p));
        }
    }
    out
}

/// Sorts tracks by path. The sort is stable: tracks that share a path keep
/// their order.
pub fn sort_tracks(tracks: Vec<Arc<Track>>) -> (out: Vec<Arc<Track>>)
    ensures
        sorted_from(track_views(out@), track_views(tracks@)),
{
    let ghost input = track_views(tracks@);
    let mut keyed: Vec<Keyed> = Vec::new();
    for t in it: tracks.into_iter()
        invariant
            track_views(it.seq()) == input,
            keys_fit(keyed@),
            keyed_tracks(keyed@) == input.take(it.index() as int),
    {
        let ghost before = keyed_tracks(keyed@);
        assert(input[it.index() as int] == t@);
        let key = chars_of(t.path.as_str());
        keyed.push(Keyed { key, track: t });
        assert(keyed_tracks(keyed@) =~= before.push(t@));
        assert(input.take(it.index() + 1) =~= input.take(it.index() as int).push(t@));
    }
    assert(input.take(input.len() as int) == input);
    let sorted = sort_keyed(keyed);
    let ghost views = keyed_tracks(sorted@);
    let mut out: Vec<Arc<Track>> = Vec::new();
    for k in it: sorted.into_iter()
        invariant
            keyed_tracks(it.seq()) == views,
            track_views(out@) == views.take(it.index() as int),
    {
        let ghost before = track_views(out@);
        assert(views[it.index() as int] == k.track@);
        out.push(k.track);
        assert(track_views(out@) =~= before.push(k.track@));
        assert(views.take(it.index() + 1) =~= views.take(it.index() as int).push(k.track@));
    }
    assert(views.take(views.len() as int) == views);
    out
}

} // verus!
