use vstd::prelude::*;
use crate::path_utils::segments;

verus! {

/// The weight of a character in the order of paths: the separator weighs
/// least, every other character weighs by its code point.
pub open spec fn rank(c: char) -> int {
    if c == '/' {
        0
    } else {
        c as int + 1
    }
}

/// The order of paths: segment by segment, each segment by code points, a
/// segment before every longer one that starts with it, a path before every
/// path below it. Stated on characters, this is the lexicographic order in
/// which the separator comes before every other character.
pub open spec fn path_le(a: Seq<char>, b: Seq<char>) -> bool
    decreases a.len(),
{
    if a.len() == 0 {
        true
    } else if b.len() == 0 {
        false
    } else if a[0] == b[0] {
        path_le(a.drop_first(), b.drop_first())
    } else {
        rank(a[0]) < rank(b[0])
    }
}

/// `a` comes before `b` and differs from it.
pub open spec fn path_lt(a: Seq<char>, b: Seq<char>) -> bool {
    path_le(a, b) && a != b
}

/// Each path comes no later than every path after it.
pub open spec fn sorted(paths: Seq<Seq<char>>) -> bool {
    forall|i: int, j: int| 0 <= i <= j < paths.len() ==> path_le(#[trigger] paths[i], #[trigger] paths[j])
}

/// Each path comes before every path after it, so none occurs twice.
pub open spec fn strictly_sorted(paths: Seq<Seq<char>>) -> bool {
    forall|i: int, j: int| 0 <= i < j < paths.len() ==> path_lt(#[trigger] paths[i], #[trigger] paths[j])
}

/// Different characters weigh differently, and apart from the separator
/// they weigh in the order of their code points.
pub proof fn lemma_rank(x: char, y: char)
    ensures
        x != y ==> rank(x) != rank(y),
        x != '/' && y != '/' ==> (rank(x) < rank(y)) == (x < y),
        rank(x) >= 0,
        rank(y) >= 0,
{
}

/// Every path comes at or before itself.
pub proof fn lemma_le_refl(a: Seq<char>)
    ensures
        path_le(a, a),
    decreases a.len(),
{
    if a.len() > 0 {
        lemma_le_refl(a.drop_first());
    }
}

/// Of two paths one comes at or before the other.
pub proof fn lemma_le_total(a: Seq<char>, b: Seq<char>)
    ensures
        path_le(a, b) || path_le(b, a),
    decreases a.len(),
{
    if a.len() == 0 {
        assert(path_le(a, b));
    } else if b.len() == 0 {
        assert(path_le(b, a));
    } else if a[0] == b[0] {
        lemma_le_total(a.drop_first(), b.drop_first());
    } else {
        lemma_rank(a[0], b[0]);
    }
}

/// Two paths that come at or before each other are the same path.
pub proof fn lemma_le_antisym(a: Seq<char>, b: Seq<char>)
    requires
        path_le(a, b),
        path_le(b, a),
    ensures
        a == b,
    decreases a.len(),
{
    if a.len() > 0 && b.len() > 0 {
        lemma_le_antisym(a.drop_first(), b.drop_first());
        assert(a == seq![a[0]] + a.drop_first());
        assert(b == seq![b[0]] + b.drop_first());
    } else {
        assert(a =~= b);
    }
}

/// The order of paths carries over: what comes at or before a path comes at
/// or before every path after that one.
pub proof fn lemma_le_trans(a: Seq<char>, b: Seq<char>, c: Seq<char>)
    requires
        path_le(a, b),
        path_le(b, c),
    ensures
        path_le(a, c),
    decreases a.len(),
{
    if a.len() > 0 && b.len() > 0 && c.len() > 0 {
        if a[0] == b[0] && b[0] == c[0] {
            lemma_le_trans(a.drop_first(), b.drop_first(), c.drop_first());
        }
    }
}

/// Where `a` does not come at or before `b`, `b` comes before `a`.
pub proof fn lemma_not_le(a: Seq<char>, b: Seq<char>)
    requires
        !path_le(a, b),
    ensures
        path_lt(b, a),
{
    lemma_le_total(a, b);
    lemma_le_refl(a);
}

/// The same of paths that come strictly before one another.
pub proof fn lemma_lt_trans(a: Seq<char>, b: Seq<char>, c: Seq<char>)
    requires
        path_lt(a, b),
        path_lt(b, c),
    ensures
        path_lt(a, c),
{
    lemma_le_trans(a, b, c);
    if a == c {
        lemma_le_antisym(a, b);
    }
}

/// Where `a` comes before `b`, the two agree up to some position at which
/// `a` ends or holds a character of less weight than `b`.
pub proof fn lemma_lt_split(a: Seq<char>, b: Seq<char>) -> (d: int)
    requires
        path_lt(a, b),
    ensures
        0 <= d <= a.len(),
        d < b.len(),
        a.take(d) == b.take(d),
        d == a.len() || rank(a[d]) < rank(b[d]),
    decreases a.len(),
{
    if a.len() == 0 {
        assert(b.len() > 0) by {
            if b.len() == 0 {
                assert(a =~= b);
            }
        }
        assert(a.take(0) =~= b.take(0));
        0
    } else if a[0] == b[0] {
        let x = a.drop_first();
        let y = b.drop_first();
        if x == y {
            assert(a =~= seq![a[0]] + x);
            assert(b =~= seq![b[0]] + y);
        }
        let d = lemma_lt_split(x, y);
        assert(a.take(d + 1) =~= seq![a[0]] + x.take(d));
        assert(b.take(d + 1) =~= seq![b[0]] + y.take(d));
        if d < x.len() {
            assert(x[d] == a[d + 1] && y[d] == b[d + 1]);
        }
        d + 1
    } else {
        assert(a.take(0) =~= b.take(0));
        0
    }
}

/// Where two paths agree up to a position at which `a` ends and `b` goes
/// on, or at which `a` holds a character of less weight, `a` comes before `b`.
pub proof fn lemma_lt_join(a: Seq<char>, b: Seq<char>, d: int)
    requires
        0 <= d <= a.len(),
        d < b.len(),
        a.take(d) == b.take(d),
        d == a.len() || rank(a[d]) < rank(b[d]),
    ensures
        path_lt(a, b),
    decreases d,
{
    if d > 0 {
        let x = a.drop_first();
        let y = b.drop_first();
        assert(a[0] == a.take(d)[0] && b[0] == b.take(d)[0]);
        assert(x.take(d - 1) =~= a.take(d).drop_first());
        assert(y.take(d - 1) =~= b.take(d).drop_first());
        if d - 1 < x.len() {
            assert(x[d - 1] == a[d] && y[d - 1] == b[d]);
        }
        lemma_lt_join(x, y, d - 1);
    }
}

/// A strictly sorted sequence stays so when a path is put in between the
/// paths before it and the paths after it.
pub proof fn lemma_strictly_sorted_insert(s: Seq<Seq<char>>, at: int, k: Seq<char>)
    requires
        strictly_sorted(s),
        0 <= at <= s.len(),
        at > 0 ==> path_lt(s[at - 1], k),
        forall|j: int| at <= j < s.len() ==> path_lt(k, #[trigger] s[j]),
    ensures
        strictly_sorted(s.insert(at, k)),
{
    let r = s.insert(at, k);
    assert forall|i: int, j: int| 0 <= i < j < r.len() implies path_lt(
        #[trigger] r[i],
        #[trigger] r[j],
    ) by {
        if j < at {
            assert(r[i] == s[i] && r[j] == s[j]);
        } else if j == at {
            assert(r[i] == s[i]);
            if i < at - 1 {
                assert(path_lt(s[i], s[at - 1]));
                lemma_lt_trans(s[i], s[at - 1], k);
            }
        } else if i < at {
            assert(r[i] == s[i] && r[j] == s[j - 1]);
        } else if i == at {
            assert(r[j] == s[j - 1]);
        } else {
            assert(r[i] == s[i - 1] && r[j] == s[j - 1]);
        }
    }
}

/// Whether `a` comes at or before `b` in the order of paths.
pub fn path_le_chars(a: &[char], b: &[char]) -> (le: bool)
    ensures
        le == path_le(a@, b@),
{
    let mut i: usize = 0;
    assert(a@.skip(0) == a@ && b@.skip(0) == b@);
    while i < a.len() && i < b.len()
        invariant
            i <= a.len(),
            i <= b.len(),
            path_le(a@, b@) == path_le(a@.skip(i as int), b@.skip(i as int)),
        decreases a.len() - i,
    {
        let x = a[i];
        let y = b[i];
        assert(a@.skip(i as int)[0] == x);
        assert(b@.skip(i as int)[0] == y);
        if x != y {
            proof {
                lemma_rank(x, y);
            }
            return if x == '/' {
                true
            } else if y == '/' {
                false
            } else {
                x < y
            };
        }
        assert(a@.skip(i as int).drop_first() == a@.skip(i + 1));
        assert(b@.skip(i as int).drop_first() == b@.skip(i + 1));
        i += 1;
    }
    i == a.len()
}

/// The order of names: character by character, by code points, a name
/// before every longer one that starts with it.
pub open spec fn name_le(a: Seq<char>, b: Seq<char>) -> bool
    decreases a.len(),
{
    if a.len() == 0 {
        true
    } else if b.len() == 0 {
        false
    } else if a[0] == b[0] {
        name_le(a.drop_first(), b.drop_first())
    } else {
        a[0] < b[0]
    }
}

/// The order of lists of segments: segment by segment, each by the order of
/// names, a list before every longer one that starts with it.
pub open spec fn segments_le(x: Seq<Seq<char>>, y: Seq<Seq<char>>) -> bool
    decreases x.len(),
{
    if x.len() == 0 {
        true
    } else if y.len() == 0 {
        false
    } else if x[0] == y[0] {
        segments_le(x.drop_first(), y.drop_first())
    } else {
        name_le(x[0], y[0])
    }
}

/// The segments of a path, told from its first character: a separator ends
/// an empty first segment; any other character goes before the first segment
/// of the rest.
pub proof fn lemma_segments_front(c: char, rest: Seq<char>)
    ensures
        segments(seq![c] + rest).len() >= 1,
        segments(rest).len() >= 1,
        c == '/' ==> segments(seq![c] + rest) == seq![Seq::<char>::empty()] + segments(rest),
        c != '/' ==> segments(seq![c] + rest) == seq![seq![c] + segments(rest)[0]] + segments(
            rest,
        ).drop_first(),
    decreases rest.len(),
{
    let whole = seq![c] + rest;
    if rest.len() == 0 {
        assert(whole.drop_last() =~= Seq::<char>::empty());
        assert(segments(whole.drop_last()) =~= seq![Seq::<char>::empty()]);
        assert(whole.last() == c);
        if c == '/' {
            assert(segments(whole) =~= seq![Seq::<char>::empty()] + segments(rest));
        } else {
            assert(segments(whole) =~= seq![seq![c] + segments(rest)[0]] + segments(
                rest,
            ).drop_first());
        }
    } else {
        let head = rest.drop_last();
        let last = rest.last();
        lemma_segments_front(c, head);
        assert(whole.drop_last() =~= seq![c] + head);
        assert(whole.last() == last);
        let before = segments(seq![c] + head);
        let inner = segments(head);
        if last == '/' {
            assert(segments(whole) == before.push(Seq::<char>::empty()));
            assert(segments(rest) == inner.push(Seq::<char>::empty()));
            if c == '/' {
                assert(segments(whole) =~= seq![Seq::<char>::empty()] + segments(rest));
            } else {
                assert(segments(whole) =~= seq![seq![c] + segments(rest)[0]] + segments(
                    rest,
                ).drop_first());
            }
        } else {
            assert(segments(whole) == before.drop_last().push(before.last().push(last)));
            assert(segments(rest) == inner.drop_last().push(inner.last().push(last)));
            if c == '/' {
                assert(segments(whole) =~= seq![Seq::<char>::empty()] + segments(rest));
            } else {
                if inner.len() == 1 {
                    assert(before.last().push(last) =~= seq![c] + inner.last().push(last));
                }
                assert(segments(whole) =~= seq![seq![c] + segments(rest)[0]] + segments(
                    rest,
                ).drop_first());
            }
        }
    }
}

/// The order of paths is the order of their segments: two paths compare as
/// the lists of their segments do, segment by segment and each segment by
/// code points.
pub proof fn lemma_order_by_segments(a: Seq<char>, b: Seq<char>)
    ensures
        path_le(a, b) == segments_le(segments(a), segments(b)),
    decreases a.len(),
{
    let none = Seq::<char>::empty();
    if a.len() == 0 {
        assert(segments(a) =~= seq![none]);
        if b.len() > 0 {
            assert(b =~= seq![b[0]] + b.drop_first());
            lemma_segments_front(b[0], b.drop_first());
        } else {
            assert(segments(b) =~= seq![none]);
        }
        let x = segments(a);
        let y = segments(b);
        assert(x.drop_first().len() == 0);
        assert(x[0] =~= none);
        assert(y.len() >= 1);
        assert(segments_le(x.drop_first(), y.drop_first()));
        assert(name_le(x[0], y[0]));
        assert(segments_le(x, y));
    } else if b.len() == 0 {
        assert(segments(b) =~= seq![none]);
        assert(a =~= seq![a[0]] + a.drop_first());
        lemma_segments_front(a[0], a.drop_first());
        let x = segments(a);
        let y = segments(b);
        assert(y.drop_first().len() == 0);
        if a[0] == '/' {
            assert(x[0] =~= none);
            assert(x.drop_first() =~= segments(a.drop_first()));
            assert(!segments_le(x.drop_first(), y.drop_first()));
        } else {
            assert(x[0].len() > 0);
            assert(x[0] != y[0]);
            assert(!name_le(x[0], y[0]));
        }
    } else {
        let c = a[0];
        let d = b[0];
        let ar = a.drop_first();
        let br = b.drop_first();
        assert(a =~= seq![c] + ar);
        assert(b =~= seq![d] + br);
        lemma_segments_front(c, ar);
        lemma_segments_front(d, br);
        lemma_order_by_segments(ar, br);
        let x = segments(a);
        let y = segments(b);
        let xr = segments(ar);
        let yr = segments(br);
        if c == d {
            if c == '/' {
                assert(x[0] =~= y[0]);
                assert(x.drop_first() =~= xr);
                assert(y.drop_first() =~= yr);
            } else {
                assert(x[0] == seq![c] + xr[0] && y[0] == seq![c] + yr[0]);
                assert(x.drop_first() =~= xr.drop_first());
                assert(y.drop_first() =~= yr.drop_first());
                assert(x[0].drop_first() =~= xr[0]);
                assert(y[0].drop_first() =~= yr[0]);
                if xr[0] == yr[0] {
                    assert(x[0] == y[0]);
                    assert(segments_le(xr, yr) == segments_le(xr.drop_first(), yr.drop_first()));
                } else {
                    assert(x[0] != y[0]) by {
                        if x[0] == y[0] {
                            assert(x[0].drop_first() == y[0].drop_first());
                        }
                    }
                    assert(name_le(x[0], y[0]) == name_le(xr[0], yr[0]));
                    assert(segments_le(xr, yr) == name_le(xr[0], yr[0]));
                }
            }
        } else {
            lemma_rank(c, d);
            if c == '/' {
                assert(x[0] =~= none);
                assert(y[0] == seq![d] + yr[0]);
                assert(y[0].len() > 0);
            } else if d == '/' {
                assert(y[0] =~= none);
                assert(x[0] == seq![c] + xr[0]);
                assert(x[0].len() > 0);
            } else {
                assert(x[0] == seq![c] + xr[0] && y[0] == seq![d] + yr[0]);
                assert(x[0][0] == c && y[0][0] == d);
            }
        }
    }
}

} // verus!
