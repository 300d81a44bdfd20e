use vstd::prelude::*;
use crate::text::{chars_eq, chars_of, push_str, str_eq, string_of};

verus! {

/// Whether a file or directory name is one the library never indexes: a name
/// with a leading dot, an AppleDouble companion (`._` prefix), or one of the
/// two platform junk names.
pub open spec fn hidden_name(name: Seq<char>) -> bool {
    ||| (name.len() >= 1 && name[0] == '.')
    ||| (name.len() >= 2 && name[0] == '.' && name[1] == '_')
    ||| name == "Thumbs.db"@
    ||| name == "desktop.ini"@
}

/// The views of a vector of character vectors.
pub open spec fn deep(v: Seq<Vec<char>>) -> Seq<Seq<char>> {
    Seq::new(v.len(), |i: int| v[i]@)
}

/// The pieces of `s` between its `/` separators, in order. A string without
/// a separator is its own single segment; `n` separators give `n + 1`
/// segments, some of which may be empty.
pub open spec fn segments(s: Seq<char>) -> Seq<Seq<char>>
    decreases s.len(),
{
    if s.len() == 0 {
        seq![Seq::<char>::empty()]
    } else {
        let before = segments(s.drop_last());
        if s.last() == '/' {
            before.push(Seq::<char>::empty())
        } else {
            before.drop_last().push(before.last().push(s.last()))
        }
    }
}

/// The segments put together again, with a `/` between each two.
pub open spec fn joined_segments(parts: Seq<Seq<char>>) -> Seq<char>
    decreases parts.len(),
{
    if parts.len() == 0 {
        Seq::empty()
    } else if parts.len() == 1 {
        parts[0]
    } else {
        joined_segments(parts.drop_last()) + seq!['/'] + parts.last()
    }
}

/// Whether any segment of the path is a hidden name.
pub open spec fn hidden_path(p: Seq<char>) -> bool {
    exists|i: int| 0 <= i < segments(p).len() && hidden_name(#[trigger] segments(p)[i])
}

/// The last segment of a path.
pub open spec fn file_name(p: Seq<char>) -> Seq<char> {
    segments(p).last()
}

/// The position of the last `.` in `name`, or -1 where it has none.
pub open spec fn last_dot(name: Seq<char>) -> int
    decreases name.len(),
{
    if name.len() == 0 {
        -1
    } else if name.last() == '.' {
        name.len() - 1
    } else {
        last_dot(name.drop_last())
    }
}

/// What follows the last `.` of a file name. A name without a dot, or whose
/// only dot is its first character, has no extension.
pub open spec fn extension(name: Seq<char>) -> Option<Seq<char>> {
    if last_dot(name) <= 0 {
        None
    } else {
        Some(name.skip(last_dot(name) + 1))
    }
}

/// An ASCII capital letter as its small letter; any other character unchanged.
pub open spec fn ascii_lower(c: char) -> char {
    if 'A' <= c && c <= 'Z' {
        ((c as u8) + 32) as char
    } else {
        c
    }
}

/// The audio container and codec extensions that are indexed, in lower case.
pub open spec fn audio_extension_name(e: Seq<char>) -> bool {
    ||| e == "mp3"@
    ||| e == "flac"@
    ||| e == "wav"@
    ||| e == "aac"@
    ||| e == "m4a"@
    ||| e == "ogg"@
    ||| e == "opus"@
    ||| e == "wma"@
    ||| e == "aif"@
    ||| e == "aiff"@
    ||| e == "alac"@
    ||| e == "pcm"@
    ||| e == "mp2"@
    ||| e == "mpga"@
    ||| e == "ape"@
}

/// Whether the path's file name carries one of the audio extensions, in any
/// mix of upper and lower case.
pub open spec fn audio_path(p: Seq<char>) -> bool {
    match extension(file_name(p)) {
        Some(e) => audio_extension_name(e.map_values(|c: char| ascii_lower(c))),
        None => false,
    }
}

/// A file is indexed when it has an audio extension and no segment of its
/// path is hidden.
pub open spec fn indexable(p: Seq<char>) -> bool {
    audio_path(p) && !hidden_path(p)
}

/// Whether a file or directory of this name is kept out of the library.
pub fn is_hidden_name(name: &str) -> (hidden: bool)
    ensures
        hidden == hidden_name(name@),
{
    if !name.is_empty() && name.get_char(0) == '.' {
        return true;
    }
    str_eq(name, "Thumbs.db") || str_eq(name, "desktop.ini")
}

/// `is_hidden_name` on characters already taken out of a string.
pub fn is_hidden_chars(name: &[char]) -> (hidden: bool)
    ensures
        hidden == hidden_name(name@),
{
    if name.len() > 0 && name[0] == '.' {
        return true;
    }
    let thumbs = chars_of("Thumbs.db");
    let desktop = chars_of("desktop.ini");
    chars_eq(name, thumbs.as_slice()) || chars_eq(name, desktop.as_slice())
}

/// A path component is hidden when it is readable as text and that text is a
/// hidden name; a component that is not valid text (`None`) is not hidden.
pub fn is_hidden_component(component: Option<&str>) -> (hidden: bool)
    ensures
        hidden == match component {
            Some(name) => hidden_name(name@),
            None => false,
        },
{
    match component {
        Some(name) => is_hidden_name(name),
        None => false,
    }
}

/// Splits a path at its `/` separators.
pub fn split_path(p: &[char]) -> (parts: Vec<Vec<char>>)
    ensures
        deep(parts@) == segments(p@),
        parts.len() >= 1,
{
    let mut done: Vec<Vec<char>> = Vec::new();
    let mut cur: Vec<char> = Vec::new();
    let mut i: usize = 0;
    while i < p.len()
        invariant
            i <= p.len(),
            deep(done@).push(cur@) == segments(p@.take(i as int)),
        decreases p.len() - i,
    {
        let ghost before = segments(p@.take(i as int));
        assert(p@.take(i + 1).drop_last() == p@.take(i as int));
        assert(before.drop_last() == deep(done@));
        if p[i] == '/' {
            done.push(cur);
            cur = Vec::new();
            assert(deep(done@) == before);
        } else {
            cur.push(p[i]);
        }
        i += 1;
    }
    assert(p@.take(p.len() as int) == p@);
    done.push(cur);
    assert(deep(done@) == segments(p@));
    done
}

/// The last segment of a path: the name of the file or folder it leads to.
pub fn last_segment(p: &[char]) -> (name: Vec<char>)
    ensures
        name@ == file_name(p@),
{
    let mut parts = split_path(p);
    assert(deep(parts@)[parts.len() - 1] == parts@[parts.len() - 1]@);
    parts.pop().unwrap()
}

/// Whether the path has a hidden name among its segments, at any depth.
pub fn is_hidden_path(p: &str) -> (hidden: bool)
    ensures
        hidden == hidden_path(p@),
{
    let chars = chars_of(p);
    let parts = split_path(chars.as_slice());
    let mut i: usize = 0;
    while i < parts.len()
        invariant
            i <= parts.len(),
            deep(parts@) == segments(p@),
            forall|j: int| 0 <= j < i ==> !hidden_name(#[trigger] segments(p@)[j]),
        decreases parts.len() - i,
    {
        assert(deep(parts@)[i as int] == parts@[i as int]@);
        if is_hidden_chars(parts[i].as_slice()) {
            return true;
        }
        i += 1;
    }
    assert(deep(parts@).len() == parts.len());
    false
}

/// An ASCII capital letter as its small letter; any other character unchanged.
pub fn to_ascii_lower(c: char) -> (l: char)
    ensures
        l == ascii_lower(c),
{
    if 'A' <= c && c <= 'Z' {
        ((c as u8) + 32) as char
    } else {
        c
    }
}

/// Whether `e`, already in lower case, is one of the indexed extensions.
pub fn is_audio_extension_name(e: &[char]) -> (audio: bool)
    ensures
        audio == audio_extension_name(e@),
{
    chars_eq(e, chars_of("mp3").as_slice()) || chars_eq(e, chars_of("flac").as_slice())
        || chars_eq(e, chars_of("wav").as_slice()) || chars_eq(e, chars_of("aac").as_slice())
        || chars_eq(e, chars_of("m4a").as_slice()) || chars_eq(e, chars_of("ogg").as_slice())
        || chars_eq(e, chars_of("opus").as_slice()) || chars_eq(e, chars_of("wma").as_slice())
        || chars_eq(e, chars_of("aif").as_slice()) || chars_eq(e, chars_of("aiff").as_slice())
        || chars_eq(e, chars_of("alac").as_slice()) || chars_eq(e, chars_of("pcm").as_slice())
        || chars_eq(e, chars_of("mp2").as_slice()) || chars_eq(e, chars_of("mpga").as_slice())
        || chars_eq(e, chars_of("ape").as_slice())
}

/// Whether the file name at the end of `p` has an audio extension.
pub fn has_audio_extension(p: &str) -> (audio: bool)
    ensures
        audio == audio_path(p@),
{
    let chars = chars_of(p);
    let parts = split_path(chars.as_slice());
    let name = &parts[parts.len() - 1];
    assert(name@ == file_name(p@)) by {
        assert(deep(parts@)[parts.len() - 1] == name@);
    }
    let mut d: usize = name.len();
    assert(name@.take(d as int) == name@);
    while d > 0 && name[d - 1] != '.'
        invariant
            d <= name.len(),
            last_dot(name@) == last_dot(name@.take(d as int)),
        decreases d,
    {
        assert(name@.take(d as int).drop_last() == name@.take(d - 1));
        d -= 1;
    }
    if d <= 1 {
        return false;
    }
    assert(last_dot(name@) == d - 1);
    let mut ext: Vec<char> = Vec::new();
    let mut i: usize = d;
    while i < name.len()
        invariant
            d <= i <= name.len(),
            ext@ == name@.subrange(d as int, i as int).map_values(|c: char| ascii_lower(c)),
        decreases name.len() - i,
    {
        ext.push(to_ascii_lower(name[i]));
        i += 1;
    }
    assert(name@.subrange(d as int, name.len() as int) == name@.skip(d as int));
    is_audio_extension_name(ext.as_slice())
}

/// Whether the scanner takes the file at `p` into the library.
pub fn is_indexable(p: &str) -> (accepted: bool)
    ensures
        accepted == indexable(p@),
{
    has_audio_extension(p) && !is_hidden_path(p)
}

/// The directory below a library root that holds its cache.
pub const CACHE_DIR: &'static str = ".musrv";

/// The file in the cache directory that holds the saved library.
pub const CACHE_FILE: &'static str = "library.json";

/// The path of `name` below the directory `base`: the two joined by one
/// separator, which is left out where `base` is empty or already ends in one.
pub open spec fn joined(base: Seq<char>, name: Seq<char>) -> Seq<char> {
    if base.len() == 0 || base.last() == '/' {
        base + name
    } else {
        base + seq!['/'] + name
    }
}

/// Joins a directory and a relative name into one path.
pub fn join_path(base: &str, name: &str) -> (path: String)
    ensures
        path@ == joined(base@, name@),
{
    let mut out = chars_of(base);
    if out.len() > 0 && out[out.len() - 1] != '/' {
        out.push('/');
    }
    push_str(&mut out, name);
    string_of(out.as_slice())
}

/// The cache directory of the library rooted at `root`.
pub fn cache_dir(root: &str) -> (dir: String)
    ensures
        dir@ == joined(root@, CACHE_DIR@),
{
    join_path(root, CACHE_DIR)
}

/// The cache file of the library rooted at `root`.
pub fn cache_path(root: &str) -> (path: String)
    ensures
        path@ == joined(joined(root@, CACHE_DIR@), CACHE_FILE@),
{
    let dir = cache_dir(root);
    join_path(dir.as_str(), CACHE_FILE)
}

} // verus!
