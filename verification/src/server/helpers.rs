use vstd::prelude::*;
use crate::path_utils::{deep, hidden_name, is_hidden_chars, segments, split_path};
use crate::text::{
    chars_eq, chars_of, contains_char, contains_seq, ends_with, has_infix, push_all, push_str,
    string_of, trailing_cut, trim, trimmed, without_trailing,
};
use crate::urlcode::{percent_decode, percent_decoded};

verus! {

/// A path or name that a client sent is refused.
#[derive(Debug, Clone, Copy, PartialEq, Eq)]
pub enum InputError {
    Invalid,
}

/// The segments `.` and `..`.
pub open spec fn dot_segment(s: Seq<char>) -> bool {
    s == "."@ || s == ".."@
}

/// A decoded request path may be served when it does not start with a
/// separator, holds no null character, and none of its segments is `.`, `..`
/// or a hidden name. Empty segments are passed over.
pub open spec fn servable(decoded: Seq<char>) -> bool {
    &&& !(decoded.len() > 0 && decoded[0] == '/')
    &&& !decoded.contains('\0')
    &&& forall|i: int|
        0 <= i < segments(decoded).len() ==> !dot_segment(#[trigger] segments(decoded)[i])
            && !hidden_name(segments(decoded)[i])
}

/// What a request path stands for: its percent-decoded form, where the path
/// is neither empty nor the lone separator, decodes, and may be served.
pub open spec fn request_path(path: Seq<char>) -> Option<Seq<char>> {
    if path.len() == 0 || path == "/"@ {
        None
    } else {
        match percent_decoded(path) {
            Some(d) => if servable(d) {
                Some(d)
            } else {
                None
            },
            None => None,
        }
    }
}

/// Whether `s` is `.` or `..`.
pub fn is_dot_segment(s: &[char]) -> (dot: bool)
    ensures
        dot == dot_segment(s@),
{
    chars_eq(s, chars_of(".").as_slice()) || chars_eq(s, chars_of("..").as_slice())
}

/// Checks a request path that is already percent-decoded, and hands it back
/// untouched where it may be served.
pub fn validate_decoded_path(decoded: String) -> (checked: Result<String, InputError>)
    ensures
        match checked {
            Ok(p) => servable(decoded@) && p@ == decoded@,
            Err(_) => !servable(decoded@),
        },
{
    let chars = chars_of(decoded.as_str());
    if chars.len() > 0 && chars[0] == '/' {
        return Err(InputError::Invalid);
    }
    if contains_char(chars.as_slice(), '\0') {
        return Err(InputError::Invalid);
    }
    let parts = split_path(chars.as_slice());
    let mut i: usize = 0;
    while i < parts.len()
        invariant
            i <= parts.len(),
            deep(parts@) == segments(decoded@),
            forall|j: int|
                0 <= j < i ==> !dot_segment(#[trigger] segments(decoded@)[j]) && !hidden_name(
                    segments(decoded@)[j],
                ),
        decreases parts.len() - i,
    {
        assert(deep(parts@)[i as int] == parts@[i as int]@);
        let seg = parts[i].as_slice();
        if is_dot_segment(seg) || is_hidden_chars(seg) {
            return Err(InputError::Invalid);
        }
        i += 1;
    }
    assert(deep(parts@).len() == parts.len());
    Ok(decoded)
}

/// Checks a path taken from a request: refuses the empty path and the lone
/// separator, percent-decodes the rest, and checks the decoded path.
pub fn validate_request_path(path: &str) -> (checked: Result<String, InputError>)
    ensures
        match checked {
            Ok(p) => request_path(path@) == Some(p@),
            Err(_) => request_path(path@) is None,
        },
{
    let chars = chars_of(path);
    if chars.len() == 0 || chars_eq(chars.as_slice(), chars_of("/").as_slice()) {
        return Err(InputError::Invalid);
    }
    match percent_decode(path) {
        Some(decoded) => validate_decoded_path(decoded),
        None => Err(InputError::Invalid),
    }
}

/// `s` without `suffix` at its end, or `s` itself where it does not end so.
pub open spec fn without_suffix(s: Seq<char>, suffix: Seq<char>) -> Seq<char> {
    if suffix.len() <= s.len() && s.skip(s.len() - suffix.len()) == suffix {
        s.take(s.len() - suffix.len())
    } else {
        s
    }
}

/// An album name is accepted when it is not empty, holds no null character,
/// and each of its segments is non-empty, neither `.` nor `..`, not a hidden
/// name, and free of backslashes.
pub open spec fn album_name_ok(name: Seq<char>) -> bool {
    &&& name.len() > 0
    &&& !name.contains('\0')
    &&& forall|i: int|
        0 <= i < segments(name).len() ==> {
            let seg = #[trigger] segments(name)[i];
            seg.len() > 0 && !dot_segment(seg) && !hidden_name(seg) && !seg.contains('\\')
        }
}

/// The album name before it is checked: the playlist suffix taken off, then
/// percent-decoded where that can be done.
pub open spec fn album_name_decoded(name: Seq<char>) -> Seq<char> {
    let stem = without_suffix(name, ".m3u8"@);
    match percent_decoded(stem) {
        Some(d) => d,
        None => stem,
    }
}

/// Checks an album name that is already decoded, and hands it back
/// untouched where it is accepted.
pub fn validate_album_name(name: String) -> (checked: Result<String, InputError>)
    ensures
        match checked {
            Ok(n) => album_name_ok(name@) && n@ == name@,
            Err(_) => !album_name_ok(name@),
        },
{
    let chars = chars_of(name.as_str());
    if chars.len() == 0 || contains_char(chars.as_slice(), '\0') {
        return Err(InputError::Invalid);
    }
    let parts = split_path(chars.as_slice());
    let mut i: usize = 0;
    while i < parts.len()
        invariant
            i <= parts.len(),
            deep(parts@) == segments(name@),
            forall|j: int|
                0 <= j < i ==> {
                    let seg = #[trigger] segments(name@)[j];
                    seg.len() > 0 && !dot_segment(seg) && !hidden_name(seg) && !seg.contains('\\')
                },
        decreases parts.len() - i,
    {
        assert(deep(parts@)[i as int] == parts@[i as int]@);
        let seg = parts[i].as_slice();
        if seg.len() == 0 || is_dot_segment(seg) || is_hidden_chars(seg) || contains_char(seg, '\\') {
            return Err(InputError::Invalid);
        }
        i += 1;
    }
    assert(deep(parts@).len() == parts.len());
    Ok(name)
}

/// Reads the album name out of the last part of a playlist URL: takes off
/// the suffix `.m3u8`, percent-decodes what is left where that can be done,
/// and checks the name.
pub fn parse_album_name(name: String) -> (parsed: Result<String, InputError>)
    ensures
        match parsed {
            Ok(n) => album_name_ok(album_name_decoded(name@)) && n@ == album_name_decoded(name@),
            Err(_) => !album_name_ok(album_name_decoded(name@)),
        },
{
    let chars = chars_of(name.as_str());
    let suffix = chars_of(".m3u8");
    let stem = if ends_with(chars.as_slice(), suffix.as_slice()) {
        let mut cut: Vec<char> = Vec::new();
        let keep = chars.len() - suffix.len();
        let mut i: usize = 0;
        while i < keep
            invariant
                i <= keep <= chars.len(),
                cut@ == chars@.take(i as int),
            decreases keep - i,
        {
            cut.push(chars[i]);
            i += 1;
        }
        string_of(cut.as_slice())
    } else {
        name
    };
    assert(stem@ == without_suffix(name@, ".m3u8"@));
    let decoded = match percent_decode(stem.as_str()) {
        Some(d) => d,
        None => stem,
    };
    validate_album_name(decoded)
}

/// Whether a decoded album name is refused by the plain rule for top-level
/// albums: it is empty, starts with a dot, or holds a separator of either kind.
pub fn decoded_album_invalid(name: &str) -> (invalid: bool)
    ensures
        invalid == (name@.len() == 0 || name@[0] == '.' || name@.contains('/') || name@.contains(
            '\\',
        )),
{
    let chars = chars_of(name);
    chars.len() == 0 || chars[0] == '.' || contains_char(chars.as_slice(), '/') || contains_char(
        chars.as_slice(),
        '\\',
    )
}

/// The base URL that playlists advertise, made from what the operator gave:
/// white space around it is dropped; nothing at all stands for the local
/// host; `http://` is put before it where it names no scheme; and it ends in
/// exactly one `/`.
pub open spec fn normalized_base(input: Seq<char>) -> Seq<char> {
    let t = trimmed(input);
    if t.len() == 0 {
        "http://localhost/"@
    } else {
        let with_scheme = if has_infix(t, "://"@) {
            t
        } else {
            "http://"@ + t
        };
        without_trailing(with_scheme, '/') + "/"@
    }
}

/// Makes the base URL out of what the operator gave.
pub fn normalize_base(input: &str) -> (base: String)
    ensures
        base@ == normalized_base(input@),
{
    let chars = chars_of(input);
    let t = trim(chars.as_slice());
    if t.len() == 0 {
        return string_of(chars_of("http://localhost/").as_slice());
    }
    let mut with_scheme: Vec<char> = Vec::new();
    if !contains_seq(t.as_slice(), chars_of("://").as_slice()) {
        push_str(&mut with_scheme, "http://");
    }
    push_all(&mut with_scheme, t.as_slice());
    let keep = trailing_cut(with_scheme.as_slice(), '/');
    let mut out: Vec<char> = Vec::new();
    let mut i: usize = 0;
    while i < keep
        invariant
            i <= keep <= with_scheme.len(),
            out@ == with_scheme@.take(i as int),
        decreases keep - i,
    {
        out.push(with_scheme[i]);
        i += 1;
    }
    out.push('/');
    proof {
        reveal_strlit("/");
        assert("/"@ =~= seq!['/']);
    }
    string_of(out.as_slice())
}

} // verus!
