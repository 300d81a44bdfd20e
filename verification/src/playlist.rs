use std::sync::Arc;
use vstd::prelude::*;
use crate::library::{track_views, Track, TrackView};
use crate::path_utils::{deep, file_name, joined_segments, last_segment, segments, split_path};
use crate::text::{
    chars_of, decimal, push_all, push_decimal, push_str, replace_char, replaced, string_of,
};
use crate::urlcode::{percent_encode, percent_encoded};

verus! {

/// Each segment percent-encoded.
pub open spec fn encoded_segments(parts: Seq<Seq<char>>) -> Seq<Seq<char>> {
    Seq::new(parts.len(), |i: int| percent_encoded(parts[i]))
}

/// A relative path as it stands in a URL: each segment percent-encoded, the
/// separators kept.
pub open spec fn encoded_path(rel: Seq<char>) -> Seq<char> {
    joined_segments(encoded_segments(segments(rel)))
}

/// `encode_path` on characters.
pub fn encode_path_chars(rel: &[char]) -> (out: Vec<char>)
    ensures
        out@ == encoded_path(rel@),
{
    let parts = split_path(rel);
    let ghost enc = encoded_segments(segments(rel@));
    let mut out: Vec<char> = Vec::new();
    let mut i: usize = 0;
    assert(enc.take(0) == Seq::<Seq<char>>::empty());
    while i < parts.len()
        invariant
            i <= parts.len(),
            deep(parts@) == segments(rel@),
            enc == encoded_segments(segments(rel@)),
            out@ == joined_segments(enc.take(i as int)),
        decreases parts.len() - i,
    {
        assert(deep(parts@)[i as int] == parts@[i as int]@);
        assert(enc.take(i + 1).drop_last() == enc.take(i as int));
        if i > 0 {
            out.push('/');
        }
        let plain = string_of(parts[i].as_slice());
        let coded = percent_encode(plain.as_str());
        push_str(&mut out, coded.as_str());
        i += 1;
    }
    assert(enc.take(parts.len() as int) == enc);
    out
}

/// Percent-encodes each segment of a relative path.
pub fn encode_path(rel: &str) -> (out: String)
    ensures
        out@ == encoded_path(rel@),
{
    let chars = chars_of(rel);
    let out = encode_path_chars(chars.as_slice());
    string_of(out.as_slice())
}

/// The name under which a track is listed: its title; with the artist and
/// ` - ` before it where both are given and the artist is not empty; the
/// file name where the track has no title.
pub open spec fn display_name(t: TrackView) -> Seq<char> {
    match t.metadata.title {
        Some(title) => match t.metadata.artist {
            Some(artist) => if artist.len() > 0 {
                artist + " - "@ + title
            } else {
                title
            },
            None => title,
        },
        None => file_name(t.path),
    }
}

/// The playing time in whole seconds, rounded to the nearest; 0 where it is
/// not known.
pub open spec fn whole_seconds(duration_ms: Option<u64>) -> nat {
    match duration_ms {
        Some(ms) => ((ms + 500) / 1000) as nat,
        None => 0,
    }
}

/// The path with `/` for every backslash.
pub open spec fn slashed(path: Seq<char>) -> Seq<char> {
    replaced(path, '\\', '/')
}

/// The two lines of a track: the information line and the URL line.
pub open spec fn playlist_entry(base: Seq<char>, t: TrackView) -> Seq<char> {
    "#EXTINF:"@ + decimal(whole_seconds(t.metadata.duration_ms)) + ","@ + display_name(t) + "\r\n"@
        + base + encoded_path(slashed(t.path)) + "\r\n"@
}

/// The lines of the tracks, one track after the other.
pub open spec fn playlist_entries(base: Seq<char>, tracks: Seq<TrackView>) -> Seq<char>
    decreases tracks.len(),
{
    if tracks.len() == 0 {
        Seq::empty()
    } else {
        playlist_entries(base, tracks.drop_last()) + playlist_entry(base, tracks.last())
    }
}

/// An extended M3U playlist: the header line, then the lines of each track.
/// Every line ends in a carriage return and a line feed.
pub open spec fn playlist(base: Seq<char>, tracks: Seq<TrackView>) -> Seq<char> {
    "#EXTM3U\r\n"@ + playlist_entries(base, tracks)
}

/// The playing time in whole seconds, rounded to the nearest.
pub fn round_seconds(duration_ms: Option<u64>) -> (secs: u64)
    ensures
        secs == whole_seconds(duration_ms),
{
    match duration_ms {
        Some(ms) => ms / 1000 + if ms % 1000 >= 500 {
            1
        } else {
            0
        },
        None => 0,
    }
}

/// Appends the display name of a track to `out`.
pub fn push_display_name(out: &mut Vec<char>, t: &Track)
    ensures
        final(out)@ == old(out)@ + display_name(t@),
{
    match &t.metadata.title {
        Some(title) => {
            match &t.metadata.artist {
                Some(artist) => {
                    if !artist.as_str().is_empty() {
                        push_str(out, artist.as_str());
                        push_str(out, " - ");
                    }
                },
                None => {},
            }
            push_str(out, title.as_str());
        },
        None => {
            let path = chars_of(t.path.as_str());
            let name = last_segment(path.as_slice());
            push_all(out, name.as_slice());
        },
    }
}

/// Renders the tracks as an extended M3U playlist whose URLs start with `base`.
pub fn render_m3u8(base: &str, _root: &str, tracks: &[Arc<Track>]) -> (body: String)
    ensures
        body@ == playlist(base@, track_views(tracks@)),
{
    let ghost views = track_views(tracks@);
    let mut out: Vec<char> = Vec::new();
    push_str(&mut out, "#EXTM3U\r\n");
    let mut i: usize = 0;
    assert(views.take(0) == Seq::<TrackView>::empty());
    while i < tracks.len()
        invariant
            i <= tracks.len(),
            views == track_views(tracks@),
            out@ == playlist(base@, views.take(i as int)),
        decreases tracks.len() - i,
    {
        let t = &tracks[i];
        assert(views.take(i + 1).drop_last() == views.take(i as int));
        assert(views.take(i + 1).last() == t@);
        let ghost before = out@;
        push_str(&mut out, "#EXTINF:");
        push_decimal(&mut out, round_seconds(t.metadata.duration_ms));
        push_str(&mut out, ",");
        push_display_name(&mut out, t);
        push_str(&mut out, "\r\n");
        push_str(&mut out, base);
        let path = chars_of(t.path.as_str());
        let rel = replace_char(path.as_slice(), '\\', '/');
        let coded = encode_path_chars(rel.as_slice());
        push_all(&mut out, coded.as_slice());
        push_str(&mut out, "\r\n");
        assert(out@ == before + playlist_entry(base@, t@));
        i += 1;
    }
    assert(views.take(tracks.len() as int) == views);
    string_of(out.as_slice())
}

} // verus!
