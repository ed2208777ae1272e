//! The hermetic resource rules.
//!
//! Nothing but the open book's archive and the catalogue's covers ever resolves.
//! An archive comes from untrusted sources, so a path that climbs out of it is
//! refused.
use crate::markup::{skip_lead, without_lead};
use crate::text::{
    chars_of, equal, find_char, join, joined, lemma_spot, same, split, split_on, spot, string_of,
    views,
};
use vstd::prelude::*;
use vstd::utf8::{decode_utf8, encode_utf8, valid_utf8};

verus! {

/// Synthetic origin for in-archive resources. Relative references in a chapter
/// resolve against it by normal URL rules, and anything with a real scheme is
/// visibly not ours.
pub const ORIGIN: &'static str = "omaread-book://book/";

/// Bytes as text, what is not UTF-8 replaced.
pub uninterp spec fn lossy_text(bytes: Seq<u8>) -> Seq<char>;

/// `String::from_utf8_lossy`: the bytes as text. Valid UTF-8 is decoded as it
/// is; how the rest is replaced is not said.
#[verifier::external_body]
fn from_utf8_lossy(bytes: &[u8]) -> (r: String)
    ensures
        r@ == lossy_text(bytes@),
        valid_utf8(bytes@) ==> r@ == decode_utf8(bytes@),
{
    String::from_utf8_lossy(bytes).into_owned()
}

/// The value of a hexadecimal digit.
pub open spec fn hex_value(b: u8) -> Option<u8> {
    if 48 <= b <= 57 {
        Some((b - 48) as u8)
    } else if 97 <= b <= 102 {
        Some((b - 87) as u8)
    } else if 65 <= b <= 70 {
        Some((b - 55) as u8)
    } else {
        None
    }
}

/// The byte that two characters spell in hexadecimal: two digits, or a plus sign
/// and one.
pub open spec fn hex_byte(a: u8, b: u8) -> Option<u8> {
    match hex_value(b) {
        Some(lo) => if a == 43 {
            Some(lo)
        } else {
            match hex_value(a) {
                Some(hi) => Some((hi * 16 + lo) as u8),
                None => None,
            }
        },
        None => None,
    }
}

/// The bytes of a path with each `%xx` replaced by the byte it names; any other
/// percent sign stays.
pub open spec fn unquoted_bytes(s: Seq<u8>) -> Seq<u8>
    decreases s.len(),
{
    if s.len() == 0 {
        seq![]
    } else if s[0] == 37 && s.len() > 2 && hex_byte(s[1], s[2]) is Some {
        seq![hex_byte(s[1], s[2])->0] + unquoted_bytes(s.skip(3))
    } else {
        seq![s[0]] + unquoted_bytes(s.skip(1))
    }
}

fn value_of_hex(b: u8) -> (r: Option<u8>)
    ensures
        r == hex_value(b),
        r matches Some(v) ==> v < 16,
{
    if 48 <= b && b <= 57 {
        Some(b - 48)
    } else if 97 <= b && b <= 102 {
        Some(b - 87)
    } else if 65 <= b && b <= 70 {
        Some(b - 55)
    } else {
        None
    }
}

fn read_hex_byte(a: u8, b: u8) -> (r: Option<u8>)
    ensures
        r == hex_byte(a, b),
{
    match value_of_hex(b) {
        Some(lo) => if a == 43 {
            Some(lo)
        } else {
            match value_of_hex(a) {
                Some(hi) => Some(hi * 16 + lo),
                None => None,
            }
        },
        None => None,
    }
}

fn decode_bytes(bytes: &[u8]) -> (r: Vec<u8>)
    ensures
        r@ == unquoted_bytes(bytes@),
{
    let mut out: Vec<u8> = Vec::new();
    let mut i: usize = 0;
    proof {
        assert(bytes@.skip(0) =~= bytes@);
        assert(out@ + unquoted_bytes(bytes@) =~= unquoted_bytes(bytes@));
    }
    while i < bytes.len()
        invariant
            i <= bytes.len(),
            unquoted_bytes(bytes@) == out@ + unquoted_bytes(bytes@.skip(i as int)),
        decreases bytes.len() - i,
    {
        let ghost before = out@;
        let ghost rest = bytes@.skip(i as int);
        let pair = if bytes[i] == 37 && bytes.len() - i > 2 {
            read_hex_byte(bytes[i + 1], bytes[i + 2])
        } else {
            None
        };
        match pair {
            Some(b) => {
                out.push(b);
                proof {
                    assert(rest.skip(3) =~= bytes@.skip(i + 3));
                    assert(unquoted_bytes(bytes@) =~= out@ + unquoted_bytes(bytes@.skip(i + 3)));
                }
                i = i + 3;
            },
            None => {
                out.push(bytes[i]);
                proof {
                    assert(rest.skip(1) =~= bytes@.skip(i + 1));
                    assert(unquoted_bytes(bytes@) =~= out@ + unquoted_bytes(bytes@.skip(i + 1)));
                }
                i = i + 1;
            },
        }
    }
    assert(out@ + unquoted_bytes(bytes@.skip(i as int)) =~= out@);
    out
}

/// A path with its percent escapes resolved.
pub open spec fn percent_decoded(s: Seq<char>) -> Seq<char> {
    lossy_text(unquoted_bytes(encode_utf8(s)))
}

proof fn lemma_nothing_to_unquote(s: Seq<u8>)
    requires
        !s.contains(37),
    ensures
        unquoted_bytes(s) == s,
    decreases s.len(),
{
    if s.len() > 0 {
        let rest = s.skip(1);
        assert(s[0] != 37);
        assert(!rest.contains(37)) by {
            if rest.contains(37) {
                let i = choose|i: int| 0 <= i < rest.len() && rest[i] == 37;
                assert(s[i + 1] == 37);
            }
        }
        lemma_nothing_to_unquote(rest);
        assert(seq![s[0]] + rest =~= s);
    } else {
        assert(unquoted_bytes(s) =~= s);
    }
}

/// A path with its percent escapes resolved; one without a percent sign is
/// itself.
pub fn percent_decode(s: &str) -> (r: String)
    ensures
        r@ == percent_decoded(s@),
        !encode_utf8(s@).contains(37) ==> r@ == s@,
{
    let out = decode_bytes(s.as_bytes());
    let r = from_utf8_lossy(&out);
    proof {
        if !encode_utf8(s@).contains(37) {
            lemma_nothing_to_unquote(encode_utf8(s@));
            vstd::utf8::encode_utf8_valid_utf8(s@);
            vstd::utf8::encode_utf8_decode_utf8(s@);
        }
    }
    r
}

/// Where the segments of a path lead from `out`: an empty one and `.` stay, `..`
/// climbs, any other goes down. `None` where the path climbs above the root or a
/// segment holds a backslash or a NUL.
pub open spec fn walked(segments: Seq<Seq<char>>, out: Seq<Seq<char>>) -> Option<Seq<Seq<char>>>
    decreases segments.len(),
{
    if segments.len() == 0 {
        Some(out)
    } else {
        let s = segments[0];
        let rest = segments.drop_first();
        if s.len() == 0 || s == "."@ {
            walked(rest, out)
        } else if s == ".."@ {
            if out.len() == 0 {
                None
            } else {
                walked(rest, out.drop_last())
            }
        } else if spot(s, '\\') is Some || spot(s, '\0') is Some {
            None
        } else {
            walked(rest, out.push(s))
        }
    }
}

/// The archive path that decoded text names, if it stays in the archive and
/// names something.
pub open spec fn archive_path(decoded: Seq<char>) -> Option<Seq<char>> {
    match walked(split(decoded, '/'), seq![]) {
        Some(segments) if segments.len() > 0 => Some(seq!['/'] + joined(segments, "/"@)),
        _ => None,
    }
}

/// Normalise decoded text into an absolute in-archive path, rejecting traversal.
pub fn archive_path_of(decoded: &str) -> (r: Option<String>)
    ensures
        match r {
            Some(p) => archive_path(decoded@) == Some(p@),
            None => archive_path(decoded@) is None,
        },
{
    let chars = chars_of(decoded);
    let segments = split_on(&chars, '/');
    let ghost all = views(segments@);
    let mut out: Vec<Vec<char>> = Vec::new();
    let mut i: usize = 0;
    proof {
        assert(all.skip(0) =~= all);
        assert(views(out@) =~= seq![]);
    }
    while i < segments.len()
        invariant
            i <= segments.len(),
            all == views(segments@),
            all == split(decoded@, '/'),
            walked(all, seq![]) == walked(all.skip(i as int), views(out@)),
        decreases segments.len() - i,
    {
        let ghost before = views(out@);
        proof {
            assert(all.skip(i as int)[0] == segments@[i as int]@);
            assert(all.skip(i as int).drop_first() =~= all.skip(i + 1));
        }
        let s = &segments[i];
        if s.len() == 0 || same(s, ".") {
        } else if same(s, "..") {
            // Refuse to climb above the root rather than silently clamping: a
            // reference that tries is malformed or hostile.
            if out.len() == 0 {
                return None;
            }
            let _ = out.pop();
            assert(views(out@) =~= before.drop_last());
        } else if find_char(s, '\\').is_some() || find_char(s, '\0').is_some() {
            return None;
        } else {
            let copy = vstd::slice::slice_to_vec(s.as_slice());
            let ghost c = copy@;
            out.push(copy);
            assert(views(out@) =~= before.push(c));
        }
        i = i + 1;
    }
    assert(views(out@).len() == out@.len());
    if out.len() == 0 {
        return None;
    }
    let tail = join(&out, "/");
    let mut path = String::new();
    path.push('/');
    path.append(tail.as_str());
    assert(path@ =~= seq!['/'] + joined(views(out@), "/"@));
    Some(path)
}

/// Normalise a URL path into an absolute in-archive path, rejecting traversal.
///
/// The result keeps its leading slash: a path without one is relative to the
/// package document's directory.
pub fn in_archive_path(path: &str) -> (r: Option<String>)
    ensures
        match r {
            Some(p) => archive_path(percent_decoded(path@)) == Some(p@),
            None => archive_path(percent_decoded(path@)) is None,
        },
        !encode_utf8(path@).contains(37) ==> match r {
            Some(p) => archive_path(path@) == Some(p@),
            None => archive_path(path@) is None,
        },
{
    let decoded = percent_decode(path);
    archive_path_of(decoded.as_str())
}

/// The archive path a resource request may read: only one on the book's own
/// origin, and only inside the archive. Anything else is off-book and dropped.
pub fn book_resource(scheme: &str, path: &str) -> (r: Option<String>)
    ensures
        match r {
            Some(p) => scheme@ == "omaread-book"@ && archive_path(percent_decoded(path@)) == Some(p@),
            None => scheme@ != "omaread-book"@ || archive_path(percent_decoded(path@)) is None,
        },
{
    if equal(scheme, "omaread-book") {
        in_archive_path(path)
    } else {
        None
    }
}

/// The book whose cover a request may read: only one on the covers' own origin.
pub fn cover_resource(scheme: &str, path: &str) -> (r: Option<String>)
    ensures
        match r {
            Some(h) => scheme@ == "omaread-cover"@ && h@ == without_lead(path@, '/'),
            None => scheme@ != "omaread-cover"@,
        },
{
    if equal(scheme, "omaread-cover") {
        let chars = chars_of(path);
        Some(string_of(skip_lead(&chars, '/')))
    } else {
        None
    }
}

/// A segment that goes down and nowhere else.
pub open spec fn plain_segment(s: Seq<char>) -> bool {
    &&& s.len() > 0
    &&& s != "."@
    &&& s != ".."@
    &&& forall|i: int| 0 <= i < s.len() ==> s[i] != '/' && s[i] != '\\' && #[trigger] s[i] != '\0'
}

proof fn lemma_split_free(s: Seq<char>, c: char)
    ensures
        forall|k: int, i: int|
            0 <= k < split(s, c).len() && 0 <= i < split(s, c)[k].len() ==> (#[trigger] split(s, c)[k][i]) != c,
    decreases s.len(),
{
    lemma_spot(s, c);
    if let Some(at) = spot(s, c) {
        lemma_split_free(s.skip(at + 1), c);
        let rest = split(s.skip(at + 1), c);
        assert forall|k: int, i: int| 0 <= k < split(s, c).len() && 0 <= i < split(s, c)[k].len() implies (
        #[trigger] split(s, c)[k][i]) != c by {
            if k > 0 {
                assert(split(s, c)[k] == rest[k - 1]);
                assert(rest[k - 1][i] != c);
            } else {
                assert(split(s, c)[0] == s.take(at));
            }
        }
    }
}

proof fn lemma_walked(segments: Seq<Seq<char>>, out: Seq<Seq<char>>)
    requires
        forall|k: int, i: int|
            0 <= k < segments.len() && 0 <= i < segments[k].len() ==> (#[trigger] segments[k][i]) != '/',
        forall|k: int| 0 <= k < out.len() ==> plain_segment(#[trigger] out[k]),
    ensures
        walked(segments, out) matches Some(r) ==> forall|k: int| 0 <= k < r.len() ==> plain_segment(#[trigger] r[k]),
    decreases segments.len(),
{
    if segments.len() > 0 {
        let s = segments[0];
        let rest = segments.drop_first();
        assert forall|k: int, i: int| 0 <= k < rest.len() && 0 <= i < rest[k].len() implies (#[trigger] rest[k][i]) != '/' by {
            assert(segments[k + 1][i] != '/');
        }
        if s.len() == 0 || s == "."@ {
            lemma_walked(rest, out);
        } else if s == ".."@ {
            if out.len() > 0 {
                lemma_walked(rest, out.drop_last());
            }
        } else if spot(s, '\\') is Some || spot(s, '\0') is Some {
        } else {
            lemma_spot(s, '\\');
            lemma_spot(s, '\0');
            assert forall|i: int| 0 <= i < s.len() implies s[i] != '/' && s[i] != '\\' && #[trigger] s[i] != '\0' by {
                assert(segments[0][i] != '/');
            }
            assert(plain_segment(s));
            lemma_walked(rest, out.push(s));
        }
    }
}

/// No path escapes the archive: one that is accepted goes down from the root,
/// segment by segment, with nothing in it that climbs or separates.
pub proof fn law_accepted_paths_stay_in_the_archive(decoded: Seq<char>)
    ensures
        archive_path(decoded) matches Some(p) ==> exists|segments: Seq<Seq<char>>|
            #![trigger joined(segments, "/"@)]
            segments.len() > 0 && p == seq!['/'] + joined(segments, "/"@) && (forall|k: int|
                0 <= k < segments.len() ==> plain_segment(#[trigger] segments[k])),
{
    lemma_split_free(decoded, '/');
    lemma_walked(split(decoded, '/'), seq![]);
    if archive_path(decoded) is Some {
        let segments = walked(split(decoded, '/'), seq![])->0;
        assert(archive_path(decoded)->0 == seq!['/'] + joined(segments, "/"@));
    }
}

/// Climbing above the root is refused whatever follows.
pub proof fn law_climbing_out_is_refused(below: Seq<char>)
    ensures
        archive_path("../"@ + below) is None,
        archive_path("/../"@ + below) is None,
{
    reveal_strlit("../");
    reveal_strlit("/../");
    reveal_strlit("..");
    reveal_strlit(".");
    let up = seq!['.', '.'];
    assert("../"@ + below =~= up.push('/') + below);
    crate::text::lemma_split_first(up, '/', below);
    assert(up =~= ".."@);
    let one = seq![up] + split(below, '/');
    assert(one[0] == ".."@);
    assert(walked(one, seq![]) is None);
    let none = Seq::<char>::empty();
    assert("/../"@ + below =~= none.push('/') + (up.push('/') + below));
    crate::text::lemma_split_first(none, '/', up.push('/') + below);
    let two = seq![none] + one;
    assert(two.drop_first() =~= one);
    assert(walked(two, seq![]) is None);
}

pub proof fn lemma_split_joined(segments: Seq<Seq<char>>)
    requires
        segments.len() > 0,
        forall|k: int| 0 <= k < segments.len() ==> plain_segment(#[trigger] segments[k]),
    ensures
        split(joined(segments, "/"@), '/') == segments,
    decreases segments.len(),
{
    reveal_strlit("/");
    let first = segments[0];
    assert(plain_segment(first));
    assert(!first.contains('/')) by {
        if first.contains('/') {
            let i = choose|i: int| 0 <= i < first.len() && first[i] == '/';
            assert(first[i] != '\0');
        }
    }
    if segments.len() == 1 {
        crate::text::lemma_split_none(first, '/');
        assert(segments =~= seq![first]);
    } else {
        let rest = segments.drop_first();
        assert forall|k: int| 0 <= k < rest.len() implies plain_segment(#[trigger] rest[k]) by {
            assert(plain_segment(segments[k + 1]));
        }
        lemma_split_joined(rest);
        lemma_joined_first(segments);
        assert(joined(segments, "/"@) =~= first.push('/') + joined(rest, "/"@));
        crate::text::lemma_split_first(first, '/', joined(rest, "/"@));
        assert(seq![first] + rest =~= segments);
    }
}

proof fn lemma_joined_first(segments: Seq<Seq<char>>)
    requires
        segments.len() > 1,
    ensures
        joined(segments, "/"@) == segments[0] + "/"@ + joined(segments.drop_first(), "/"@),
    decreases segments.len(),
{
    let rest = segments.drop_first();
    if segments.len() == 2 {
        assert(segments.drop_last() =~= seq![segments[0]]);
        assert(joined(segments.drop_last(), "/"@) == segments[0]);
        assert(rest =~= seq![segments[1]]);
        assert(joined(rest, "/"@) == segments[1]);
    } else {
        let front = segments.drop_last();
        lemma_joined_first(front);
        assert(front.drop_first() =~= rest.drop_last());
        assert(joined(segments, "/"@) =~= segments[0] + "/"@ + joined(rest, "/"@));
    }
}

pub proof fn lemma_plain_walk(segments: Seq<Seq<char>>, out: Seq<Seq<char>>)
    requires
        forall|k: int| 0 <= k < segments.len() ==> plain_segment(#[trigger] segments[k]),
    ensures
        walked(segments, out) == Some(out + segments),
    decreases segments.len(),
{
    if segments.len() == 0 {
        assert(out + segments =~= out);
    } else {
        let s = segments[0];
        let rest = segments.drop_first();
        assert(plain_segment(s));
        lemma_spot(s, '\\');
        lemma_spot(s, '\0');
        if let Some(i) = spot(s, '\\') {
            assert(s[i] != '\0');
        }
        assert forall|k: int| 0 <= k < rest.len() implies plain_segment(#[trigger] rest[k]) by {
            assert(plain_segment(segments[k + 1]));
        }
        lemma_plain_walk(rest, out.push(s));
        assert(out.push(s) + rest =~= out + segments);
    }
}

/// A normalised path is its own normal form.
pub proof fn law_normal_paths_are_kept(decoded: Seq<char>)
    ensures
        archive_path(decoded) matches Some(p) ==> archive_path(p) == Some(p),
{
    lemma_split_free(decoded, '/');
    lemma_walked(split(decoded, '/'), seq![]);
    if let Some(p) = archive_path(decoded) {
        let segments = walked(split(decoded, '/'), seq![])->0;
        let below = joined(segments, "/"@);
        let none = Seq::<char>::empty();
        lemma_split_joined(segments);
        crate::text::lemma_split_first(none, '/', below);
        assert(p =~= none.push('/') + below);
        let all = seq![none] + segments;
        assert(split(p, '/') == all);
        assert(all[0].len() == 0);
        assert(all.drop_first() =~= segments);
        lemma_plain_walk(segments, seq![]);
        assert(seq![] + segments =~= segments);
    }
}

} // verus!
