//! The tag metadata of one audio file, as read by a tag library, and what
//! the catalog derives from it.
use vstd::prelude::*;
use crate::text::{has_char, pieces, push_str, split_on, trim, trim_of};

verus! {

/// The role of an embedded picture.
#[derive(Clone, Copy, Debug, PartialEq, Eq, Structural)]
pub enum PictureKind {
    CoverFront,
    Media,
    Other,
    CoverBack,
    Else,
}

/// The MIME type of an embedded picture.
pub enum ImageMime {
    Png,
    Jpeg,
    Tiff,
    Bmp,
    Gif,
    Unknown(String),
    Else,
}

/// An embedded picture: its role and type (its bytes stay with the caller).
pub struct TagPicture {
    pub kind: PictureKind,
    pub mime: ImageMime,
}

/// What a tag block and the file's properties say of one audio file.
pub struct TrackTags {
    pub title: Option<String>,
    /// The track artists, separated by `;`.
    pub artists: Option<String>,
    pub album: Option<String>,
    pub album_artist: Option<String>,
    pub genre: Option<String>,
    pub year: Option<u32>,
    /// The original release date, as written in the tag.
    pub original_year: Option<String>,
    pub track: Option<u32>,
    pub track_total: Option<u32>,
    pub disc: Option<u32>,
    pub disc_total: Option<u32>,
    pub encoder: Option<String>,
    pub lyrics: Option<String>,
    pub pictures: Vec<TagPicture>,
    pub bitrate: u32,
    pub duration: u64,
    pub created_at: u64,
}

/// Each piece trimmed.
pub open spec fn trimmed(ps: Seq<Seq<char>>) -> Seq<Seq<char>> {
    Seq::new(ps.len(), |i: int| trim_of(ps[i]))
}

/// The genres of a genre tag: split on `;` when it holds one, else on
/// spaces, each piece trimmed.
pub open spec fn genres_of(g: Seq<char>) -> Seq<Seq<char>> {
    if g.contains(';') {
        trimmed(pieces(g, ';'))
    } else {
        trimmed(pieces(g, ' '))
    }
}

/// The artist names of an artist tag: its non-empty `;`-separated pieces, trimmed.
pub open spec fn artist_names_of(ps: Seq<Seq<char>>) -> Seq<Seq<char>>
    decreases ps.len(),
{
    if ps.len() == 0 {
        Seq::empty()
    } else if ps.last().len() == 0 {
        artist_names_of(ps.drop_last())
    } else {
        artist_names_of(ps.drop_last()).push(trim_of(ps.last()))
    }
}

fn trim_all(ps: &Vec<String>) -> (r: Vec<String>)
    ensures
        r.deep_view() == trimmed(ps.deep_view()),
        forall|i: int| 0 <= i < r@.len() ==> r@[i]@.len() <= ps@[i]@.len(),
{
    let mut out: Vec<String> = Vec::new();
    let mut i: usize = 0;
    while i < ps.len()
        invariant
            i <= ps@.len(),
            out.deep_view() == trimmed(ps.deep_view().take(i as int)),
            forall|j: int| 0 <= j < out@.len() ==> out@[j]@.len() <= ps@[j]@.len(),
        decreases ps@.len() - i,
    {
        let t = trim(ps[i].as_str());
        let ghost before = out.deep_view();
        out.push(t);
        assert(ps.deep_view()[i as int] == ps@[i as int]@);
        assert(out.deep_view() =~= before.push(trim_of(ps@[i as int]@)));
        assert(out.deep_view() =~= trimmed(ps.deep_view().take(i + 1)));
        i = i + 1;
    }
    assert(ps.deep_view().take(ps@.len() as int) =~= ps.deep_view());
    out
}

/// The genres that a genre tag lists.
pub fn genre_list(g: &str) -> (r: Vec<String>)
    ensures
        r.deep_view() == genres_of(g@),
{
    let sep = if has_char(g, ';') {
        ';'
    } else {
        ' '
    };
    let ps = split_on(g, sep);
    trim_all(&ps)
}

/// The artist names that an artist tag lists; none is longer than the tag.
pub fn artist_list(raw: &str) -> (r: Vec<String>)
    ensures
        r.deep_view() == artist_names_of(pieces(raw@, ';')),
        forall|i: int| 0 <= i < r@.len() ==> r@[i]@.len() <= raw@.len(),
{
    let ps = split_on(raw, ';');
    proof {
        crate::text::lemma_split_from_short(raw@, ';', Seq::empty());
        assert forall|j: int| 0 <= j < ps@.len() implies #[trigger] ps@[j]@.len() <= raw@.len() by {
            assert(ps.deep_view()[j] == ps@[j]@);
        }
    }
    let mut out: Vec<String> = Vec::new();
    let mut i: usize = 0;
    while i < ps.len()
        invariant
            i <= ps@.len(),
            ps.deep_view() == pieces(raw@, ';'),
            forall|j: int| 0 <= j < ps@.len() ==> #[trigger] ps@[j]@.len() <= raw@.len(),
            out.deep_view() == artist_names_of(ps.deep_view().take(i as int)),
            forall|j: int| 0 <= j < out@.len() ==> out@[j]@.len() <= raw@.len(),
        decreases ps@.len() - i,
    {
        let ghost pre = ps.deep_view().take(i as int);
        assert(ps.deep_view().take(i + 1).drop_last() =~= pre);
        assert(ps.deep_view()[i as int] == ps@[i as int]@);
        assert(ps@[i as int]@.len() <= raw@.len());
        if ps[i].unicode_len() > 0 {
            let t = trim(ps[i].as_str());
            let ghost before = out.deep_view();
            out.push(t);
            assert(out.deep_view() =~= before.push(t@));
        }
        i = i + 1;
    }
    assert(ps.deep_view().take(ps@.len() as int) =~= ps.deep_view());
    out
}

/// The index of the first picture of kind `k`.
pub open spec fn first_of_kind(ps: Seq<TagPicture>, k: PictureKind) -> Option<int> {
    if exists|i: int| 0 <= i < ps.len() && ps[i].kind == k {
        Some(choose|i: int| 0 <= i < ps.len() && ps[i].kind == k && forall|j: int| 0 <= j < i ==> ps[j].kind != k)
    } else {
        None
    }
}

/// The picture to take as the album cover: the first front cover, else the
/// first media picture, else the first other picture, else the first back cover.
pub open spec fn cover_choice(ps: Seq<TagPicture>) -> Option<int> {
    if first_of_kind(ps, PictureKind::CoverFront) is Some {
        first_of_kind(ps, PictureKind::CoverFront)
    } else if first_of_kind(ps, PictureKind::Media) is Some {
        first_of_kind(ps, PictureKind::Media)
    } else if first_of_kind(ps, PictureKind::Other) is Some {
        first_of_kind(ps, PictureKind::Other)
    } else {
        first_of_kind(ps, PictureKind::CoverBack)
    }
}

fn find_kind(ps: &Vec<TagPicture>, k: PictureKind) -> (r: Option<usize>)
    ensures
        match r {
            Some(i) => first_of_kind(ps@, k) == Some(i as int) && i < ps@.len(),
            None => first_of_kind(ps@, k) is None,
        },
{
    let mut i: usize = 0;
    while i < ps.len()
        invariant
            i <= ps@.len(),
            forall|j: int| 0 <= j < i ==> ps@[j].kind != k,
        decreases ps@.len() - i,
    {
        if ps[i].kind == k {
            proof {
                let c = choose|c: int| 0 <= c < ps@.len() && ps@[c].kind == k && forall|j: int| 0 <= j < c ==> ps@[j].kind != k;
                if c < i {
                } else if c > i {
                    assert(ps@[i as int].kind == k);
                }
                assert(c == i);
            }
            return Some(i);
        }
        i = i + 1;
    }
    None
}

/// The picture to take as the album cover (see `cover_choice`).
pub fn choose_cover(ps: &Vec<TagPicture>) -> (r: Option<usize>)
    ensures
        match r {
            Some(i) => cover_choice(ps@) == Some(i as int) && i < ps@.len(),
            None => cover_choice(ps@) is None,
        },
{
    if let Some(i) = find_kind(ps, PictureKind::CoverFront) {
        return Some(i);
    }
    if let Some(i) = find_kind(ps, PictureKind::Media) {
        return Some(i);
    }
    if let Some(i) = find_kind(ps, PictureKind::Other) {
        return Some(i);
    }
    find_kind(ps, PictureKind::CoverBack)
}

/// The file extension that a picture's MIME type gives its cover file.
pub open spec fn ext_of(m: ImageMime) -> Seq<char> {
    match m {
        ImageMime::Png => ".png"@,
        ImageMime::Jpeg => ".jpeg"@,
        ImageMime::Tiff => ".tiff"@,
        ImageMime::Bmp => ".bmp"@,
        ImageMime::Gif => ".gif"@,
        ImageMime::Unknown(o) => seq!['.'] + o@,
        ImageMime::Else => ".png"@,
    }
}

/// The file extension that a picture's MIME type gives its cover file.
pub fn cover_ext(m: &ImageMime) -> (r: String)
    ensures
        r@ == ext_of(*m),
{
    match m {
        ImageMime::Png => ".png".to_owned(),
        ImageMime::Jpeg => ".jpeg".to_owned(),
        ImageMime::Tiff => ".tiff".to_owned(),
        ImageMime::Bmp => ".bmp".to_owned(),
        ImageMime::Gif => ".gif".to_owned(),
        ImageMime::Unknown(o) => {
            let mut e = ".".to_owned();
            push_str(&mut e, o.as_str());
            proof {
                reveal_strlit(".");
            }
            assert(e@ =~= seq!['.'] + o@);
            e
        },
        ImageMime::Else => ".png".to_owned(),
    }
}

/// The value of a decimal numeral of ASCII digits.
pub open spec fn digits_value(ds: Seq<char>) -> int
    decreases ds.len(),
{
    if ds.len() == 0 {
        0
    } else {
        digits_value(ds.drop_last()) * 10 + (ds.last() as int - '0' as int)
    }
}

pub open spec fn all_digits(ds: Seq<char>) -> bool {
    forall|i: int| 0 <= i < ds.len() ==> '0' <= #[trigger] ds[i] <= '9'
}

/// What `str::parse::<u32>` gives: an optional `+` and one or more ASCII
/// digits whose value fits in 32 bits; nothing else parses.
pub open spec fn parsed_u32(s: Seq<char>) -> Option<u32> {
    let ds = if s.len() > 0 && s[0] == '+' {
        s.drop_first()
    } else {
        s
    };
    if ds.len() > 0 && all_digits(ds) && digits_value(ds) <= u32::MAX {
        Some(digits_value(ds) as u32)
    } else {
        None
    }
}

/// A decimal numeral of ASCII digits is worth at least any of its prefixes.
pub proof fn lemma_digits_prefix(ds: Seq<char>, k: int)
    requires
        0 <= k <= ds.len(),
        all_digits(ds),
    ensures
        digits_value(ds.take(k)) <= digits_value(ds),
        digits_value(ds) >= 0,
    decreases ds.len(),
{
    if ds.len() > 0 {
        assert(all_digits(ds.drop_last())) by {
            assert forall|i: int| 0 <= i < ds.drop_last().len() implies '0' <= #[trigger] ds.drop_last()[i] <= '9' by {
                assert(ds.drop_last()[i] == ds[i]);
            }
        }
        assert('0' <= ds[ds.len() - 1] <= '9');
        if k == ds.len() {
            assert(ds.take(k) =~= ds);
            lemma_digits_prefix(ds.drop_last(), 0);
        } else {
            lemma_digits_prefix(ds.drop_last(), k);
            assert(ds.drop_last().take(k) =~= ds.take(k));
            let v = digits_value(ds.drop_last());
            assert(v * 10 >= v) by (nonlinear_arith)
                requires
                    v >= 0,
            ;
        }
    } else {
        assert(ds.take(k) =~= ds);
    }
}

/// Reads a `u32` as `str::parse::<u32>` does: an optional `+` and one or
/// more ASCII digits whose value fits in 32 bits (see `parsed_u32`).
pub fn parse_u32(s: &str) -> (r: Option<u32>)
    ensures
        r == parsed_u32(s@),
{
    let n = s.unicode_len();
    let start: usize = if n > 0 && s.get_char(0) == '+' {
        1
    } else {
        0
    };
    let ghost ds = if s@.len() > 0 && s@[0] == '+' {
        s@.drop_first()
    } else {
        s@
    };
    assert(ds =~= s@.subrange(start as int, n as int));
    if start == n {
        return None;
    }
    let mut acc: u32 = 0;
    let mut i: usize = start;
    while i < n
        invariant
            start <= i <= n,
            n == s@.len(),
            ds == s@.subrange(start as int, n as int),
            ds == if s@.len() > 0 && s@[0] == '+' {
                s@.drop_first()
            } else {
                s@
            },
            start < n,
            all_digits(ds.take(i - start)),
            acc as int == digits_value(ds.take(i - start)),
        decreases n - i,
    {
        let c = s.get_char(i);
        let ghost pre = ds.take(i - start);
        let ghost post = ds.take(i - start + 1);
        assert(post.drop_last() =~= pre);
        assert(post.last() == c);
        if c < '0' || c > '9' {
            proof {
                assert(ds[i - start] == c);
                assert(!('0' <= ds[i - start] <= '9'));
                assert(!all_digits(ds));
                assert(parsed_u32(s@) is None);
            }
            return None;
        }
        let d = (c as u32) - ('0' as u32);
        assert(post.last() as int - '0' as int == d);
        assert(all_digits(post)) by {
            assert forall|j: int| 0 <= j < post.len() implies '0' <= #[trigger] post[j] <= '9' by {
                if j < pre.len() {
                    assert(post[j] == pre[j]);
                }
            }
        }
        if acc > (u32::MAX - d) / 10 {
            proof {
                assert(acc as int * 10 + d > u32::MAX) by (nonlinear_arith)
                    requires
                        acc > (u32::MAX - d) / 10,
                        d <= 9,
                ;
                assert(digits_value(post) == digits_value(pre) * 10 + (post.last() as int - '0' as int));
                if all_digits(ds) {
                    lemma_digits_prefix(ds, i - start + 1);
                    assert(digits_value(ds) > u32::MAX);
                }
                assert(parsed_u32(s@) is None);
            }
            return None;
        }
        assert(acc as int * 10 + d <= u32::MAX) by (nonlinear_arith)
            requires
                acc <= (u32::MAX - d) / 10,
                d <= 9,
        ;
        acc = acc * 10 + d;
        assert(digits_value(post) == digits_value(pre) * 10 + (post.last() as int - '0' as int));
        i = i + 1;
    }
    assert(ds.take(n - start) =~= ds);
    Some(acc)
}

/// The release year of an album: the year tag, else the original release
/// date read as a number (zero when it does not parse), else none.
pub open spec fn year_of(t: TrackTags) -> Option<u32> {
    match t.year {
        Some(y) => Some(y),
        None => match t.original_year {
            Some(s) => Some(
                match parsed_u32(s@) {
                    Some(v) => v,
                    None => 0,
                },
            ),
            None => None,
        },
    }
}

pub fn album_year(t: &TrackTags) -> (r: Option<u32>)
    ensures
        r == year_of(*t),
{
    match t.year {
        Some(y) => Some(y),
        None => match &t.original_year {
            Some(s) => Some(
                match parse_u32(s.as_str()) {
                    Some(v) => v,
                    None => 0,
                },
            ),
            None => None,
        },
    }
}

} // verus!
