//! Playlists: their metadata and tracks, and the edits made to them.
use vstd::prelude::*;
use vstd::utf8::encode_utf8;
use crate::cache::contains_path;
use crate::tags::{parse_u32, parsed_u32};
use crate::ids::bytes_of;
use crate::text::{pieces, split_on};
use base64::engine::general_purpose::URL_SAFE;
use base64::Engine;

verus! {

/// An edit of a playlist.
pub enum PlaylistAction {
    RemoveTracks(Vec<String>),
    AddTracks(Vec<String>),
    UpdateOrder(Vec<String>),
    RemoveMeta(String),
    AddMeta(String, String),
}

/// A playlist: metadata entries with distinct keys, and its tracks in order.
pub struct PlaylistData {
    pub metadata: Vec<(String, String)>,
    pub tracks: Vec<String>,
    pub path: String,
    pub path_base64: String,
}

/// `ts` without the entries equal to one of `gone`.
pub open spec fn without_all(ts: Seq<Seq<char>>, gone: Seq<Seq<char>>) -> Seq<Seq<char>>
    decreases ts.len(),
{
    if ts.len() == 0 {
        Seq::empty()
    } else if gone.contains(ts.last()) {
        without_all(ts.drop_last(), gone)
    } else {
        without_all(ts.drop_last(), gone).push(ts.last())
    }
}

/// The metadata entries as pairs of texts.
pub open spec fn meta_view(m: Seq<(String, String)>) -> Seq<(Seq<char>, Seq<char>)> {
    Seq::new(m.len(), |i: int| (m[i].0@, m[i].1@))
}

/// The keys of metadata entries.
pub open spec fn meta_keys(m: Seq<(Seq<char>, Seq<char>)>) -> Seq<Seq<char>> {
    Seq::new(m.len(), |i: int| m[i].0)
}

/// Metadata without the entry for `k`.
pub open spec fn meta_without(m: Seq<(Seq<char>, Seq<char>)>, k: Seq<char>) -> Seq<(Seq<char>, Seq<char>)>
    decreases m.len(),
{
    if m.len() == 0 {
        Seq::empty()
    } else if m.last().0 == k {
        meta_without(m.drop_last(), k)
    } else {
        meta_without(m.drop_last(), k).push(m.last())
    }
}

/// Metadata with `k` set to `v`: in place when the key is there, else appended.
pub open spec fn meta_with(m: Seq<(Seq<char>, Seq<char>)>, k: Seq<char>, v: Seq<char>) -> Seq<(Seq<char>, Seq<char>)> {
    if meta_keys(m).contains(k) {
        m.update(meta_keys(m).index_of(k), (k, v))
    } else {
        m.push((k, v))
    }
}

impl PlaylistData {
    pub open spec fn wf(&self) -> bool {
        meta_keys(meta_view(self.metadata@)).no_duplicates()
    }

    /// Applies `action`: tracks equal to a removed one go, added tracks are
    /// appended, a new order replaces the tracks, a metadata key is removed,
    /// or set (in place when present).
    pub fn update(&mut self, action: PlaylistAction)
        requires
            old(self).wf(),
        ensures
            final(self).wf(),
            final(self).path == old(self).path,
            final(self).path_base64 == old(self).path_base64,
            match action {
                PlaylistAction::RemoveTracks(ts) => final(self).tracks.deep_view() == without_all(
                    old(self).tracks.deep_view(),
                    ts.deep_view(),
                ) && final(self).metadata == old(self).metadata,
                PlaylistAction::AddTracks(ts) => final(self).tracks.deep_view() == old(
                    self,
                ).tracks.deep_view() + ts.deep_view() && final(self).metadata == old(self).metadata,
                PlaylistAction::UpdateOrder(ts) => final(self).tracks.deep_view() == ts.deep_view()
                    && final(self).metadata == old(self).metadata,
                PlaylistAction::RemoveMeta(k) => meta_view(final(self).metadata@) == meta_without(
                    meta_view(old(self).metadata@),
                    k@,
                ) && final(self).tracks == old(self).tracks,
                PlaylistAction::AddMeta(k, v) => meta_view(final(self).metadata@) == meta_with(
                    meta_view(old(self).metadata@),
                    k@,
                    v@,
                ) && final(self).tracks == old(self).tracks,
            },
    {
        match action {
            PlaylistAction::RemoveTracks(gone) => {
                let mut kept: Vec<String> = Vec::new();
                let mut i: usize = 0;
                while i < self.tracks.len()
                    invariant
                        i <= self.tracks@.len(),
                        self.tracks == old(self).tracks,
                        self.metadata == old(self).metadata,
                        self.path == old(self).path,
                        self.path_base64 == old(self).path_base64,
                        kept.deep_view() == without_all(self.tracks.deep_view().take(i as int), gone.deep_view()),
                    decreases self.tracks@.len() - i,
                {
                    assert(self.tracks.deep_view().take(i + 1).drop_last() =~= self.tracks.deep_view().take(i as int));
                    let ghost before = kept.deep_view();
                    if !contains_path(&gone, &self.tracks[i]) {
                        kept.push(self.tracks[i].clone());
                        assert(kept.deep_view() =~= before.push(self.tracks@[i as int]@));
                    }
                    i = i + 1;
                }
                assert(self.tracks.deep_view().take(self.tracks@.len() as int) =~= self.tracks.deep_view());
                self.tracks = kept;
            },
            PlaylistAction::AddTracks(more) => {
                let mut i: usize = 0;
                let ghost start = self.tracks.deep_view();
                while i < more.len()
                    invariant
                        i <= more@.len(),
                        self.tracks.deep_view() == start + more.deep_view().take(i as int),
                        self.metadata == old(self).metadata,
                        self.path == old(self).path,
                        self.path_base64 == old(self).path_base64,
                        start == old(self).tracks.deep_view(),
                    decreases more@.len() - i,
                {
                    let ghost before = self.tracks.deep_view();
                    self.tracks.push(more[i].clone());
                    assert(self.tracks.deep_view() =~= before.push(more@[i as int]@));
                    assert(more.deep_view().take(i + 1) =~= more.deep_view().take(i as int).push(more@[i as int]@));
                    assert(self.tracks.deep_view() =~= start + more.deep_view().take(i + 1));
                    i = i + 1;
                }
                assert(more.deep_view().take(more@.len() as int) =~= more.deep_view());
            },
            PlaylistAction::UpdateOrder(ts) => {
                self.tracks = ts;
            },
            PlaylistAction::RemoveMeta(k) => {
                let ghost m0 = meta_view(self.metadata@);
                let mut kept: Vec<(String, String)> = Vec::new();
                let mut i: usize = 0;
                while i < self.metadata.len()
                    invariant
                        i <= self.metadata@.len(),
                        m0 == meta_view(self.metadata@),
                        self.tracks == old(self).tracks,
                        self.path == old(self).path,
                        self.path_base64 == old(self).path_base64,
                        meta_view(kept@) == meta_without(m0.take(i as int), k@),
                        meta_keys(m0).no_duplicates(),
                        forall|x: Seq<char>| #[trigger] meta_keys(meta_view(kept@)).contains(x) ==> meta_keys(m0.take(i as int)).contains(x),
                        meta_keys(meta_view(kept@)).no_duplicates(),
                    decreases self.metadata@.len() - i,
                {
                    assert(m0.take(i + 1).drop_last() =~= m0.take(i as int));
                    let ghost before = kept@;
                    if self.metadata[i].0 != k {
                        let e = (self.metadata[i].0.clone(), self.metadata[i].1.clone());
                        kept.push(e);
                        proof {
                            assert(meta_view(kept@) =~= meta_view(before).push(m0[i as int]));
                            let kk = meta_keys(meta_view(kept@));
                            assert(kk =~= meta_keys(meta_view(before)).push(m0[i as int].0));
                            assert(!meta_keys(meta_view(before)).contains(m0[i as int].0)) by {
                                if meta_keys(meta_view(before)).contains(m0[i as int].0) {
                                    let j = choose|j: int| 0 <= j < i && m0.take(i as int)[j].0 == m0[i as int].0;
                                    assert(meta_keys(m0)[j] == meta_keys(m0)[i as int]);
                                }
                            }
                            assert forall|x: Seq<char>| #[trigger] meta_keys(meta_view(kept@)).contains(x) implies meta_keys(m0.take(i + 1)).contains(x) by {
                                let w = choose|w: int| 0 <= w < kk.len() && kk[w] == x;
                                if w < before.len() {
                                    assert(meta_keys(meta_view(before)).contains(x));
                                    let j = choose|j: int| 0 <= j < i && meta_keys(m0.take(i as int))[j] == x;
                                    assert(meta_keys(m0.take(i + 1))[j] == x);
                                } else {
                                    assert(meta_keys(m0.take(i + 1))[i as int] == x);
                                }
                            }
                        }
                    } else {
                        proof {
                            assert forall|x: Seq<char>| #[trigger] meta_keys(meta_view(kept@)).contains(x) implies meta_keys(m0.take(i + 1)).contains(x) by {
                                let j = choose|j: int| 0 <= j < i && meta_keys(m0.take(i as int))[j] == x;
                                assert(meta_keys(m0.take(i + 1))[j] == x);
                            }
                        }
                    }
                    i = i + 1;
                }
                assert(m0.take(self.metadata@.len() as int) =~= m0);
                self.metadata = kept;
            },
            PlaylistAction::AddMeta(k, v) => {
                let ghost m0 = meta_view(self.metadata@);
                let mut i: usize = 0;
                let mut found = false;
                while i < self.metadata.len() && !found
                    invariant
                        i <= self.metadata@.len(),
                        m0 == meta_view(self.metadata@),
                        found ==> i < self.metadata@.len() && self.metadata@[i as int].0@ == k@,
                        forall|j: int| 0 <= j < i ==> self.metadata@[j].0@ != k@,
                    decreases self.metadata@.len() - i + if found { 0int } else { 1int },
                {
                    if self.metadata[i].0 == k {
                        found = true;
                    } else {
                        i = i + 1;
                    }
                }
                if found {
                    proof {
                        let ks = meta_keys(m0);
                        assert(ks[i as int] == k@);
                        assert(ks.contains(k@));
                        let c = ks.index_of(k@);
                        assert(ks[c] == k@);
                        assert(c == i);
                    }
                    self.metadata.set(i, (k, v));
                    proof {
                        assert(meta_view(self.metadata@) =~= m0.update(i as int, (k@, v@)));
                        assert(meta_keys(meta_view(self.metadata@)) =~= meta_keys(m0));
                    }
                } else {
                    proof {
                        assert(!meta_keys(m0).contains(k@)) by {
                            if meta_keys(m0).contains(k@) {
                                let j = choose|j: int| 0 <= j < m0.len() && meta_keys(m0)[j] == k@;
                                assert(self.metadata@[j].0@ == k@);
                            }
                        }
                    }
                    self.metadata.push((k, v));
                    proof {
                        assert(meta_view(self.metadata@) =~= m0.push((k@, v@)));
                        assert(meta_keys(meta_view(self.metadata@)) =~= meta_keys(m0).push(k@));
                    }
                }
            },
        }
    }
}

/// The URL-safe base64 encoding (with padding) of some bytes.
pub uninterp spec fn url_safe_b64(bytes: Seq<u8>) -> Seq<char>;

/// Relies on base64's `URL_SAFE` engine `encode`: the text depends on the bytes alone.
#[verifier::external_body]
fn encode_url_safe(bytes: &[u8]) -> (r: String)
    ensures
        r@ == url_safe_b64(bytes@),
{
    URL_SAFE.encode(bytes)
}

/// A line without the carriage return that ends it, if any.
pub open spec fn without_cr(l: Seq<char>) -> Seq<char> {
    if l.len() > 0 && l.last() == '\r' {
        l.drop_last()
    } else {
        l
    }
}

/// The track lines of an M3U8 text: its lines (split at line feeds, without
/// a final carriage return) that are neither empty nor comments (`#`).
pub open spec fn m3u8_tracks(ls: Seq<Seq<char>>) -> Seq<Seq<char>>
    decreases ls.len(),
{
    if ls.len() == 0 {
        Seq::empty()
    } else {
        let l = without_cr(ls.last());
        if l.len() > 0 && l[0] != '#' {
            m3u8_tracks(ls.drop_last()).push(l)
        } else {
            m3u8_tracks(ls.drop_last())
        }
    }
}

/// A playlist read from an M3U8 file.
pub struct M3u8Playlist {
    pub name: String,
    pub tracks: Vec<String>,
    pub path: String,
}

/// The M3U8 playlist format.
pub struct M3U8;

impl M3U8 {
    /// The playlist that the M3U8 `text` of the file at `path`, named
    /// `name`, lists. Its tracks are the entries as written; which of them
    /// exist on disk is for the caller to tell.
    pub fn parse(name: &str, path: &str, text: &str) -> (r: M3u8Playlist)
        ensures
            r.name@ == name@,
            r.path@ == path@,
            r.tracks.deep_view() == m3u8_tracks(pieces(text@, '\n')),
    {
        let ls = split_on(text, '\n');
        let mut tracks: Vec<String> = Vec::new();
        let mut i: usize = 0;
        while i < ls.len()
            invariant
                i <= ls@.len(),
                tracks.deep_view() == m3u8_tracks(ls.deep_view().take(i as int)),
            decreases ls@.len() - i,
        {
            assert(ls.deep_view().take(i + 1).drop_last() =~= ls.deep_view().take(i as int));
            assert(ls.deep_view()[i as int] == ls@[i as int]@);
            let line = ls[i].as_str();
            let n = line.unicode_len();
            let end = if n > 0 && line.get_char(n - 1) == '\r' {
                n - 1
            } else {
                n
            };
            let l = line.substring_char(0, end);
            assert(l@ =~= without_cr(line@));
            let ghost before = tracks.deep_view();
            if end > 0 && l.get_char(0) != '#' {
                tracks.push(l.to_owned());
                assert(tracks.deep_view() =~= before.push(l@));
            }
            i = i + 1;
        }
        assert(ls.deep_view().take(ls@.len() as int) =~= ls.deep_view());
        M3u8Playlist { name: name.to_owned(), tracks, path: path.to_owned() }
    }
}

impl PlaylistData {
    /// The playlist data of an M3U8 playlist: its name as the `Name`
    /// metadata, its tracks, its path and the path's URL-safe base64 form.
    pub fn from_m3u8_playlist(p: M3u8Playlist) -> (r: PlaylistData)
        ensures
            r.wf(),
            meta_view(r.metadata@) == seq![("Name"@, p.name@)],
            r.tracks == p.tracks,
            r.path == p.path,
            r.path_base64@ == url_safe_b64(encode_utf8(p.path@)),
    {
        let b = bytes_of(p.path.as_str());
        let path_base64 = encode_url_safe(b.as_slice());
        let mut metadata: Vec<(String, String)> = Vec::new();
        metadata.push(("Name".to_owned(), p.name));
        let r = PlaylistData { metadata, tracks: p.tracks, path: p.path, path_base64 };
        assert(meta_view(r.metadata@) =~= seq![("Name"@, p.name@)]);
        assert(meta_keys(meta_view(r.metadata@)) =~= seq!["Name"@]);
        r
    }
}

/// A requested image size, written `<width>x<height>`.
pub struct ImageSize {
    pub size: String,
}

/// The position of the first `c` in `s`.
pub open spec fn first_index(s: Seq<char>, c: char) -> Option<int> {
    if s.contains(c) {
        Some(choose|i: int| 0 <= i < s.len() && s[i] == c && forall|j: int| 0 <= j < i ==> s[j] != c)
    } else {
        None
    }
}

impl ImageSize {
    /// The width and height, when the text is `<width>x<height>` (split at the
    /// first `x`) and both sides read as 32-bit numbers; `None` otherwise.
    pub fn parse(&self) -> (r: Option<(u32, u32)>)
        ensures
            match first_index(self.size@, 'x') {
                None => r is None,
                Some(i) => {
                    let w = parsed_u32(self.size@.take(i));
                    let h = parsed_u32(self.size@.skip(i + 1));
                    if w is Some && h is Some {
                        r == Some((w->0, h->0))
                    } else {
                        r is None
                    }
                },
            },
    {
        let n = self.size.as_str().unicode_len();
        let mut i: usize = 0;
        while i < n
            invariant
                n == self.size@.len(),
                i <= n,
                forall|j: int| 0 <= j < i ==> self.size@[j] != 'x',
            decreases n - i,
        {
            if self.size.as_str().get_char(i) == 'x' {
                proof {
                    let c = choose|c: int| 0 <= c < self.size@.len() && self.size@[c] == 'x' && forall|j: int| 0 <= j < c ==> self.size@[j] != 'x';
                    if c < i {
                    } else if c > i {
                        assert(self.size@[i as int] == 'x');
                    }
                    assert(c == i);
                }
                let left = self.size.as_str().substring_char(0, i);
                let right = self.size.as_str().substring_char(i + 1, n);
                assert(left@ =~= self.size@.take(i as int));
                assert(right@ =~= self.size@.skip(i + 1));
                let w = parse_u32(left);
                let h = parse_u32(right);
                return match (w, h) {
                    (Some(a), Some(b)) => Some((a, b)),
                    _ => None,
                };
            }
            i = i + 1;
        }
        None
    }
}

} // verus!
