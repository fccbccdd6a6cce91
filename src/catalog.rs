//! The music catalog: artists, albums, songs and covers, kept consistent
//! with one another and fed into a search index.
use vstd::prelude::*;
use vstd::utf8::encode_utf8;
use crate::grammar::MAX_TERMS;
use crate::ids::{bytes_of, hex_digits, hex_of, md5_of, song_id_of, Id, IdStore};
use crate::index::{absorb_all, lemma_search_determined, queued, searched, Di, Score};
use crate::grammar::add_tokens;
use crate::text::tokens_of;
use crate::tags::{
    album_year, artist_list, artist_names_of, choose_cover, cover_choice, cover_ext, ext_of,
    genre_list, genres_of, year_of, TrackTags,
};
use crate::text::{pieces, push_char, push_str};

verus! {

/// The name of the artist that stands in for an unknown one.
pub open spec fn unknown_artist() -> Seq<char> {
    "@UNKNOWN@"@
}

/// An artist; names are unique in a catalog.
pub struct Artist {
    pub id: Id,
    pub name: String,
}

/// An album: its songs in the order they were indexed, its genres as a set.
pub struct Album {
    pub id: Id,
    pub name: String,
    pub genres: Vec<String>,
    pub artist: Option<Id>,
    pub year: Option<u32>,
    pub songs: Vec<Id>,
    pub disc_total: u32,
    pub songs_count: u32,
    pub cover: Option<Id>,
}

/// A song, identified by the digest of its file path.
pub struct Song {
    pub id: Id,
    pub title: String,
    pub file_path: String,
    pub artists: Vec<Id>,
    pub track: u32,
    pub disc: u32,
    pub embedded_lyrics: Option<String>,
    pub album: Option<Id>,
    pub duration: u64,
    pub bitrate: u32,
    pub encoder: String,
    pub created_at: u64,
}

/// The cover of an album; it shares the album's identity.
pub struct Cover {
    pub id: Id,
    pub ext: String,
}

impl Cover {
    /// Where the cover's image is stored: `{covers_dir}/{digest in hex}{ext}`.
    /// Only a cover with a digest identity has a path.
    pub fn get_path(&self, covers_dir: &str) -> (r: Option<String>)
        ensures
            match self.id {
                Id::Digest(d) => r is Some && r->0@ == covers_dir@ + seq!['/'] + hex_of(d) + self.ext@,
                _ => r is None,
            },
    {
        match self.id {
            Id::Digest(d) => {
                let mut p = covers_dir.to_owned();
                push_char(&mut p, '/');
                let h = hex_digits(d);
                push_str(&mut p, h.as_str());
                push_str(&mut p, self.ext.as_str());
                Some(p)
            },
            _ => None,
        }
    }
}

/// What a search hit points at.
#[derive(Clone, Copy, Debug, PartialEq, Eq, Structural)]
pub enum IdKey {
    SongTitle(Id),
    ArtistName(Id),
    AlbumName(Id),
    Unknown,
}

/// The catalog of a music library.
pub struct MusicCollection {
    pub artists: Vec<Artist>,
    pub albums: Vec<Album>,
    pub songs: Vec<Song>,
    pub covers: Vec<Cover>,
    pub index: Di<IdKey>,
    pub artist_id_store: IdStore,
    pub album_id_store: IdStore,
    pub song_id_store: IdStore,
}

/// The identity of the album called `name` by the artist called `artist`.
pub open spec fn album_id_of(name: Seq<char>, artist: Seq<char>) -> Id {
    Id::Digest(md5_of(encode_utf8(name) + encode_utf8(artist)))
}

/// The artist names that the tags list.
pub open spec fn tag_artists(t: TrackTags) -> Seq<Seq<char>> {
    match t.artists {
        Some(a) => artist_names_of(pieces(a@, ';')),
        None => Seq::empty(),
    }
}

/// The genres that the tags list.
pub open spec fn tag_genres(t: TrackTags) -> Seq<Seq<char>> {
    match t.genre {
        Some(g) => genres_of(g@),
        None => Seq::empty(),
    }
}

/// The artist an album is filed under: the album-artist tag, else the
/// song's first artist, else the unknown artist.
pub open spec fn album_artist_of(t: TrackTags) -> Seq<char> {
    match t.album_artist {
        Some(a) => a@,
        None => if tag_artists(t).len() > 0 {
            tag_artists(t)[0]
        } else {
            unknown_artist()
        },
    }
}

/// The text of an optional tag, empty when it is absent.
pub open spec fn text_or_empty(s: Option<String>) -> Seq<char> {
    match s {
        Some(v) => v@,
        None => Seq::empty(),
    }
}

/// Whether every text of the tags fits in an index key.
pub open spec fn tags_fit(t: TrackTags) -> bool {
    &&& text_or_empty(t.title).len() <= MAX_TERMS
    &&& text_or_empty(t.artists).len() <= MAX_TERMS
    &&& text_or_empty(t.album).len() <= MAX_TERMS
    &&& text_or_empty(t.album_artist).len() <= MAX_TERMS
}

/// Whether `r` is what a lookup by name gives for `name` in `c`.
pub open spec fn looked_up(c: MusicCollection, name: Seq<char>, r: Option<Id>) -> bool {
    match r {
        Some(x) => c.names_artist(x, name),
        None => !c.artist_names().contains(name),
    }
}

/// Whether the song `s` is what the tags `t` of the file at `path` give in
/// the catalog `c`.
pub open spec fn song_matches(s: Song, path: Seq<char>, t: TrackTags, ids: Seq<Id>) -> bool {
    &&& s.id == song_id_of(path)
    &&& s.title@ == text_or_empty(t.title)
    &&& s.file_path@ == path
    &&& s.track == match t.track {
        Some(v) => v,
        None => 0,
    }
    &&& s.disc == match t.disc {
        Some(v) => v,
        None => 1,
    }
    &&& s.bitrate == t.bitrate
    &&& s.duration == t.duration
    &&& s.created_at == t.created_at
    &&& s.encoder@ == text_or_empty(t.encoder)
    &&& s.embedded_lyrics == t.lyrics
    &&& s.artists@ == ids
    &&& s.album == match t.album {
        Some(n) => Some(album_id_of(n@, album_artist_of(t))),
        None => None,
    }
}

/// Whether `a` is the album that the first song filed under it, `s`, with
/// tags `t`, creates in the catalog `c`.
pub open spec fn album_created(a: Album, sid: Id, artists: Seq<Id>, t: TrackTags, c: MusicCollection) -> bool {
    &&& a.name@ == text_or_empty(t.album)
    &&& a.year == year_of(t)
    &&& a.songs@ == seq![sid]
    &&& a.disc_total == match t.disc_total {
        Some(v) => v,
        None => 1,
    }
    &&& a.songs_count == match t.track_total {
        Some(v) => v,
        None => 0,
    }
    &&& a.cover == if cover_choice(t.pictures@) is Some {
        Some(a.id)
    } else {
        None
    }
    &&& forall|x: Seq<char>| #[trigger] a.genres.deep_view().contains(x) <==> tag_genres(t).contains(x)
    &&& a.genres.deep_view() == union_seq(Seq::empty(), tag_genres(t))
    &&& match t.album_artist {
        Some(n) => looked_up(c, n@, a.artist),
        None => if tag_artists(t).len() > 0 {
            a.artist == Some(artists[0])
        } else {
            looked_up(c, unknown_artist(), a.artist)
        },
    }
}

/// Whether `fa` is the album `prev` after the song `sid` with tags `t` is
/// filed under it: the song is appended and the genres are united.
pub open spec fn album_merged(prev: Album, fa: Album, sid: Id, t: TrackTags) -> bool {
    &&& fa.id == prev.id
    &&& fa.name == prev.name
    &&& fa.artist == prev.artist
    &&& fa.year == prev.year
    &&& fa.disc_total == match t.disc_total {
        Some(v) => v,
        None => prev.disc_total,
    }
    &&& fa.songs_count == match t.track_total {
        Some(v) => v,
        None => prev.songs_count,
    }
    &&& fa.cover == prev.cover
    &&& fa.songs@ == prev.songs@.push(sid)
    &&& fa.genres.deep_view() == union_seq(prev.genres.deep_view(), tag_genres(t))
}

/// Whether `new` is `old` after the song `sid`, whose artists are
/// `artists`, with tags `t`, is filed under the album `aid`, and `r` is the
/// picture chosen for a new cover: an existing album is updated in place,
/// else the album is appended, with its cover when a picture is chosen, and
/// its name is queued in the index. Songs and artists are not touched.
pub open spec fn album_filed(
    old: MusicCollection,
    new: MusicCollection,
    sid: Id,
    artists: Seq<Id>,
    t: TrackTags,
    aid: Id,
    r: Option<usize>,
) -> bool {
    if old.has_album(aid) {
        &&& exists|ai: int|
            0 <= ai < old.albums@.len() && old.albums@[ai].id == aid && album_merged(
                old.albums@[ai],
                new.albums@[ai],
                sid,
                t,
            ) && new.albums@ == old.albums@.update(ai, new.albums@[ai])
        &&& new.covers == old.covers
        &&& r is None
    } else {
        &&& new.albums@.len() == old.albums@.len() + 1
        &&& new.albums@.drop_last() == old.albums@
        &&& new.albums@.last().id == aid
        &&& album_created(new.albums@.last(), sid, artists, t, new)
        &&& match cover_choice(t.pictures@) {
            Some(p) => r == Some(p as usize) && new.covers@.len() == old.covers@.len() + 1
                && new.covers@.drop_last() == old.covers@ && new.covers@.last().id == aid
                && new.covers@.last().ext@ == ext_of(t.pictures@[p].mime),
            None => r is None && new.covers == old.covers,
        }
    }
}

/// The index keys that filing under the album `aid` queues: its name, when
/// the album is new.
pub open spec fn album_keys(old: MusicCollection, t: TrackTags, aid: Id) -> Seq<(Seq<char>, IdKey)> {
    if old.has_album(aid) {
        Seq::empty()
    } else {
        seq![(text_or_empty(t.album), IdKey::AlbumName(aid))]
    }
}

/// `news` is `olds` with `s` in place of the song with its identity, or
/// appended when there is none.
pub open spec fn song_put(olds: Seq<Song>, news: Seq<Song>, s: Song) -> bool {
    (exists|i: int| 0 <= i < olds.len() && olds[i].id == s.id && news == olds.update(i, s)) || ((
    forall|i: int| 0 <= i < olds.len() ==> olds[i].id != s.id) && news == olds.push(s))
}

pub proof fn lemma_union_contains(g: Seq<Seq<char>>, add: Seq<Seq<char>>, x: Seq<char>)
    ensures
        union_seq(g, add).contains(x) <==> (g.contains(x) || add.contains(x)),
    decreases add.len(),
{
    if add.len() > 0 {
        lemma_union_contains(g, add.drop_last(), x);
        let u = union_seq(g, add.drop_last());
        if add.drop_last().contains(x) {
            let w = choose|w: int| 0 <= w < add.drop_last().len() && add.drop_last()[w] == x;
            assert(add[w] == x);
        }
        if add.contains(x) && add.last() != x {
            let w = choose|w: int| 0 <= w < add.len() && add[w] == x;
            assert(add.drop_last()[w] == x);
        }
        if add.last() == x {
            assert(add[add.len() - 1] == x);
        }
        if !u.contains(add.last()) {
            assert(u.push(add.last())[u.len() as int] == add.last());
            if u.contains(x) {
                let w = choose|w: int| 0 <= w < u.len() && u[w] == x;
                assert(u.push(add.last())[w] == x);
            }
            if u.push(add.last()).contains(x) && x != add.last() {
                let w = choose|w: int| 0 <= w < u.len() + 1 && u.push(add.last())[w] == x;
                assert(u[w] == x);
            }
        }
    }
}

/// `ids` without `sid`.
pub open spec fn strip(ids: Seq<Id>, sid: Id) -> Seq<Id>
    decreases ids.len(),
{
    if ids.len() == 0 {
        Seq::empty()
    } else if ids.last() == sid {
        strip(ids.drop_last(), sid)
    } else {
        strip(ids.drop_last(), sid).push(ids.last())
    }
}

pub proof fn lemma_strip_contains(ids: Seq<Id>, sid: Id, x: Id)
    ensures
        strip(ids, sid).contains(x) <==> (ids.contains(x) && x != sid),
    decreases ids.len(),
{
    if ids.len() > 0 {
        lemma_strip_contains(ids.drop_last(), sid, x);
        let r = strip(ids.drop_last(), sid);
        if ids.drop_last().contains(x) {
            let w = choose|w: int| 0 <= w < ids.drop_last().len() && ids.drop_last()[w] == x;
            assert(ids[w] == x);
        }
        if ids.contains(x) && ids.last() != x {
            let w = choose|w: int| 0 <= w < ids.len() && ids[w] == x;
            assert(ids.drop_last()[w] == x);
        }
        if ids.last() != sid {
            if r.contains(x) {
                let w = choose|w: int| 0 <= w < r.len() && r[w] == x;
                assert(r.push(ids.last())[w] == x);
            }
            if r.push(ids.last()).contains(x) && x != ids.last() {
                let w = choose|w: int| 0 <= w < r.len() + 1 && r.push(ids.last())[w] == x;
                assert(r[w] == x);
            }
            assert(r.push(ids.last())[r.len() as int] == ids.last());
        }
    }
}

/// `a` is `o` with the song `sid` taken out of its list.
pub open spec fn album_without(a: Album, o: Album, sid: Id) -> bool {
    &&& a.id == o.id
    &&& a.name == o.name
    &&& a.genres == o.genres
    &&& a.artist == o.artist
    &&& a.year == o.year
    &&& a.disc_total == o.disc_total
    &&& a.songs_count == o.songs_count
    &&& a.cover == o.cover
    &&& a.songs@ == strip(o.songs@, sid)
}

/// Whether `new` and `r` are what filing the file at `path` with tags `t`
/// makes of `old`, a catalog that no longer holds the song. Every part of the
/// catalog is fixed: the artists gain the new names, in order; the song is
/// put in place of the one with its identity, or appended; the album is
/// updated in place or appended, with its cover; and the index has the new
/// artist names, the new album's name and the title queued, in that order.
pub open spec fn file_filed(
    old: MusicCollection,
    path: Seq<char>,
    t: TrackTags,
    new: MusicCollection,
    r: Option<usize>,
) -> bool {
    let st = add_names(artist_view(old), tag_artists(t));
    let sid = song_id_of(path);
    let title_key = seq![(text_or_empty(t.title), IdKey::SongTitle(sid))];
    &&& new.wf()
    &&& artist_view(new) == st.0
    &&& new.album_id_store == old.album_id_store
    &&& new.song_id_store == old.song_id_store
    &&& exists|s: Song| song_matches(s, path, t, st.2) && song_put(old.songs@, new.songs@, s)
    &&& match t.album {
        None => {
            &&& r is None
            &&& new.albums == old.albums
            &&& new.covers == old.covers
            &&& fed(old.index, new.index, st.1 + title_key)
        },
        Some(n) => {
            let aid = album_id_of(n@, album_artist_of(t));
            &&& album_filed(old, new, sid, st.2, t, aid, r)
            &&& fed(old.index, new.index, st.1 + album_keys(old, t, aid) + title_key)
        },
    }
}

/// Whether album `a` of `c` holds every genre in `gs`.
pub open spec fn album_has_genres(c: MusicCollection, aid: Id, gs: Seq<Seq<char>>) -> bool {
    exists|a: int|
        0 <= a < c.albums@.len() && c.albums@[a].id == aid && forall|g: Seq<char>|
            gs.contains(g) ==> #[trigger] c.albums@[a].genres.deep_view().contains(g)
}

/// Whether the album `aid` of `c` lists both `x` and `y`.
pub open spec fn album_lists_both(c: MusicCollection, aid: Id, x: Id, y: Id) -> bool {
    exists|a: int|
        0 <= a < c.albums@.len() && c.albums@[a].id == aid && c.albums@[a].songs@.contains(x)
            && c.albums@[a].songs@.contains(y)
}

/// Whether `c` files the song at `path` under the album `aid`.
pub open spec fn song_in_album(c: MusicCollection, path: Seq<char>, aid: Id) -> bool {
    exists|i: int|
        0 <= i < c.songs@.len() && c.songs@[i].id == song_id_of(path) && c.songs@[i].album == Some(aid)
}

/// After `album_filed`, the album `aid` lists `sid` last and holds every
/// genre of the tags, and, when it existed before, every genre it had.
pub proof fn lemma_album_filed_holds(
    old: MusicCollection,
    new: MusicCollection,
    sid: Id,
    artists: Seq<Id>,
    t: TrackTags,
    aid: Id,
    r: Option<usize>,
)
    requires
        old.wf(),
        album_filed(old, new, sid, artists, t, aid, r),
    ensures
        exists|a: int|
            0 <= a < new.albums@.len() && new.albums@[a].id == aid && new.albums@[a].songs@.contains(sid)
                && (forall|g: Seq<char>|
                tag_genres(t).contains(g) ==> #[trigger] new.albums@[a].genres.deep_view().contains(g))
                && (forall|o: int, g: Seq<char>|
                0 <= o < old.albums@.len() && old.albums@[o].id == aid
                    && #[trigger] old.albums@[o].genres.deep_view().contains(g)
                    ==> #[trigger] new.albums@[a].genres.deep_view().contains(g))
                && (forall|o: int, x: Id|
                0 <= o < old.albums@.len() && old.albums@[o].id == aid
                    && #[trigger] old.albums@[o].songs@.contains(x)
                    ==> #[trigger] new.albums@[a].songs@.contains(x)),
{
    if old.has_album(aid) {
        let ai = choose|ai: int|
            0 <= ai < old.albums@.len() && old.albums@[ai].id == aid && album_merged(
                old.albums@[ai],
                new.albums@[ai],
                sid,
                t,
            ) && new.albums@ == old.albums@.update(ai, new.albums@[ai]);
        let fa = new.albums@[ai];
        assert(fa.songs@[fa.songs@.len() - 1] == sid);
        assert forall|g: Seq<char>| tag_genres(t).contains(g) implies #[trigger] fa.genres.deep_view().contains(g) by {
            lemma_union_contains(old.albums@[ai].genres.deep_view(), tag_genres(t), g);
        }
        assert forall|o: int, g: Seq<char>|
            0 <= o < old.albums@.len() && old.albums@[o].id == aid
                && #[trigger] old.albums@[o].genres.deep_view().contains(g)
                implies #[trigger] fa.genres.deep_view().contains(g) by {
            if o != ai {
                assert(old.albums@[o].id != old.albums@[ai].id);
            }
            lemma_union_contains(old.albums@[ai].genres.deep_view(), tag_genres(t), g);
        }
        assert forall|o: int, x: Id|
            0 <= o < old.albums@.len() && old.albums@[o].id == aid
                && #[trigger] old.albums@[o].songs@.contains(x)
                implies #[trigger] fa.songs@.contains(x) by {
            if o != ai {
                assert(old.albums@[o].id != old.albums@[ai].id);
            }
            let w = choose|w: int| 0 <= w < old.albums@[ai].songs@.len() && old.albums@[ai].songs@[w] == x;
            assert(fa.songs@[w] == x);
        }
        assert(new.albums@[ai].songs@.contains(sid));
    } else {
        let a = new.albums@.len() - 1;
        assert(new.albums@[a] == new.albums@.last());
        assert(new.albums@[a].songs@ == seq![sid]);
        assert(new.albums@[a].songs@[0] == sid);
        assert(new.albums@[a].songs@.contains(sid));
    }
}

/// What `song_put` keeps and adds.
pub proof fn lemma_song_put(olds: Seq<Song>, news: Seq<Song>, s: Song)
    requires
        song_put(olds, news, s),
    ensures
        news.contains(s),
        news.len() >= olds.len(),
        forall|i: int| 0 <= i < olds.len() && olds[i].id != s.id ==> news[i] == olds[i],
{
    if exists|i: int| 0 <= i < olds.len() && olds[i].id == s.id && news == olds.update(i, s) {
        let i = choose|i: int| 0 <= i < olds.len() && olds[i].id == s.id && news == olds.update(i, s);
        assert(news[i] == s);
    } else {
        assert(news[olds.len() as int] == s);
    }
}

/// Album merge: two songs indexed one after the other whose tags give the
/// same album name and the same resolved album artist are filed under one
/// album, and that album holds the genres of both.
#[verifier::rlimit(80)]
pub proof fn lemma_album_merge(
    c0: MusicCollection,
    c1: MusicCollection,
    c2: MusicCollection,
    path1: Seq<char>,
    t1: TrackTags,
    r1: Option<usize>,
    path2: Seq<char>,
    t2: TrackTags,
    r2: Option<usize>,
)
    requires
        c0.wf(),
        file_indexed(c0, path1, t1, c1, r1),
        file_indexed(c1, path2, t2, c2, r2),
        t1.album is Some,
        t2.album is Some,
        text_or_empty(t1.album) == text_or_empty(t2.album),
        album_artist_of(t1) == album_artist_of(t2),
        song_id_of(path1) != song_id_of(path2),
    ensures
        ({
            let aid = album_id_of(text_or_empty(t1.album), album_artist_of(t1));
            &&& song_in_album(c2, path1, aid)
            &&& song_in_album(c2, path2, aid)
            &&& album_has_genres(c2, aid, tag_genres(t1) + tag_genres(t2))
            &&& album_lists_both(c2, aid, song_id_of(path1), song_id_of(path2))
        }),
{
    let aid = album_id_of(text_or_empty(t1.album), album_artist_of(t1));
    let id1 = song_id_of(path1);
    let id2 = song_id_of(path2);
    // the first file, c0 to c1
    let m1 = choose|m: MusicCollection| song_removed(c0, m, id1) && file_filed(m, path1, t1, c1, r1);
    let st1 = add_names(artist_view(m1), tag_artists(t1));
    let s1 = choose|s: Song| song_matches(s, path1, t1, st1.2) && song_put(m1.songs@, c1.songs@, s);
    lemma_song_put(m1.songs@, c1.songs@, s1);
    assert(album_filed(m1, c1, id1, st1.2, t1, aid, r1));
    lemma_album_filed_holds(m1, c1, id1, st1.2, t1, aid, r1);
    let a1 = choose|a: int|
        0 <= a < c1.albums@.len() && c1.albums@[a].id == aid && c1.albums@[a].songs@.contains(id1)
            && (forall|g: Seq<char>|
            tag_genres(t1).contains(g) ==> #[trigger] c1.albums@[a].genres.deep_view().contains(g))
            && (forall|o: int, g: Seq<char>|
            0 <= o < m1.albums@.len() && m1.albums@[o].id == aid
                && #[trigger] m1.albums@[o].genres.deep_view().contains(g)
                ==> #[trigger] c1.albums@[a].genres.deep_view().contains(g))
            && (forall|o: int, x: Id|
            0 <= o < m1.albums@.len() && m1.albums@[o].id == aid
                && #[trigger] m1.albums@[o].songs@.contains(x)
                ==> #[trigger] c1.albums@[a].songs@.contains(x));
    let k1 = choose|k: int| 0 <= k < c1.songs@.len() && c1.songs@[k] == s1;
    // removing the second song's earlier entry, c1 to m2
    let m2 = choose|m: MusicCollection| song_removed(c1, m, id2) && file_filed(m, path2, t2, c2, r2);
    let (b, k2) = if exists|i: int| 0 <= i < c1.songs@.len() && c1.songs@[i].id == id2 {
        let i = choose|i: int| 0 <= i < c1.songs@.len() && c1.songs@[i].id == id2;
        assert(m2.songs@ == c1.songs@.remove(i));
        assert(k1 != i);
        let k2 = if k1 < i { k1 } else { k1 - 1 };
        assert(m2.songs@[k2] == s1);
        lemma_strip_contains(c1.albums@[a1].songs@, id2, id1);
        assert(strip(c1.albums@[a1].songs@, id2).len() > 0);
        assert(m2.has_album(c1.albums@[a1].id));
        let b = choose|b: int| 0 <= b < m2.albums@.len() && m2.albums@[b].id == aid;
        assert(from_album(m2.albums@[b], c1.albums@, id2));
        let o = choose|o: int| 0 <= o < c1.albums@.len() && album_without(m2.albums@[b], c1.albums@[o], id2);
        if o != a1 {
            assert(c1.albums@[o].id != c1.albums@[a1].id);
        }
        assert(m2.albums@[b].genres == c1.albums@[a1].genres);
        assert(m2.albums@[b].songs@.contains(id1));
        (b, k2)
    } else {
        assert(m2 == c1);
        (a1, k1)
    };
    assert(m2.songs@[k2] == s1);
    assert(m2.albums@[b].id == aid);
    assert(m2.albums@[b].songs@.contains(id1));
    assert(forall|g: Seq<char>| tag_genres(t1).contains(g) ==> #[trigger] m2.albums@[b].genres.deep_view().contains(g));
    // the second file, m2 to c2
    let st2 = add_names(artist_view(m2), tag_artists(t2));
    let s2 = choose|s: Song| song_matches(s, path2, t2, st2.2) && song_put(m2.songs@, c2.songs@, s);
    lemma_song_put(m2.songs@, c2.songs@, s2);
    assert(c2.songs@[k2] == s1);
    assert(song_in_album(c2, path1, aid));
    assert(c2.songs@.contains(s2));
    let k3 = choose|k: int| 0 <= k < c2.songs@.len() && c2.songs@[k] == s2;
    assert(song_in_album(c2, path2, aid));
    assert(album_filed(m2, c2, id2, st2.2, t2, aid, r2));
    lemma_album_filed_holds(m2, c2, id2, st2.2, t2, aid, r2);
    let a2 = choose|a: int|
        0 <= a < c2.albums@.len() && c2.albums@[a].id == aid && c2.albums@[a].songs@.contains(id2)
            && (forall|g: Seq<char>|
            tag_genres(t2).contains(g) ==> #[trigger] c2.albums@[a].genres.deep_view().contains(g))
            && (forall|o: int, g: Seq<char>|
            0 <= o < m2.albums@.len() && m2.albums@[o].id == aid
                && #[trigger] m2.albums@[o].genres.deep_view().contains(g)
                ==> #[trigger] c2.albums@[a].genres.deep_view().contains(g))
            && (forall|o: int, x: Id|
            0 <= o < m2.albums@.len() && m2.albums@[o].id == aid
                && #[trigger] m2.albums@[o].songs@.contains(x)
                ==> #[trigger] c2.albums@[a].songs@.contains(x));
    assert(c2.albums@[a2].songs@.contains(id1));
    assert(album_lists_both(c2, aid, id1, id2));
    assert forall|g: Seq<char>| (tag_genres(t1) + tag_genres(t2)).contains(g) implies #[trigger] c2.albums@[a2].genres.deep_view().contains(g) by {
        let w = choose|w: int| 0 <= w < (tag_genres(t1) + tag_genres(t2)).len() && (tag_genres(t1) + tag_genres(t2))[w] == g;
        if w < tag_genres(t1).len() {
            assert(tag_genres(t1)[w] == g);
            assert(tag_genres(t1).contains(g));
            assert(m2.albums@[b].genres.deep_view().contains(g));
        } else {
            assert(tag_genres(t2)[w - tag_genres(t1).len()] == g);
            assert(tag_genres(t2).contains(g));
        }
    }
}



/// The artists of a catalog as identity and name.
pub open spec fn artist_view(c: MusicCollection) -> Seq<(Id, Seq<char>)> {
    Seq::new(c.artists@.len(), |i: int| (c.artists@[i].id, c.artists@[i].name@))
}

/// The names of artists given as identity and name.
pub open spec fn names_of(arts: Seq<(Id, Seq<char>)>) -> Seq<Seq<char>> {
    Seq::new(arts.len(), |i: int| arts[i].1)
}

/// What `add_artist` does with `name` on the artists `arts`: the artists
/// after, the index keys it queues, and the identity it returns.
pub open spec fn name_step(arts: Seq<(Id, Seq<char>)>, name: Seq<char>) -> (
    Seq<(Id, Seq<char>)>,
    Seq<(Seq<char>, IdKey)>,
    Id,
) {
    if names_of(arts).contains(name) {
        (arts, Seq::empty(), arts[names_of(arts).index_of(name)].0)
    } else if arts.len() < u64::MAX {
        let id = Id::Number((arts.len() + 1) as u64);
        (arts.push((id, name)), seq![(name, IdKey::ArtistName(id))], id)
    } else {
        (arts, Seq::empty(), Id::Unresolved)
    }
}

/// `name_step` for each of `names` in order: the artists after, every key
/// queued, and the identity of each name.
pub open spec fn add_names(arts: Seq<(Id, Seq<char>)>, names: Seq<Seq<char>>) -> (
    Seq<(Id, Seq<char>)>,
    Seq<(Seq<char>, IdKey)>,
    Seq<Id>,
)
    decreases names.len(),
{
    if names.len() == 0 {
        (arts, Seq::empty(), Seq::empty())
    } else {
        let p = add_names(arts, names.drop_last());
        let st = name_step(p.0, names.last());
        (st.0, p.1 + st.1, p.2.push(st.2))
    }
}

/// `new` is the index `old` with the keys `ks` queued by `insert`, in order.
pub open spec fn fed(old: Di<IdKey>, new: Di<IdKey>, ks: Seq<(Seq<char>, IdKey)>) -> bool {
    &&& new.wf()
    &&& new.grammar.entries() == feed_keys(old.grammar.entries(), ks)
    &&& new.pending_view() == old.pending_view() + ks
    &&& new.key_counts() == old.key_counts()
    &&& new.groups() == old.groups()
    &&& new.eps_num == old.eps_num
    &&& new.eps_den == old.eps_den
}

pub proof fn lemma_feed_keys_append(
    g: Seq<(Seq<char>, usize)>,
    a: Seq<(Seq<char>, IdKey)>,
    b: Seq<(Seq<char>, IdKey)>,
)
    ensures
        feed_keys(feed_keys(g, a), b) == feed_keys(g, a + b),
    decreases b.len(),
{
    if b.len() == 0 {
        assert(a + b =~= a);
    } else {
        lemma_feed_keys_append(g, a, b.drop_last());
        assert((a + b).drop_last() =~= a + b.drop_last());
        assert((a + b).last() == b.last());
    }
}

pub proof fn lemma_fed_trans(
    x: Di<IdKey>,
    y: Di<IdKey>,
    z: Di<IdKey>,
    a: Seq<(Seq<char>, IdKey)>,
    b: Seq<(Seq<char>, IdKey)>,
)
    requires
        fed(x, y, a),
        fed(y, z, b),
    ensures
        fed(x, z, a + b),
{
    lemma_feed_keys_append(x.grammar.entries(), a, b);
    assert(x.pending_view() + a + b =~= x.pending_view() + (a + b));
}

pub proof fn lemma_fed_none(x: Di<IdKey>)
    requires
        x.wf(),
    ensures
        fed(x, x, Seq::empty()),
{
    assert(x.pending_view() + Seq::<(Seq<char>, IdKey)>::empty() =~= x.pending_view());
}

pub proof fn lemma_queued_fed(x: Di<IdKey>, y: Di<IdKey>, k: Seq<char>, v: IdKey)
    requires
        queued(x, y, k, v),
    ensures
        fed(x, y, seq![(k, v)]),
{
    let ks = seq![(k, v)];
    assert(ks.drop_last() =~= Seq::<(Seq<char>, IdKey)>::empty());
    assert(feed_keys(x.grammar.entries(), ks.drop_last()) == x.grammar.entries());
    assert(x.pending_view().push((k, v)) =~= x.pending_view() + ks);
}

/// `g` with each of `add` that it does not hold yet appended, in order.
pub open spec fn union_seq(g: Seq<Seq<char>>, add: Seq<Seq<char>>) -> Seq<Seq<char>>
    decreases add.len(),
{
    if add.len() == 0 {
        g
    } else {
        let u = union_seq(g, add.drop_last());
        if u.contains(add.last()) {
            u
        } else {
            u.push(add.last())
        }
    }
}

/// Whether `ids` lists `sid` exactly once.
pub open spec fn listed_once(ids: Seq<Id>, sid: Id) -> bool {
    &&& ids.contains(sid)
    &&& forall|k1: int, k2: int|
        0 <= k1 < ids.len() && 0 <= k2 < ids.len() && ids[k1] == sid && ids[k2] == sid ==> k1 == k2
}

/// Whether `new` and `r` are what indexing the file at `path` with tags `t`
/// makes of `old` (see `MusicCollection::index_file`): any song held for the
/// path is first removed (see `song_removed`), then the file is filed anew
/// (see `file_filed`). Only the song's own album lists it, exactly once; a
/// song without an album tag is listed by no album.
pub open spec fn file_indexed(
    old: MusicCollection,
    path: Seq<char>,
    t: TrackTags,
    new: MusicCollection,
    r: Option<usize>,
) -> bool {
    let sid = song_id_of(path);
    &&& exists|mid: MusicCollection| song_removed(old, mid, sid) && file_filed(mid, path, t, new, r)
    &&& forall|a: int|
        0 <= a < new.albums@.len() && (#[trigger] new.albums@[a]).songs@.contains(sid) ==> match t.album {
            Some(n) => new.albums@[a].id == album_id_of(n@, album_artist_of(t)),
            None => false,
        }
    &&& match t.album {
        Some(n) => exists|a: int|
            0 <= a < new.albums@.len() && new.albums@[a].id == album_id_of(n@, album_artist_of(t))
                && listed_once(new.albums@[a].songs@, sid),
        None => true,
    }
}

/// After `song_removed`, no album lists the removed song.
pub proof fn lemma_detached(old: MusicCollection, mid: MusicCollection, sid: Id)
    requires
        old.wf(),
        song_removed(old, mid, sid),
    ensures
        forall|a: int| 0 <= a < mid.albums@.len() ==> !(#[trigger] mid.albums@[a]).songs@.contains(sid),
{
    if exists|i: int| 0 <= i < old.songs@.len() && old.songs@[i].id == sid {
        let ks = kept_upto(old.albums@, sid, old.albums@.len() as int);
        assert forall|a: int| 0 <= a < mid.albums@.len() implies !(#[trigger] mid.albums@[a]).songs@.contains(sid) by {
            assert(album_without(mid.albums@[a], old.albums@[ks[a]], sid));
            lemma_strip_contains(old.albums@[ks[a]].songs@, sid, sid);
        }
    } else {
        assert forall|a: int| 0 <= a < mid.albums@.len() implies !(#[trigger] mid.albums@[a]).songs@.contains(sid) by {
            if mid.albums@[a].songs@.contains(sid) {
                let k = choose|k: int| 0 <= k < mid.albums@[a].songs@.len() && mid.albums@[a].songs@[k] == sid;
                assert(old.albums@[a].songs@[k] == sid);
            }
        }
    }
}

/// Filing a song into a catalog whose albums do not list it leaves it
/// listed by its own album only, exactly once.
pub proof fn lemma_filing_links(mid: MusicCollection, path: Seq<char>, t: TrackTags, new: MusicCollection, r: Option<usize>)
    requires
        mid.wf(),
        forall|a: int| 0 <= a < mid.albums@.len() ==> !(#[trigger] mid.albums@[a]).songs@.contains(song_id_of(path)),
        file_filed(mid, path, t, new, r),
    ensures
        forall|a: int|
            0 <= a < new.albums@.len() && (#[trigger] new.albums@[a]).songs@.contains(song_id_of(path)) ==> match t.album {
                Some(n) => new.albums@[a].id == album_id_of(n@, album_artist_of(t)),
                None => false,
            },
        match t.album {
            Some(n) => exists|a: int|
                0 <= a < new.albums@.len() && new.albums@[a].id == album_id_of(n@, album_artist_of(t))
                    && listed_once(new.albums@[a].songs@, song_id_of(path)),
            None => true,
        },
{
    let sid = song_id_of(path);
    let st = add_names(artist_view(mid), tag_artists(t));
    match t.album {
        None => {},
        Some(n) => {
            let aid = album_id_of(n@, album_artist_of(t));
            assert(album_filed(mid, new, sid, st.2, t, aid, r));
            if mid.has_album(aid) {
                let ai = choose|ai: int|
                    0 <= ai < mid.albums@.len() && mid.albums@[ai].id == aid && album_merged(
                        mid.albums@[ai],
                        new.albums@[ai],
                        sid,
                        t,
                    ) && new.albums@ == mid.albums@.update(ai, new.albums@[ai]);
                let prev = mid.albums@[ai].songs@;
                let ids = new.albums@[ai].songs@;
                assert(!prev.contains(sid));
                assert(ids[prev.len() as int] == sid);
                assert forall|k1: int, k2: int|
                    0 <= k1 < ids.len() && 0 <= k2 < ids.len() && ids[k1] == sid && ids[k2] == sid implies k1 == k2 by {
                    if k1 < prev.len() {
                        assert(prev[k1] == sid);
                    }
                    if k2 < prev.len() {
                        assert(prev[k2] == sid);
                    }
                }
                assert(listed_once(ids, sid));
                assert forall|a: int|
                    0 <= a < new.albums@.len() && (#[trigger] new.albums@[a]).songs@.contains(sid)
                        implies new.albums@[a].id == aid by {
                    if a != ai {
                        assert(new.albums@[a] == mid.albums@[a]);
                    }
                }
            } else {
                let la = new.albums@.len() - 1;
                assert(new.albums@[la] == new.albums@.last());
                let ids = new.albums@[la].songs@;
                assert(ids == seq![sid]);
                assert(ids[0] == sid);
                assert(listed_once(ids, sid));
                assert forall|a: int|
                    0 <= a < new.albums@.len() && (#[trigger] new.albums@[a]).songs@.contains(sid)
                        implies new.albums@[a].id == aid by {
                    if a != la {
                        assert(new.albums@[a] == mid.albums@[a]);
                    }
                }
            }
        },
    }
}

/// The albums `news` are `olds`, in order, each with the song `sid` taken
/// out of its list, without those left with no song.
pub open spec fn albums_kept(olds: Seq<Album>, news: Seq<Album>, sid: Id) -> bool {
    let ks = kept_upto(olds, sid, olds.len() as int);
    &&& news.len() == ks.len()
    &&& forall|a: int| 0 <= a < news.len() ==> album_without(#[trigger] news[a], olds[ks[a]], sid)
}

/// The positions, among the first `n` of `olds`, of the albums that still
/// list a song once `sid` is taken out, in increasing order.
pub open spec fn kept_upto(olds: Seq<Album>, sid: Id, n: int) -> Seq<int>
    decreases n,
{
    if n <= 0 {
        Seq::empty()
    } else {
        let p = kept_upto(olds, sid, n - 1);
        if strip(olds[n - 1].songs@, sid).len() > 0 {
            p.push(n - 1)
        } else {
            p
        }
    }
}

/// The positions, among the first `n` of `olds`, of the covers whose album
/// is among `albums`, in increasing order.
pub open spec fn covers_upto(olds: Seq<Cover>, albums: Seq<Album>, n: int) -> Seq<int>
    decreases n,
{
    if n <= 0 {
        Seq::empty()
    } else {
        let p = covers_upto(olds, albums, n - 1);
        if before_has(albums, olds[n - 1].id) {
            p.push(n - 1)
        } else {
            p
        }
    }
}

/// The covers `news` are those of `olds` whose album is among `albums`, in order.
pub open spec fn covers_kept(olds: Seq<Cover>, news: Seq<Cover>, albums: Seq<Album>) -> bool {
    let ks = covers_upto(olds, albums, olds.len() as int);
    news == Seq::new(ks.len(), |c: int| olds[ks[c]])
}

/// Whether `new` is what removing the song `sid` makes of `old` (see
/// `MusicCollection::remove_song`).
pub open spec fn song_removed(old: MusicCollection, new: MusicCollection, sid: Id) -> bool {
    &&& new.wf()
    &&& new.artists == old.artists
    &&& new.index == old.index
    &&& new.artist_id_store == old.artist_id_store
    &&& new.album_id_store == old.album_id_store
    &&& new.song_id_store == old.song_id_store
    &&& (forall|i: int| 0 <= i < old.songs@.len() ==> old.songs@[i].id != sid) ==> new == old
    &&& forall|i: int|
        0 <= i < old.songs@.len() && old.songs@[i].id == sid ==> new.songs@ == old.songs@.remove(i)
    &&& (exists|i: int| 0 <= i < old.songs@.len() && old.songs@[i].id == sid) ==> {
        &&& albums_kept(old.albums@, new.albums@, sid)
        &&& covers_kept(old.covers@, new.covers@, new.albums@)
        &&& forall|a: int|
            0 <= a < new.albums@.len() ==> from_album(#[trigger] new.albums@[a], old.albums@, sid)
        &&& forall|o: int|
            0 <= o < old.albums@.len() ==> (new.has_album(#[trigger] old.albums@[o].id) <==> strip(
                old.albums@[o].songs@,
                sid,
            ).len() > 0)
        &&& forall|c: int|
            0 <= c < new.covers@.len() ==> old.covers@.contains(#[trigger] new.covers@[c])
        &&& forall|c: int|
            0 <= c < old.covers@.len() ==> (new.covers@.contains(#[trigger] old.covers@[c])
                <==> new.has_album(old.covers@[c].id))
    }
}

/// Removal correctness: removing the only song of an album removes the
/// album and its cover from the catalog.
pub proof fn lemma_last_song_removal(old: MusicCollection, new: MusicCollection, sid: Id, o: int)
    requires
        old.wf(),
        song_removed(old, new, sid),
        0 <= o < old.albums@.len(),
        old.albums@[o].songs@ == seq![sid],
    ensures
        !new.has_album(old.albums@[o].id),
        forall|c: int| 0 <= c < new.covers@.len() ==> new.covers@[c].id != old.albums@[o].id,
{
    assert(old.albums@[o].songs@[0] == sid);
    let x = choose|x: int| 0 <= x < old.songs@.len() && old.songs@[x].id == old.albums@[o].songs@[0];
    assert(old.songs@[x].id == sid);
    let one = seq![sid];
    assert(one.drop_last() =~= Seq::<Id>::empty());
    assert(strip(one, sid) == strip(one.drop_last(), sid));
    assert(strip(old.albums@[o].songs@, sid).len() == 0);
    assert(!new.has_album(old.albums@[o].id));
    assert forall|c: int| 0 <= c < new.covers@.len() implies new.covers@[c].id != old.albums@[o].id by {
        assert(old.covers@.contains(new.covers@[c]));
        assert(new.has_album(new.covers@[c].id));
    }
}

/// The text of an optional string.
pub open spec fn opt_text(o: Option<String>) -> Option<Seq<char>> {
    match o {
        Some(v) => Some(v@),
        None => None,
    }
}

/// Two songs hold the same values.
pub open spec fn same_song(a: Song, b: Song) -> bool {
    &&& a.id == b.id
    &&& a.title@ == b.title@
    &&& a.file_path@ == b.file_path@
    &&& a.artists@ == b.artists@
    &&& a.track == b.track
    &&& a.disc == b.disc
    &&& opt_text(a.embedded_lyrics) == opt_text(b.embedded_lyrics)
    &&& a.album == b.album
    &&& a.duration == b.duration
    &&& a.bitrate == b.bitrate
    &&& a.encoder@ == b.encoder@
    &&& a.created_at == b.created_at
}

/// Two albums hold the same values.
pub open spec fn same_album(a: Album, b: Album) -> bool {
    &&& a.id == b.id
    &&& a.name@ == b.name@
    &&& a.genres.deep_view() == b.genres.deep_view()
    &&& a.artist == b.artist
    &&& a.year == b.year
    &&& a.songs@ == b.songs@
    &&& a.disc_total == b.disc_total
    &&& a.songs_count == b.songs_count
    &&& a.cover == b.cover
}

/// Two catalogs hold the same entities, in the same order, and indexes
/// with the same vocabulary, queue, keys and groups.
pub open spec fn same_catalog(a: MusicCollection, b: MusicCollection) -> bool {
    &&& a.songs@.len() == b.songs@.len()
    &&& forall|i: int| 0 <= i < a.songs@.len() ==> same_song(#[trigger] a.songs@[i], b.songs@[i])
    &&& a.albums@.len() == b.albums@.len()
    &&& forall|i: int| 0 <= i < a.albums@.len() ==> same_album(#[trigger] a.albums@[i], b.albums@[i])
    &&& a.covers@.len() == b.covers@.len()
    &&& forall|i: int|
        0 <= i < a.covers@.len() ==> (#[trigger] a.covers@[i]).id == b.covers@[i].id && a.covers@[i].ext@
            == b.covers@[i].ext@
    &&& artist_view(a) == artist_view(b)
    &&& a.artist_id_store == b.artist_id_store
    &&& a.album_id_store == b.album_id_store
    &&& a.song_id_store == b.song_id_store
    &&& a.index.grammar.entries() == b.index.grammar.entries()
    &&& a.index.pending_view() == b.index.pending_view()
    &&& a.index.key_counts() == b.index.key_counts()
    &&& a.index.groups() == b.index.groups()
    &&& a.index.eps_num == b.index.eps_num
    &&& a.index.eps_den == b.index.eps_den
}

/// Filing one file with the same tags into two catalogs that hold the same
/// values gives catalogs that hold the same values, and the same answer.
pub proof fn lemma_file_filed_deterministic(
    c1: MusicCollection,
    c2: MusicCollection,
    path: Seq<char>,
    t: TrackTags,
    n1: MusicCollection,
    n2: MusicCollection,
    r1: Option<usize>,
    r2: Option<usize>,
)
    requires
        c1.wf(),
        c2.wf(),
        same_catalog(c1, c2),
        file_filed(c1, path, t, n1, r1),
        file_filed(c2, path, t, n2, r2),
    ensures
        same_catalog(n1, n2),
        r1 == r2,
{
    let st = add_names(artist_view(c1), tag_artists(t));
    let sid = song_id_of(path);
    // songs
    let s1 = choose|s: Song| song_matches(s, path, t, st.2) && song_put(c1.songs@, n1.songs@, s);
    let s2 = choose|s: Song| song_matches(s, path, t, st.2) && song_put(c2.songs@, n2.songs@, s);
    assert(same_song(s1, s2));
    if exists|i: int| 0 <= i < c1.songs@.len() && c1.songs@[i].id == sid && n1.songs@ == c1.songs@.update(i, s1) {
        let i = choose|i: int| 0 <= i < c1.songs@.len() && c1.songs@[i].id == sid && n1.songs@ == c1.songs@.update(i, s1);
        assert(same_song(c1.songs@[i], c2.songs@[i]));
        if !(exists|j: int| 0 <= j < c2.songs@.len() && c2.songs@[j].id == sid && n2.songs@ == c2.songs@.update(j, s2)) {
            assert(c2.songs@[i].id == sid);
        }
        let j = choose|j: int| 0 <= j < c2.songs@.len() && c2.songs@[j].id == sid && n2.songs@ == c2.songs@.update(j, s2);
        if i != j {
            assert(same_song(c1.songs@[j], c2.songs@[j]));
            assert(c1.songs@[i].id != c1.songs@[j].id);
        }
        assert forall|k: int| 0 <= k < n1.songs@.len() implies same_song(#[trigger] n1.songs@[k], n2.songs@[k]) by {
            if k != i {
                assert(same_song(c1.songs@[k], c2.songs@[k]));
            }
        }
    } else {
        if exists|j: int| 0 <= j < c2.songs@.len() && c2.songs@[j].id == sid && n2.songs@ == c2.songs@.update(j, s2) {
            let j = choose|j: int| 0 <= j < c2.songs@.len() && c2.songs@[j].id == sid && n2.songs@ == c2.songs@.update(j, s2);
            assert(same_song(c1.songs@[j], c2.songs@[j]));
            assert(c1.songs@[j].id == sid);
        }
        assert forall|k: int| 0 <= k < n1.songs@.len() implies same_song(#[trigger] n1.songs@[k], n2.songs@[k]) by {
            if k < c1.songs@.len() {
                assert(same_song(c1.songs@[k], c2.songs@[k]));
            }
        }
    }
    // artists and stores
    assert(artist_view(n1) == artist_view(n2));
    assert(n1.artists@.len() == n2.artists@.len()) by {
        assert(artist_view(n1).len() == n1.artists@.len());
        assert(artist_view(n2).len() == n2.artists@.len());
    }
    // index and albums
    match t.album {
        None => {},
        Some(n) => {
            let aid = album_id_of(n@, album_artist_of(t));
            assert(c1.has_album(aid) == c2.has_album(aid)) by {
                if c1.has_album(aid) {
                    let a = choose|a: int| 0 <= a < c1.albums@.len() && c1.albums@[a].id == aid;
                    assert(same_album(c1.albums@[a], c2.albums@[a]));
                }
                if c2.has_album(aid) {
                    let a = choose|a: int| 0 <= a < c2.albums@.len() && c2.albums@[a].id == aid;
                    assert(same_album(c1.albums@[a], c2.albums@[a]));
                }
            }
            assert(album_keys(c1, t, aid) == album_keys(c2, t, aid));
            if c1.has_album(aid) {
                let a1 = choose|ai: int|
                    0 <= ai < c1.albums@.len() && c1.albums@[ai].id == aid && album_merged(
                        c1.albums@[ai],
                        n1.albums@[ai],
                        sid,
                        t,
                    ) && n1.albums@ == c1.albums@.update(ai, n1.albums@[ai]);
                let a2 = choose|ai: int|
                    0 <= ai < c2.albums@.len() && c2.albums@[ai].id == aid && album_merged(
                        c2.albums@[ai],
                        n2.albums@[ai],
                        sid,
                        t,
                    ) && n2.albums@ == c2.albums@.update(ai, n2.albums@[ai]);
                assert(same_album(c1.albums@[a2], c2.albums@[a2]));
                if a1 != a2 {
                    assert(c1.albums@[a1].id != c1.albums@[a2].id);
                }
                assert(same_album(c1.albums@[a1], c2.albums@[a1]));
                assert forall|k: int| 0 <= k < n1.albums@.len() implies same_album(#[trigger] n1.albums@[k], n2.albums@[k]) by {
                    if k != a1 {
                        assert(same_album(c1.albums@[k], c2.albums@[k]));
                    }
                }
            } else {
                let f1 = n1.albums@.last();
                let f2 = n2.albums@.last();
                assert(f1.artist == f2.artist) by {
                    let nm = match t.album_artist {
                        Some(x) => x@,
                        None => unknown_artist(),
                    };
                    if t.album_artist is Some || tag_artists(t).len() == 0 {
                        assert(artist_view(n1) == artist_view(n2));
                        assert(n1.artist_names() =~= n2.artist_names()) by {
                            assert forall|i: int| 0 <= i < n1.artists@.len() implies n1.artist_names()[i] == n2.artist_names()[i] by {
                                assert(artist_view(n1)[i] == artist_view(n2)[i]);
                            }
                        }
                        match (f1.artist, f2.artist) {
                            (Some(x1), Some(x2)) => {
                                let i = choose|i: int| 0 <= i < n1.artists@.len() && n1.artists@[i].id == x1 && n1.artists@[i].name@ == nm;
                                let j = choose|j: int| 0 <= j < n2.artists@.len() && n2.artists@[j].id == x2 && n2.artists@[j].name@ == nm;
                                assert(artist_view(n1)[i] == artist_view(n2)[i]);
                                assert(artist_view(n1)[j] == artist_view(n2)[j]);
                                if i != j {
                                    assert(n2.artist_names()[i] == n2.artist_names()[j]);
                                }
                            },
                            (Some(x1), None) => {
                                let i = choose|i: int| 0 <= i < n1.artists@.len() && n1.artists@[i].id == x1 && n1.artists@[i].name@ == nm;
                                assert(n1.artist_names()[i] == nm);
                                assert(n2.artist_names()[i] == nm);
                            },
                            (None, Some(x2)) => {
                                let j = choose|j: int| 0 <= j < n2.artists@.len() && n2.artists@[j].id == x2 && n2.artists@[j].name@ == nm;
                                assert(n2.artist_names()[j] == nm);
                                assert(n1.artist_names()[j] == nm);
                            },
                            (None, None) => {},
                        }
                    }
                }
                assert(same_album(f1, f2));
                assert forall|k: int| 0 <= k < n1.albums@.len() implies same_album(#[trigger] n1.albums@[k], n2.albums@[k]) by {
                    if k < c1.albums@.len() {
                        assert(n1.albums@[k] == c1.albums@[k]);
                        assert(n2.albums@[k] == c2.albums@[k]);
                        assert(same_album(c1.albums@[k], c2.albums@[k]));
                    } else {
                        assert(n1.albums@[k] == f1);
                        assert(n2.albums@[k] == f2);
                    }
                }
                match cover_choice(t.pictures@) {
                    Some(p) => {
                        assert forall|k: int| 0 <= k < n1.covers@.len() implies (#[trigger] n1.covers@[k]).id
                            == n2.covers@[k].id && n1.covers@[k].ext@ == n2.covers@[k].ext@ by {
                            if k < c1.covers@.len() {
                                assert(n1.covers@[k] == c1.covers@[k]);
                                assert(n2.covers@[k] == c2.covers@[k]);
                            }
                        }
                    },
                    None => {},
                }
            }
        },
    }
}

pub proof fn lemma_kept_same(o1: Seq<Album>, o2: Seq<Album>, sid: Id, n: int)
    requires
        o1.len() == o2.len(),
        0 <= n <= o1.len(),
        forall|i: int| 0 <= i < o1.len() ==> same_album(#[trigger] o1[i], o2[i]),
    ensures
        kept_upto(o1, sid, n) == kept_upto(o2, sid, n),
    decreases n,
{
    if n > 0 {
        lemma_kept_same(o1, o2, sid, n - 1);
        assert(same_album(o1[n - 1], o2[n - 1]));
    }
}

pub proof fn lemma_kept_bounds(o: Seq<Album>, sid: Id, n: int)
    requires
        0 <= n <= o.len(),
    ensures
        forall|a: int| 0 <= a < kept_upto(o, sid, n).len() ==> 0 <= #[trigger] kept_upto(o, sid, n)[a] < n,
    decreases n,
{
    if n > 0 {
        lemma_kept_bounds(o, sid, n - 1);
        let p = kept_upto(o, sid, n - 1);
        let q = kept_upto(o, sid, n);
        assert forall|a: int| 0 <= a < q.len() implies 0 <= #[trigger] q[a] < n by {
            if a < p.len() {
                assert(q[a] == p[a]);
            }
        }
    }
}

pub proof fn lemma_covers_same(c1: Seq<Cover>, c2: Seq<Cover>, a1: Seq<Album>, a2: Seq<Album>, n: int)
    requires
        c1.len() == c2.len(),
        0 <= n <= c1.len(),
        forall|i: int| 0 <= i < c1.len() ==> (#[trigger] c1[i]).id == c2[i].id,
        a1.len() == a2.len(),
        forall|i: int| 0 <= i < a1.len() ==> (#[trigger] a1[i]).id == a2[i].id,
    ensures
        covers_upto(c1, a1, n) == covers_upto(c2, a2, n),
    decreases n,
{
    if n > 0 {
        lemma_covers_same(c1, c2, a1, a2, n - 1);
        let id = c1[n - 1].id;
        assert(c2[n - 1].id == id);
        if before_has(a1, id) {
            let x = choose|x: int| 0 <= x < a1.len() && a1[x].id == id;
            assert(a2[x].id == id);
        }
        if before_has(a2, id) {
            let x = choose|x: int| 0 <= x < a2.len() && a2[x].id == id;
            assert(a1[x].id == id);
        }
    }
}

pub proof fn lemma_covers_bounds(c: Seq<Cover>, a: Seq<Album>, n: int)
    requires
        0 <= n <= c.len(),
    ensures
        forall|k: int| 0 <= k < covers_upto(c, a, n).len() ==> 0 <= #[trigger] covers_upto(c, a, n)[k] < n,
    decreases n,
{
    if n > 0 {
        lemma_covers_bounds(c, a, n - 1);
        let p = covers_upto(c, a, n - 1);
        let q = covers_upto(c, a, n);
        assert forall|k: int| 0 <= k < q.len() implies 0 <= #[trigger] q[k] < n by {
            if k < p.len() {
                assert(q[k] == p[k]);
            }
        }
    }
}

/// Removing one song from two catalogs that hold the same values gives
/// catalogs that hold the same values.
pub proof fn lemma_remove_deterministic(
    c1: MusicCollection,
    c2: MusicCollection,
    sid: Id,
    m1: MusicCollection,
    m2: MusicCollection,
)
    requires
        c1.wf(),
        c2.wf(),
        same_catalog(c1, c2),
        song_removed(c1, m1, sid),
        song_removed(c2, m2, sid),
    ensures
        same_catalog(m1, m2),
{
    if exists|i: int| 0 <= i < c1.songs@.len() && c1.songs@[i].id == sid {
        let i = choose|i: int| 0 <= i < c1.songs@.len() && c1.songs@[i].id == sid;
        assert(same_song(c1.songs@[i], c2.songs@[i]));
        assert(m1.songs@ == c1.songs@.remove(i));
        assert(c2.songs@[i].id == sid);
        assert(m2.songs@ == c2.songs@.remove(i));
        assert forall|k: int| 0 <= k < m1.songs@.len() implies same_song(#[trigger] m1.songs@[k], m2.songs@[k]) by {
            if k < i {
                assert(same_song(c1.songs@[k], c2.songs@[k]));
            } else {
                assert(k + 1 < c1.songs@.len());
                assert(same_song(c1.songs@[k + 1], c2.songs@[k + 1]));
                assert(m1.songs@[k] == c1.songs@[k + 1]);
                assert(m2.songs@[k] == c2.songs@[k + 1]);
            }
        }
        let n = c1.albums@.len() as int;
        lemma_kept_same(c1.albums@, c2.albums@, sid, n);
        lemma_kept_bounds(c1.albums@, sid, n);
        let ks = kept_upto(c1.albums@, sid, n);
        assert forall|a: int| 0 <= a < m1.albums@.len() implies same_album(#[trigger] m1.albums@[a], m2.albums@[a]) by {
            assert(album_without(m1.albums@[a], c1.albums@[ks[a]], sid));
            assert(album_without(m2.albums@[a], c2.albums@[ks[a]], sid));
            assert(same_album(c1.albums@[ks[a]], c2.albums@[ks[a]]));
        }
        assert forall|a: int| 0 <= a < m1.albums@.len() implies (#[trigger] m1.albums@[a]).id == m2.albums@[a].id by {
            assert(same_album(m1.albums@[a], m2.albums@[a]));
        }
        let nc = c1.covers@.len() as int;
        lemma_covers_same(c1.covers@, c2.covers@, m1.albums@, m2.albums@, nc);
        lemma_covers_bounds(c1.covers@, m1.albums@, nc);
        let kc = covers_upto(c1.covers@, m1.albums@, nc);
        assert forall|k: int| 0 <= k < m1.covers@.len() implies (#[trigger] m1.covers@[k]).id == m2.covers@[k].id
            && m1.covers@[k].ext@ == m2.covers@[k].ext@ by {
            assert(m1.covers@[k] == c1.covers@[kc[k]]);
            assert(m2.covers@[k] == c2.covers@[kc[k]]);
        }
    } else {
        assert forall|i: int| 0 <= i < c2.songs@.len() implies c2.songs@[i].id != sid by {
            assert(same_song(c1.songs@[i], c2.songs@[i]));
        }
    }
}

/// Indexing is deterministic: indexing one file with the same tags into two
/// catalogs that hold the same values gives catalogs that hold the same
/// values, and the same answer. Indexing a directory tree twice, file by
/// file from an empty catalog, thus gives the same catalog both times.
pub proof fn lemma_index_file_deterministic(
    c1: MusicCollection,
    c2: MusicCollection,
    path: Seq<char>,
    t: TrackTags,
    n1: MusicCollection,
    n2: MusicCollection,
    r1: Option<usize>,
    r2: Option<usize>,
)
    requires
        c1.wf(),
        c2.wf(),
        same_catalog(c1, c2),
        file_indexed(c1, path, t, n1, r1),
        file_indexed(c2, path, t, n2, r2),
    ensures
        same_catalog(n1, n2),
        r1 == r2,
{
    let sid = song_id_of(path);
    let m1 = choose|m: MusicCollection| song_removed(c1, m, sid) && file_filed(m, path, t, n1, r1);
    let m2 = choose|m: MusicCollection| song_removed(c2, m, sid) && file_filed(m, path, t, n2, r2);
    lemma_remove_deterministic(c1, c2, sid, m1, m2);
    lemma_file_filed_deterministic(m1, m2, path, t, n1, n2, r1, r2);
}

/// Whether `cs` are the catalogs met while the files `files` (each a path
/// with its tags) are indexed in turn, starting from `cs[0]`, and `rs` the
/// answers of `index_file`.
pub open spec fn walked(
    files: Seq<(Seq<char>, TrackTags)>,
    cs: Seq<MusicCollection>,
    rs: Seq<Option<usize>>,
) -> bool {
    &&& cs.len() == files.len() + 1
    &&& rs.len() == files.len()
    &&& cs[0].wf()
    &&& forall|i: int|
        0 <= i < files.len() ==> file_indexed(#[trigger] cs[i], files[i].0, files[i].1, cs[i + 1], rs[i])
}

proof fn lemma_walk_prefix(
    files: Seq<(Seq<char>, TrackTags)>,
    cs1: Seq<MusicCollection>,
    rs1: Seq<Option<usize>>,
    cs2: Seq<MusicCollection>,
    rs2: Seq<Option<usize>>,
    k: int,
)
    requires
        walked(files, cs1, rs1),
        walked(files, cs2, rs2),
        same_catalog(cs1[0], cs2[0]),
        0 <= k <= files.len(),
    ensures
        same_catalog(cs1[k], cs2[k]),
        cs1[k].wf(),
        cs2[k].wf(),
        forall|i: int| 0 <= i < k ==> rs1[i] == rs2[i],
    decreases k,
{
    if k > 0 {
        lemma_walk_prefix(files, cs1, rs1, cs2, rs2, k - 1);
        let j = k - 1;
        assert(file_indexed(cs1[j], files[j].0, files[j].1, cs1[j + 1], rs1[j]));
        assert(file_indexed(cs2[j], files[j].0, files[j].1, cs2[j + 1], rs2[j]));
        lemma_index_file_deterministic(cs1[j], cs2[j], files[j].0, files[j].1, cs1[k], cs2[k], rs1[j], rs2[j]);
        let m = choose|m: MusicCollection| song_removed(cs1[j], m, song_id_of(files[j].0)) && file_filed(m, files[j].0, files[j].1, cs1[k], rs1[j]);
        let m2 = choose|m: MusicCollection| song_removed(cs2[j], m, song_id_of(files[j].0)) && file_filed(m, files[j].0, files[j].1, cs2[k], rs2[j]);
    }
}

/// Indexing is reproducible over a directory walk: indexing the same files,
/// with the same tags, in the same order, into two catalogs that hold the
/// same values (two empty ones, say) ends in catalogs that hold the same
/// values, with the same answers on the way, and whose indexes are built
/// from the same entries (so every search agrees, see
/// `lemma_same_catalog_same_search`).
pub proof fn lemma_walk_deterministic(
    files: Seq<(Seq<char>, TrackTags)>,
    cs1: Seq<MusicCollection>,
    rs1: Seq<Option<usize>>,
    cs2: Seq<MusicCollection>,
    rs2: Seq<Option<usize>>,
)
    requires
        walked(files, cs1, rs1),
        walked(files, cs2, rs2),
        same_catalog(cs1[0], cs2[0]),
    ensures
        same_catalog(cs1.last(), cs2.last()),
        rs1 == rs2,
        index_entries(cs1.last()) == index_entries(cs2.last()),
{
    let n = files.len() as int;
    lemma_walk_prefix(files, cs1, rs1, cs2, rs2, n);
    assert(rs1 =~= rs2);
    let a = cs1.last();
    let b = cs2.last();
    assert(a == cs1[n] && b == cs2[n]);
    let ea = Seq::new(a.songs@.len(), |i: int| (a.songs@[i].title@, IdKey::SongTitle(a.songs@[i].id)));
    let eb = Seq::new(b.songs@.len(), |i: int| (b.songs@[i].title@, IdKey::SongTitle(b.songs@[i].id)));
    assert forall|i: int| 0 <= i < a.songs@.len() implies ea[i] == eb[i] by {
        assert(same_song(a.songs@[i], b.songs@[i]));
    }
    assert(ea =~= eb);
    let fa = Seq::new(a.artists@.len(), |i: int| (a.artists@[i].name@, IdKey::ArtistName(a.artists@[i].id)));
    let fb = Seq::new(b.artists@.len(), |i: int| (b.artists@[i].name@, IdKey::ArtistName(b.artists@[i].id)));
    assert(artist_view(a).len() == a.artists@.len() && artist_view(b).len() == b.artists@.len());
    assert forall|i: int| 0 <= i < a.artists@.len() implies fa[i] == fb[i] by {
        assert(artist_view(a)[i] == artist_view(b)[i]);
    }
    assert(fa =~= fb);
    let ga = Seq::new(a.albums@.len(), |i: int| (a.albums@[i].name@, IdKey::AlbumName(a.albums@[i].id)));
    let gb = Seq::new(b.albums@.len(), |i: int| (b.albums@[i].name@, IdKey::AlbumName(b.albums@[i].id)));
    assert forall|i: int| 0 <= i < a.albums@.len() implies ga[i] == gb[i] by {
        assert(same_album(a.albums@[i], b.albums@[i]));
    }
    assert(ga =~= gb);
}

/// The threshold of the catalog's index, as a fraction: nine tenths.
pub const EPSILON_NUM: u16 = 9;

pub const EPSILON_DEN: u16 = 10;

impl MusicCollection {
    pub open spec fn artist_names(&self) -> Seq<Seq<char>> {
        Seq::new(self.artists@.len(), |i: int| self.artists@[i].name@)
    }

    pub open spec fn has_album(&self, id: Id) -> bool {
        exists|a: int| 0 <= a < self.albums@.len() && self.albums@[a].id == id
    }

    pub open spec fn has_artist(&self, id: Id) -> bool {
        exists|a: int| 0 <= a < self.artists@.len() && self.artists@[a].id == id
    }

    /// Every id in an album's song list is the identity of a song of the
    /// catalog, or is `extra`.
    pub open spec fn songs_listed(&self, extra: Option<Id>) -> bool {
        forall|a: int, k: int|
            0 <= a < self.albums@.len() && 0 <= k < self.albums@[a].songs@.len() ==> (extra == Some(
                #[trigger] self.albums@[a].songs@[k],
            ) || exists|s: int| 0 <= s < self.songs@.len() && self.songs@[s].id == self.albums@[a].songs@[k])
    }

    /// The catalog's invariant.
    pub open spec fn wf(&self) -> bool {
        self.core_wf() && self.songs_listed(None)
    }

    /// The invariant but for the link from album song lists to songs.
    pub open spec fn core_wf(&self) -> bool {
        &&& self.index.wf()
        &&& self.artist_id_store.current == self.artists@.len()
        &&& forall|i: int|
            0 <= i < self.artists@.len() ==> #[trigger] self.artists@[i].id == Id::Number(
                (i + 1) as u64,
            )
        &&& self.artist_names().no_duplicates()
        &&& forall|a: int, b: int|
            0 <= a < self.albums@.len() && 0 <= b < self.albums@.len() && a != b
                ==> #[trigger] self.albums@[a].id != #[trigger] self.albums@[b].id
        &&& forall|a: int| 0 <= a < self.albums@.len() ==> #[trigger] self.albums@[a].songs@.len() > 0
        &&& forall|a: int|
            0 <= a < self.albums@.len() ==> match #[trigger] self.albums@[a].artist {
                Some(x) => x == Id::Unresolved || self.has_artist(x),
                None => true,
            }
        &&& forall|a: int, b: int|
            0 <= a < self.songs@.len() && 0 <= b < self.songs@.len() && a != b
                ==> #[trigger] self.songs@[a].id != #[trigger] self.songs@[b].id
        &&& forall|s: int|
            0 <= s < self.songs@.len() ==> match #[trigger] self.songs@[s].album {
                Some(x) => exists|a: int|
                    0 <= a < self.albums@.len() && self.albums@[a].id == x
                        && #[trigger] self.albums@[a].songs@.contains(self.songs@[s].id),
                None => true,
            }
        &&& forall|a: int, b: int|
            0 <= a < self.covers@.len() && 0 <= b < self.covers@.len() && a != b
                ==> #[trigger] self.covers@[a].id != #[trigger] self.covers@[b].id
        &&& forall|c: int| 0 <= c < self.covers@.len() ==> self.has_album(#[trigger] self.covers@[c].id)
        &&& forall|i: int| 0 <= i < self.artists@.len() ==> (#[trigger] self.artists@[i]).name@.len() <= MAX_TERMS
        &&& forall|i: int| 0 <= i < self.albums@.len() ==> (#[trigger] self.albums@[i]).name@.len() <= MAX_TERMS
        &&& forall|i: int| 0 <= i < self.songs@.len() ==> (#[trigger] self.songs@[i]).title@.len() <= MAX_TERMS
    }

    /// An empty catalog.
    pub fn new() -> (r: MusicCollection)
        ensures
            r.wf(),
            r.artists@.len() == 0,
            r.albums@.len() == 0,
            r.songs@.len() == 0,
            r.covers@.len() == 0,
    {
        let r = MusicCollection {
            artists: Vec::new(),
            albums: Vec::new(),
            songs: Vec::new(),
            covers: Vec::new(),
            index: Di::new(EPSILON_NUM, EPSILON_DEN),
            artist_id_store: IdStore::new(),
            album_id_store: IdStore::new(),
            song_id_store: IdStore::new(),
        };
        assert(r.artist_names() =~= Seq::<Seq<char>>::empty());
        r
    }

    /// The identity of the artist called exactly `name`, if there is one.
    pub fn get_artist_id_by_name(&self, name: &str) -> (r: Option<Id>)
        ensures
            match r {
                Some(id) => exists|i: int|
                    0 <= i < self.artists@.len() && self.artists@[i].name@ == name@
                        && self.artists@[i].id == id,
                None => !self.artist_names().contains(name@),
            },
    {
        let key: String = name.to_owned();
        let mut i: usize = 0;
        while i < self.artists.len()
            invariant
                i <= self.artists@.len(),
                key@ == name@,
                forall|j: int| 0 <= j < i ==> self.artists@[j].name@ != name@,
            decreases self.artists@.len() - i,
        {
            if self.artists[i].name == key {
                return Some(self.artists[i].id);
            }
            i = i + 1;
        }
        None
    }

    /// The identity of the artist called exactly `name`; a new artist, with
    /// the next number and its name queued in the index, when there is none.
    /// Once every number is taken, `Unresolved` comes back and nothing changes.
    pub fn add_artist(&mut self, name: String) -> (r: Id)
        requires
            old(self).wf(),
            name@.len() <= MAX_TERMS,
        ensures
            final(self).wf(),
            final(self).albums == old(self).albums,
            final(self).songs == old(self).songs,
            final(self).covers == old(self).covers,
            old(self).artist_names().contains(name@) ==> *final(self) == *old(self) && exists|i: int|
                0 <= i < old(self).artists@.len() && old(self).artists@[i].name@ == name@
                    && old(self).artists@[i].id == r,
            !old(self).artist_names().contains(name@) && old(self).artists@.len() < u64::MAX ==> {
                &&& r == Id::Number((old(self).artists@.len() + 1) as u64)
                &&& final(self).artists@.len() == old(self).artists@.len() + 1
                &&& final(self).artists@.drop_last() == old(self).artists@
                &&& final(self).artists@.last().id == r
                &&& final(self).artists@.last().name@ == name@
                &&& queued(old(self).index, final(self).index, name@, IdKey::ArtistName(r))
            },
            !old(self).artist_names().contains(name@) && old(self).artists@.len() == u64::MAX ==> r
                == Id::Unresolved && *final(self) == *old(self),
            ({
                let st = name_step(artist_view(*old(self)), name@);
                &&& artist_view(*final(self)) == st.0
                &&& r == st.2
                &&& fed(old(self).index, final(self).index, st.1)
            }),
            final(self).album_id_store == old(self).album_id_store,
            final(self).song_id_store == old(self).song_id_store,
    {
        proof {
            lemma_fed_none(self.index);
            assert(artist_view(*self).len() == self.artists@.len());
            assert(names_of(artist_view(*self)) =~= self.artist_names());
        }
        match self.get_artist_id_by_name(name.as_str()) {
            Some(id) => {
                proof {
                    let i = choose|i: int|
                        0 <= i < self.artists@.len() && self.artists@[i].name@ == name@
                            && self.artists@[i].id == id;
                    assert(self.artist_names()[i] == name@);
                    let ns = names_of(artist_view(*self));
                    let j = ns.index_of(name@);
                    assert(ns[j] == name@);
                    assert(i == j);
                }
                return id;
            },
            None => {},
        }
        if self.artist_id_store.current == u64::MAX {
            return Id::Unresolved;
        }
        let ghost before = self.artists@;
        let id = self.artist_id_store.next();
        let ghost idx0 = self.index;
        self.index.insert(name.as_str(), IdKey::ArtistName(id));
        proof {
            lemma_queued_fed(idx0, self.index, name@, IdKey::ArtistName(id));
        }
        let ghost nm = name@;
        self.artists.push(Artist { id, name });
        proof {
            assert(artist_view(*self) =~= artist_view(*old(self)).push((id, nm)));
            assert(self.artists@.drop_last() =~= before);
            assert(self.artist_names() =~= old(self).artist_names().push(self.artists@.last().name@));
            assert forall|i: int| 0 <= i < self.artists@.len() implies #[trigger] self.artists@[i].id
                == Id::Number((i + 1) as u64) by {
                if i < before.len() {
                    assert(self.artists@[i] == before[i]);
                }
            }
            assert forall|a: int| 0 <= a < self.albums@.len() implies match #[trigger] self.albums@[a].artist {
                Some(x) => x == Id::Unresolved || self.has_artist(x),
                None => true,
            } by {
                match self.albums@[a].artist {
                    Some(x) => if x != Id::Unresolved {
                        assert(old(self).has_artist(x));
                        let k = choose|k: int| 0 <= k < before.len() && before[k].id == x;
                        assert(self.artists@[k] == before[k]);
                    }
                    None => {},
                }
            }
        }
        id
    }

    /// The artist with identity `id`.
    pub fn get_artist(&self, id: &Id) -> (r: Option<&Artist>)
        ensures
            match r {
                Some(a) => exists|i: int| 0 <= i < self.artists@.len() && self.artists@[i] == *a && a.id == *id,
                None => forall|i: int| 0 <= i < self.artists@.len() ==> self.artists@[i].id != *id,
            },
    {
        let mut i: usize = 0;
        while i < self.artists.len()
            invariant
                i <= self.artists@.len(),
                forall|j: int| 0 <= j < i ==> self.artists@[j].id != *id,
            decreases self.artists@.len() - i,
        {
            if self.artists[i].id == *id {
                return Some(&self.artists[i]);
            }
            i = i + 1;
        }
        None
    }

    /// The album with identity `id`.
    pub fn get_album(&self, id: &Id) -> (r: Option<&Album>)
        ensures
            match r {
                Some(a) => exists|i: int| 0 <= i < self.albums@.len() && self.albums@[i] == *a && a.id == *id,
                None => forall|i: int| 0 <= i < self.albums@.len() ==> self.albums@[i].id != *id,
            },
    {
        let mut i: usize = 0;
        while i < self.albums.len()
            invariant
                i <= self.albums@.len(),
                forall|j: int| 0 <= j < i ==> self.albums@[j].id != *id,
            decreases self.albums@.len() - i,
        {
            if self.albums[i].id == *id {
                return Some(&self.albums[i]);
            }
            i = i + 1;
        }
        None
    }

    /// The song with identity `id`.
    pub fn get_song(&self, id: &Id) -> (r: Option<&Song>)
        ensures
            match r {
                Some(s) => exists|i: int| 0 <= i < self.songs@.len() && self.songs@[i] == *s && s.id == *id,
                None => forall|i: int| 0 <= i < self.songs@.len() ==> self.songs@[i].id != *id,
            },
    {
        let mut i: usize = 0;
        while i < self.songs.len()
            invariant
                i <= self.songs@.len(),
                forall|j: int| 0 <= j < i ==> self.songs@[j].id != *id,
            decreases self.songs@.len() - i,
        {
            if self.songs[i].id == *id {
                return Some(&self.songs[i]);
            }
            i = i + 1;
        }
        None
    }
}

/// Adds to `genres` each of `add` that it does not hold yet.
pub fn union_genres(genres: &mut Vec<String>, add: &Vec<String>)
    ensures
        forall|x: Seq<char>|
            #[trigger] final(genres).deep_view().contains(x) <==> (old(genres).deep_view().contains(x)
                || add.deep_view().contains(x)),
        final(genres).deep_view() == union_seq(old(genres).deep_view(), add.deep_view()),
{
    let mut i: usize = 0;
    while i < add.len()
        invariant
            i <= add@.len(),
            genres.deep_view() == union_seq(old(genres).deep_view(), add.deep_view().take(i as int)),
            forall|x: Seq<char>|
                #[trigger] genres.deep_view().contains(x) <==> (old(genres).deep_view().contains(x)
                    || add.deep_view().take(i as int).contains(x)),
        decreases add@.len() - i,
    {
        let ghost before = genres.deep_view();
        let ghost t0 = add.deep_view().take(i as int);
        let ghost t1 = add.deep_view().take(i + 1);
        assert(t1 =~= t0.push(add@[i as int]@));
        assert(t1.drop_last() =~= t0);
        if !crate::cache::contains_path(genres, &add[i]) {
            genres.push(add[i].clone());
            assert(genres.deep_view() =~= before.push(add@[i as int]@));
        }
        assert forall|x: Seq<char>| #[trigger] genres.deep_view().contains(x) <==> (before.contains(x)
            || x == add@[i as int]@) by {
            if genres.deep_view().contains(x) {
                let w = choose|w: int| 0 <= w < genres.deep_view().len() && genres.deep_view()[w] == x;
                if w < before.len() {
                    assert(before[w] == x);
                }
            }
            if before.contains(x) {
                let w = choose|w: int| 0 <= w < before.len() && before[w] == x;
                assert(genres.deep_view()[w] == x);
            }
            if x == add@[i as int]@ && !before.contains(x) {
                assert(genres.deep_view()[before.len() as int] == x);
            }
        }
        assert forall|x: Seq<char>| #[trigger] t1.contains(x) <==> (t0.contains(x) || x == add@[i as int]@) by {
            if t1.contains(x) {
                let w = choose|w: int| 0 <= w < t1.len() && t1[w] == x;
                if w < t0.len() {
                    assert(t0[w] == x);
                }
            }
            if t0.contains(x) {
                let w = choose|w: int| 0 <= w < t0.len() && t0[w] == x;
                assert(t1[w] == x);
            }
            if x == add@[i as int]@ {
                assert(t1[i as int] == x);
            }
        }
        i = i + 1;
    }
    assert(add.deep_view().take(add@.len() as int) =~= add.deep_view());
}

impl MusicCollection {
    /// The position of the album with identity `id`.
    pub fn find_album(&self, id: Id) -> (r: Option<usize>)
        ensures
            match r {
                Some(i) => i < self.albums@.len() && self.albums@[i as int].id == id,
                None => !self.has_album(id),
            },
    {
        let mut i: usize = 0;
        while i < self.albums.len()
            invariant
                i <= self.albums@.len(),
                forall|j: int| 0 <= j < i ==> self.albums@[j].id != id,
            decreases self.albums@.len() - i,
        {
            if self.albums[i].id == id {
                return Some(i);
            }
            i = i + 1;
        }
        None
    }

    /// The position of the song with identity `id`.
    pub fn find_song(&self, id: Id) -> (r: Option<usize>)
        ensures
            match r {
                Some(i) => i < self.songs@.len() && self.songs@[i as int].id == id,
                None => forall|j: int| 0 <= j < self.songs@.len() ==> self.songs@[j].id != id,
            },
    {
        let mut i: usize = 0;
        while i < self.songs.len()
            invariant
                i <= self.songs@.len(),
                forall|j: int| 0 <= j < i ==> self.songs@[j].id != id,
            decreases self.songs@.len() - i,
        {
            if self.songs[i].id == id {
                return Some(i);
            }
            i = i + 1;
        }
        None
    }

    /// The identity of the album called `name` by the artist called `artist`:
    /// the digest of the two names' bytes, one after the other.
    pub fn album_digest(&self, name: &str, artist: &str) -> (r: Id)
        ensures
            r == album_id_of(name@, artist@),
    {
        let mut bytes = bytes_of(name);
        let more = bytes_of(artist);
        let ghost first = bytes@;
        let mut i: usize = 0;
        while i < more.len()
            invariant
                i <= more@.len(),
                bytes@ == first + more@.take(i as int),
            decreases more@.len() - i,
        {
            bytes.push(more[i]);
            assert(bytes@ =~= first + more@.take(i + 1));
            i = i + 1;
        }
        assert(more@.take(more@.len() as int) =~= more@);
        self.album_id_store.digest(bytes.as_slice())
    }

    /// Files a new album.
    fn push_album(&mut self, album: Album)
        requires
            old(self).core_wf(),
            album.songs@.len() == 1,
            old(self).songs_listed(Some(album.songs@[0])),

            !old(self).has_album(album.id),
            album.songs@.len() > 0,
            album.name@.len() <= MAX_TERMS,
            match album.artist {
                Some(x) => x == Id::Unresolved || old(self).has_artist(x),
                None => true,
            },
        ensures
            final(self).core_wf(),
            final(self).songs_listed(Some(album.songs@[0])),

            final(self).albums@ == old(self).albums@.push(album),
            final(self).album_id_store == old(self).album_id_store,
            final(self).song_id_store == old(self).song_id_store,
            final(self).artist_id_store == old(self).artist_id_store,
            final(self).artists == old(self).artists,
            final(self).songs == old(self).songs,
            final(self).covers == old(self).covers,
            final(self).index == old(self).index,
    {
        let ghost before = self.albums@;
        self.albums.push(album);
        proof {
            assert forall|s: int| 0 <= s < self.songs@.len() implies match #[trigger] self.songs@[s].album {
                Some(x) => exists|a: int|
                    0 <= a < self.albums@.len() && self.albums@[a].id == x
                        && #[trigger] self.albums@[a].songs@.contains(self.songs@[s].id),
                None => true,
            } by {
                match self.songs@[s].album {
                    Some(x) => {
                        let a = choose|a: int|
                            0 <= a < before.len() && before[a].id == x && #[trigger] before[a].songs@.contains(
                                self.songs@[s].id,
                            );
                        assert(self.albums@[a] == before[a]);
                    },
                    None => {},
                }
            }
            assert forall|c: int| 0 <= c < self.covers@.len() implies self.has_album(#[trigger] self.covers@[c].id) by {
                let a = choose|a: int| 0 <= a < before.len() && before[a].id == self.covers@[c].id;
                assert(self.albums@[a] == before[a]);
            }
            assert forall|a: int, b: int|
                0 <= a < self.albums@.len() && 0 <= b < self.albums@.len() && a != b
                    implies #[trigger] self.albums@[a].id != #[trigger] self.albums@[b].id by {
                if a == before.len() {
                    assert(self.albums@[b] == before[b]);
                } else if b == before.len() {
                    assert(self.albums@[a] == before[a]);
                } else {
                    assert(self.albums@[a] == before[a]);
                    assert(self.albums@[b] == before[b]);
                }
            }
            assert forall|a: int| 0 <= a < self.albums@.len() implies #[trigger] self.albums@[a].songs@.len() > 0
                && match self.albums@[a].artist {
                Some(x) => x == Id::Unresolved || self.has_artist(x),
                None => true,
            } by {
                if a < before.len() {
                    assert(self.albums@[a] == before[a]);
                }
            }
        }
    }

    /// Files the cover of an album that has none yet.
    fn push_cover(&mut self, cover: Cover)
        requires
            old(self).core_wf(),
            old(self).has_album(cover.id),
            forall|c: int| 0 <= c < old(self).covers@.len() ==> old(self).covers@[c].id != cover.id,
        ensures
            final(self).core_wf(),
            final(self).covers@ == old(self).covers@.push(cover),
            final(self).album_id_store == old(self).album_id_store,
            final(self).song_id_store == old(self).song_id_store,
            final(self).artist_id_store == old(self).artist_id_store,
            final(self).artists == old(self).artists,
            final(self).albums == old(self).albums,
            final(self).songs == old(self).songs,
            final(self).index == old(self).index,
    {
        let ghost before = self.covers@;
        self.covers.push(cover);
        proof {
            assert forall|a: int, b: int|
                0 <= a < self.covers@.len() && 0 <= b < self.covers@.len() && a != b
                    implies #[trigger] self.covers@[a].id != #[trigger] self.covers@[b].id by {
                if a == before.len() {
                    assert(self.covers@[b] == before[b]);
                } else if b == before.len() {
                    assert(self.covers@[a] == before[a]);
                } else {
                    assert(self.covers@[a] == before[a]);
                    assert(self.covers@[b] == before[b]);
                }
            }
            assert forall|c: int| 0 <= c < self.covers@.len() implies self.has_album(#[trigger] self.covers@[c].id) by {
                if c < before.len() {
                    assert(self.covers@[c] == before[c]);
                }
            }
        }
    }

    /// Adds the song `sid` to the album at position `ai`, and the genres to its own.
    fn merge_into_album(
        &mut self,
        ai: usize,
        sid: Id,
        genres: &Vec<String>,
        disc_total: Option<u32>,
        track_total: Option<u32>,
    )
        requires
            old(self).core_wf(),
            old(self).songs_listed(Some(sid)),

            ai < old(self).albums@.len(),
        ensures
            final(self).core_wf(),
            final(self).songs_listed(Some(sid)),

            final(self).albums@.len() == old(self).albums@.len(),
            forall|a: int| 0 <= a < old(self).albums@.len() && a != ai ==> final(self).albums@[a] == old(self).albums@[a],
            final(self).albums@[ai as int].id == old(self).albums@[ai as int].id,
            final(self).albums@[ai as int].name == old(self).albums@[ai as int].name,
            final(self).albums@[ai as int].artist == old(self).albums@[ai as int].artist,
            final(self).albums@[ai as int].year == old(self).albums@[ai as int].year,
            final(self).albums@[ai as int].disc_total == match disc_total {
                Some(v) => v,
                None => old(self).albums@[ai as int].disc_total,
            },
            final(self).albums@[ai as int].songs_count == match track_total {
                Some(v) => v,
                None => old(self).albums@[ai as int].songs_count,
            },
            final(self).albums@[ai as int].cover == old(self).albums@[ai as int].cover,
            final(self).albums@[ai as int].songs@ == old(self).albums@[ai as int].songs@.push(sid),
            final(self).albums@ == old(self).albums@.update(ai as int, final(self).albums@[ai as int]),
            final(self).albums@[ai as int].genres.deep_view() == union_seq(
                old(self).albums@[ai as int].genres.deep_view(),
                genres.deep_view(),
            ),
            final(self).album_id_store == old(self).album_id_store,
            final(self).song_id_store == old(self).song_id_store,
            final(self).artist_id_store == old(self).artist_id_store,
            forall|x: Seq<char>|
                #[trigger] final(self).albums@[ai as int].genres.deep_view().contains(x) <==> (old(
                    self,
                ).albums@[ai as int].genres.deep_view().contains(x) || genres.deep_view().contains(x)),
            final(self).artists == old(self).artists,
            final(self).songs == old(self).songs,
            final(self).covers == old(self).covers,
            final(self).index == old(self).index,
    {
        let ghost before = self.albums@;
        let ghost old_songs = self.albums@[ai as int].songs@;
        self.albums[ai].songs.push(sid);
        union_genres(&mut self.albums[ai].genres, genres);
        match disc_total {
            Some(v) => {
                self.albums[ai].disc_total = v;
            },
            None => {},
        }
        match track_total {
            Some(v) => {
                self.albums[ai].songs_count = v;
            },
            None => {},
        }
        proof {
            assert(self.albums@ =~= before.update(ai as int, self.albums@[ai as int]));
            assert(self.albums@[ai as int].songs@ =~= old_songs.push(sid));
            assert forall|s: int| 0 <= s < self.songs@.len() implies match #[trigger] self.songs@[s].album {
                Some(x) => exists|a: int|
                    0 <= a < self.albums@.len() && self.albums@[a].id == x
                        && #[trigger] self.albums@[a].songs@.contains(self.songs@[s].id),
                None => true,
            } by {
                match self.songs@[s].album {
                    Some(x) => {
                        let a = choose|a: int|
                            0 <= a < before.len() && before[a].id == x && #[trigger] before[a].songs@.contains(
                                self.songs@[s].id,
                            );
                        if a == ai {
                            let w = choose|w: int| 0 <= w < old_songs.len() && old_songs[w] == self.songs@[s].id;
                            assert(self.albums@[a].songs@[w] == self.songs@[s].id);
                            assert(self.albums@[a].songs@.contains(self.songs@[s].id));
                        } else {
                            assert(self.albums@[a] == before[a]);
                            assert(self.albums@[a].songs@.contains(self.songs@[s].id));
                        }
                    },
                    None => {},
                }
            }
            assert forall|c: int| 0 <= c < self.covers@.len() implies self.has_album(#[trigger] self.covers@[c].id) by {
                let a = choose|a: int| 0 <= a < before.len() && before[a].id == self.covers@[c].id;
                assert(self.albums@[a].id == before[a].id);
            }
            assert forall|a: int, b: int|
                0 <= a < self.albums@.len() && 0 <= b < self.albums@.len() && a != b
                    implies #[trigger] self.albums@[a].id != #[trigger] self.albums@[b].id by {
                assert(self.albums@[a].id == before[a].id);
                assert(self.albums@[b].id == before[b].id);
            }
            assert forall|a: int| 0 <= a < self.albums@.len() implies #[trigger] self.albums@[a].songs@.len() > 0
                && match self.albums@[a].artist {
                Some(x) => x == Id::Unresolved || self.has_artist(x),
                None => true,
            } by {
                assert(self.albums@[a].artist == before[a].artist);
            }
        }
    }
}

impl MusicCollection {
    /// Whether the catalog lists an artist with identity `id` called `name`.
    pub open spec fn names_artist(&self, id: Id, name: Seq<char>) -> bool {
        exists|i: int|
            0 <= i < self.artists@.len() && self.artists@[i].id == id && self.artists@[i].name@ == name
    }

    /// Files `song`, in place of the song with the same identity if there is one.
    fn put_song(&mut self, song: Song)
        requires
            old(self).core_wf(),
            old(self).songs_listed(Some(song.id)),

            match song.album {
                Some(x) => exists|a: int|
                    0 <= a < old(self).albums@.len() && old(self).albums@[a].id == x
                        && old(self).albums@[a].songs@.contains(song.id),
                None => true,
            },
            song.title@.len() <= MAX_TERMS,
        ensures
            final(self).core_wf(),
            final(self).songs_listed(None),

            (exists|i: int|
                0 <= i < old(self).songs@.len() && old(self).songs@[i].id == song.id
                    && final(self).songs@ == old(self).songs@.update(i, song)) || ((forall|i: int|
                0 <= i < old(self).songs@.len() ==> old(self).songs@[i].id != song.id)
                && final(self).songs@ == old(self).songs@.push(song)),
            song_put(old(self).songs@, final(self).songs@, song),
            final(self).songs@.contains(song),
            final(self).album_id_store == old(self).album_id_store,
            final(self).song_id_store == old(self).song_id_store,
            final(self).artist_id_store == old(self).artist_id_store,
            final(self).artists == old(self).artists,
            final(self).albums == old(self).albums,
            final(self).covers == old(self).covers,
            final(self).index == old(self).index,
    {
        let ghost before = self.songs@;
        let ghost s_new = song;
        match self.find_song(song.id) {
            Some(i) => {
                self.songs.set(i, song);
                proof {
                    assert forall|a: int, b: int|
                        0 <= a < self.songs@.len() && 0 <= b < self.songs@.len() && a != b
                            implies #[trigger] self.songs@[a].id != #[trigger] self.songs@[b].id by {
                        if a != i && b != i {
                            assert(self.songs@[a] == before[a] && self.songs@[b] == before[b]);
                        } else if a == i {
                            assert(self.songs@[b] == before[b]);
                        } else {
                            assert(self.songs@[a] == before[a]);
                        }
                    }
                    assert forall|s: int| 0 <= s < self.songs@.len() implies match #[trigger] self.songs@[s].album {
                        Some(x) => exists|a: int|
                            0 <= a < self.albums@.len() && self.albums@[a].id == x
                                && #[trigger] self.albums@[a].songs@.contains(self.songs@[s].id),
                        None => true,
                    } by {
                        if s != i {
                            assert(self.songs@[s] == before[s]);
                        } else {
                            assert(self.songs@[s] == s_new);
                        match self.songs@[s].album {
                            Some(x) => {
                                let a = choose|a: int|
                                    0 <= a < old(self).albums@.len() && old(self).albums@[a].id == x
                                        && old(self).albums@[a].songs@.contains(s_new.id);
                                assert(self.albums@[a].songs@.contains(self.songs@[s].id));
                            },
                            None => {},
                        }
                        }
                    }
                }
            },
            None => {
                self.songs.push(song);
                proof {
                    assert forall|a: int, b: int|
                        0 <= a < self.songs@.len() && 0 <= b < self.songs@.len() && a != b
                            implies #[trigger] self.songs@[a].id != #[trigger] self.songs@[b].id by {
                        if a < before.len() && b < before.len() {
                            assert(self.songs@[a] == before[a] && self.songs@[b] == before[b]);
                        } else if a < before.len() {
                            assert(self.songs@[a] == before[a]);
                        } else {
                            assert(self.songs@[b] == before[b]);
                        }
                    }
                    assert forall|s: int| 0 <= s < self.songs@.len() implies match #[trigger] self.songs@[s].album {
                        Some(x) => exists|a: int|
                            0 <= a < self.albums@.len() && self.albums@[a].id == x
                                && #[trigger] self.albums@[a].songs@.contains(self.songs@[s].id),
                        None => true,
                    } by {
                        if s < before.len() {
                            assert(self.songs@[s] == before[s]);
                        } else {
                            assert(self.songs@[s] == s_new);
                        match self.songs@[s].album {
                            Some(x) => {
                                let a = choose|a: int|
                                    0 <= a < old(self).albums@.len() && old(self).albums@[a].id == x
                                        && old(self).albums@[a].songs@.contains(s_new.id);
                                assert(self.albums@[a].songs@.contains(self.songs@[s].id));
                            },
                            None => {},
                        }
                        }
                    }
                }
            },
        }
        proof {
            assert(song_put(before, self.songs@, s_new));
            lemma_song_put(before, self.songs@, s_new);
            assert forall|a: int, k: int|
                0 <= a < self.albums@.len() && 0 <= k < self.albums@[a].songs@.len() implies (None::<Id> == Some(
                    #[trigger] self.albums@[a].songs@[k],
                ) || exists|x: int| 0 <= x < self.songs@.len() && self.songs@[x].id == self.albums@[a].songs@[k]) by {
                let id = self.albums@[a].songs@[k];
                if id == s_new.id {
                    let x = choose|x: int| 0 <= x < self.songs@.len() && self.songs@[x] == s_new;
                    assert(self.songs@[x].id == id);
                } else {
                    let x = choose|x: int| 0 <= x < before.len() && before[x].id == id;
                    assert(self.songs@[x] == before[x]);
                }
            }
        }
    }

    /// The identity of each named artist, in order, filing those that are new.
    fn resolve_artists(&mut self, names: &Vec<String>) -> (r: Vec<Id>)
        requires
            old(self).wf(),
            forall|k: int| 0 <= k < names@.len() ==> #[trigger] names@[k]@.len() <= MAX_TERMS,
        ensures
            final(self).wf(),
            final(self).albums == old(self).albums,
            final(self).songs == old(self).songs,
            final(self).covers == old(self).covers,
            old(self).artists@.len() <= final(self).artists@.len(),
            final(self).artists@.take(old(self).artists@.len() as int) == old(self).artists@,
            r@.len() == names@.len(),
            forall|k: int|
                0 <= k < r@.len() ==> #[trigger] r@[k] == Id::Unresolved || final(self).names_artist(
                    r@[k],
                    names@[k]@,
                ),
            ({
                let st = add_names(artist_view(*old(self)), names.deep_view());
                &&& artist_view(*final(self)) == st.0
                &&& r@ == st.2
                &&& fed(old(self).index, final(self).index, st.1)
            }),
            final(self).album_id_store == old(self).album_id_store,
            final(self).song_id_store == old(self).song_id_store,
    {
        let mut out: Vec<Id> = Vec::new();
        let mut k: usize = 0;
        let ghost av0 = artist_view(*self);
        proof {
            lemma_fed_none(self.index);
            assert(names.deep_view().take(0) =~= Seq::<Seq<char>>::empty());
            assert(out@ =~= Seq::<Id>::empty());
        }
        while k < names.len()
            invariant
                self.wf(),
                av0 == artist_view(*old(self)),
                artist_view(*self) == add_names(av0, names.deep_view().take(k as int)).0,
                out@ == add_names(av0, names.deep_view().take(k as int)).2,
                fed(old(self).index, self.index, add_names(av0, names.deep_view().take(k as int)).1),
                self.album_id_store == old(self).album_id_store,
                self.song_id_store == old(self).song_id_store,
                k <= names@.len(),
                forall|k: int| 0 <= k < names@.len() ==> #[trigger] names@[k]@.len() <= MAX_TERMS,
                self.albums == old(self).albums,
                self.songs == old(self).songs,
                self.covers == old(self).covers,
                old(self).artists@.len() <= self.artists@.len(),
                self.artists@.take(old(self).artists@.len() as int) == old(self).artists@,
                out@.len() == k,
                forall|j: int|
                    0 <= j < k ==> #[trigger] out@[j] == Id::Unresolved || self.names_artist(
                        out@[j],
                        names@[j]@,
                    ),
            decreases names@.len() - k,
        {
            let ghost mid = self.artists@;
            let ghost mid_self = *self;
            let id = self.add_artist(names[k].clone());
            proof {
                let pre = names.deep_view().take(k as int);
                let post = names.deep_view().take(k + 1);
                assert(post.drop_last() =~= pre);
                assert(post.last() == names@[k as int]@);
                let p = add_names(av0, pre);
                lemma_fed_trans(old(self).index, mid_self.index, self.index, p.1, name_step(p.0, names@[k as int]@).1);
                assert(self.artists@.len() >= mid.len());
                assert(self.artists@.take(mid.len() as int) =~= mid) by {
                    if self.artists@.len() > mid.len() {
                        assert(self.artists@.drop_last() == mid);
                    }
                }
                assert(self.artists@.take(old(self).artists@.len() as int) =~= old(self).artists@) by {
                    assert(mid.take(old(self).artists@.len() as int) == old(self).artists@);
                }
                assert forall|j: int| 0 <= j < k implies #[trigger] out@[j] == Id::Unresolved || self.names_artist(
                    out@[j],
                    names@[j]@,
                ) by {
                    if out@[j] != Id::Unresolved {
                        let i = choose|i: int|
                            0 <= i < mid.len() && mid[i].id == out@[j] && mid[i].name@ == names@[j]@;
                        assert(self.artists@[i] == mid[i]);
                    }
                }
                if id != Id::Unresolved {
                    if mid_self.artist_names().contains(names@[k as int]@) {
                        let i = choose|i: int|
                            0 <= i < mid.len() && mid[i].name@ == names@[k as int]@ && mid[i].id == id;
                        assert(self.artists@[i] == mid[i]);
                    } else {
                        assert(self.artists@[mid.len() as int] == self.artists@.last());
                    }
                    assert(self.names_artist(id, names@[k as int]@));
                }
            }
            out.push(id);
            k = k + 1;
        }
        assert(names.deep_view().take(names@.len() as int) =~= names.deep_view());
        out
    }
}

impl MusicCollection {
    /// Files the song `sid` under the album that its tags name.
    fn file_album(
        &mut self,
        name: &String,
        sid: Id,
        tags: &TrackTags,
        names: &Vec<String>,
        artist_ids: &Vec<Id>,
    ) -> (r: (Option<Id>, Option<usize>))
        requires
            old(self).core_wf(),
            old(self).songs_listed(Some(sid)),

            tags_fit(*tags),
            tags.album == Some(*name),
            names.deep_view() == tag_artists(*tags),
            artist_ids@.len() == names@.len(),
            forall|k: int|
                0 <= k < artist_ids@.len() ==> #[trigger] artist_ids@[k] == Id::Unresolved || old(self).names_artist(
                    artist_ids@[k],
                    tag_artists(*tags)[k],
                ),
        ensures
            final(self).core_wf(),
            final(self).songs_listed(Some(sid)),

            r.0 == Some(album_id_of(name@, album_artist_of(*tags))),
            album_filed(*old(self), *final(self), sid, artist_ids@, *tags, r.0->0, r.1),
            fed(old(self).index, final(self).index, album_keys(*old(self), *tags, r.0->0)),
            final(self).songs == old(self).songs,
            final(self).artists == old(self).artists,
            final(self).album_id_store == old(self).album_id_store,
            final(self).song_id_store == old(self).song_id_store,
            final(self).artist_id_store == old(self).artist_id_store,
    {
        let resolved = match &tags.album_artist {
            Some(a) => a.clone(),
            None => if names.len() > 0 {
                names[0].clone()
            } else {
                "@UNKNOWN@".to_owned()
            },
        };
        proof {
            if tags.album_artist is None && names@.len() > 0 {
                assert(names.deep_view()[0] == names@[0]@);
            }
        }
        let aid = self.album_digest(name.as_str(), resolved.as_str());
        let genres = match &tags.genre {
            Some(g) => genre_list(g.as_str()),
            None => Vec::new(),
        };
        assert(genres.deep_view() =~= tag_genres(*tags));
        match self.find_album(aid) {
            Some(ai) => {
                let ghost pre = *self;
                self.merge_into_album(ai, sid, &genres, tags.disc_total, tags.track_total);
                proof {
                    assert(pre.albums@[ai as int].id == aid);
                    lemma_fed_none(self.index);
                    assert(album_merged(pre.albums@[ai as int], self.albums@[ai as int], sid, *tags));
                }
                (Some(aid), None)
            },
            None => {
                let pick = self.create_album(aid, name, sid, tags, artist_ids, &genres);
                (Some(aid), pick)
            },
        }
    }

    /// Creates the album `aid` with the song `sid` as its first song.
    #[verifier::rlimit(60)]
    fn create_album(
        &mut self,
        aid: Id,
        name: &String,
        sid: Id,
        tags: &TrackTags,
        artist_ids: &Vec<Id>,
        genres: &Vec<String>,
    ) -> (r: Option<usize>)
        requires
            old(self).core_wf(),
            old(self).songs_listed(Some(sid)),

            !old(self).has_album(aid),
            tags.album == Some(*name),
            name@.len() <= MAX_TERMS,
            artist_ids@.len() == tag_artists(*tags).len(),
            genres.deep_view() == tag_genres(*tags),
            forall|k: int|
                0 <= k < artist_ids@.len() ==> #[trigger] artist_ids@[k] == Id::Unresolved || old(self).names_artist(
                    artist_ids@[k],
                    tag_artists(*tags)[k],
                ),
        ensures
            final(self).core_wf(),
            final(self).songs_listed(Some(sid)),

            album_filed(*old(self), *final(self), sid, artist_ids@, *tags, aid, r),
            fed(old(self).index, final(self).index, album_keys(*old(self), *tags, aid)),
            final(self).songs == old(self).songs,
            final(self).artists == old(self).artists,
            final(self).album_id_store == old(self).album_id_store,
            final(self).song_id_store == old(self).song_id_store,
            final(self).artist_id_store == old(self).artist_id_store,
    {
        let ghost pre = *self;
        let artist = match &tags.album_artist {
            Some(a) => self.get_artist_id_by_name(a.as_str()),
            None => if artist_ids.len() > 0 {
                Some(artist_ids[0])
            } else {
                self.get_artist_id_by_name("@UNKNOWN@")
            },
        };
        let chosen = choose_cover(&tags.pictures);
        let cover = match chosen {
            Some(_) => Some(aid),
            None => None,
        };
        let mut album_genres: Vec<String> = Vec::new();
        assert(album_genres.deep_view() =~= Seq::<Seq<char>>::empty());
        union_genres(&mut album_genres, genres);
        let album = Album {
            id: aid,
            name: name.clone(),
            genres: album_genres,
            artist,
            year: album_year(tags),
            songs: vec![sid],
            disc_total: match tags.disc_total {
                Some(v) => v,
                None => 1,
            },
            songs_count: match tags.track_total {
                Some(v) => v,
                None => 0,
            },
            cover,
        };
        proof {
            assert(album.songs@ =~= seq![sid]);
            match album.artist {
                Some(x) => {
                    if x != Id::Unresolved {
                        if tags.album_artist is None && artist_ids@.len() > 0 {
                            assert(pre.names_artist(artist_ids@[0], tag_artists(*tags)[0]));
                        }
                    }
                },
                None => {},
            }
        }
        self.push_album(album);
        proof {
            assert forall|c: int| 0 <= c < self.covers@.len() implies self.covers@[c].id != aid by {
                assert(pre.has_album(self.covers@[c].id));
            }
        }
        assert(self.albums@[pre.albums@.len() as int].id == aid);
        match chosen {
            Some(i) => {
                let ext = cover_ext(&tags.pictures[i].mime);
                self.push_cover(Cover { id: aid, ext });
            },
            None => {},
        }
        let ghost mid = *self;
        self.index.insert(name.as_str(), IdKey::AlbumName(aid));
        proof {
            lemma_queued_fed(mid.index, self.index, name@, IdKey::AlbumName(aid));
            let a = pre.albums@.len() as int;
            let fa = self.albums@[a];
            assert(fa == album);
            assert(!pre.has_album(aid));
            assert(self.albums@.drop_last() =~= pre.albums@);
            assert forall|x: Seq<char>| #[trigger] fa.genres.deep_view().contains(x) <==> tag_genres(*tags).contains(x) by {
                assert(!Seq::<Seq<char>>::empty().contains(x));
            }
            assert(fa.genres.deep_view() =~= union_seq(Seq::empty(), tag_genres(*tags)));
            assert(album_created(fa, sid, artist_ids@, *tags, *self));
            if chosen is Some {
                assert(self.covers@.drop_last() =~= pre.covers@);
            }
        }
        chosen
    }

    /// Indexes one audio file from its tags: files the song (in place of a
    /// song with the same path), its new artists, and its album, which is
    /// created on the first song filed under it (with its cover, from the
    /// picture that `cover_choice` picks) or else gains the song and its
    /// genres. Titles and new names are queued in the index. Returns the
    /// picture whose bytes the new cover is made of, if one was created.
    pub fn index_file(&mut self, path: &str, tags: &TrackTags) -> (r: Option<usize>)
        requires
            old(self).wf(),
            tags_fit(*tags),
        ensures
            file_indexed(*old(self), path@, *tags, *final(self), r),
    {
        let sid = self.song_id_store.digest(bytes_of(path).as_slice());
        self.remove_song(sid);
        let ghost mid = *self;
        proof {
            lemma_detached(*old(self), mid, sid);
        }
        let r = self.file_fresh(path, tags);
        proof {
            lemma_filing_links(mid, path@, *tags, *self, r);
        }
        r
    }

    /// Files the file at `path` into a catalog that does not hold its song.
    fn file_fresh(&mut self, path: &str, tags: &TrackTags) -> (r: Option<usize>)
        requires
            old(self).wf(),
            tags_fit(*tags),
        ensures
            file_filed(*old(self), path@, *tags, *final(self), r),
    {
        let sid = self.song_id_store.digest(bytes_of(path).as_slice());
        let names = match &tags.artists {
            Some(a) => artist_list(a.as_str()),
            None => Vec::new(),
        };
        assert(names.deep_view() =~= tag_artists(*tags));
        proof {
            assert forall|k: int| 0 <= k < names@.len() implies #[trigger] names@[k]@.len() <= MAX_TERMS by {
                assert(names@[k]@.len() <= text_or_empty(tags.artists).len());
            }
        }
        let artist_ids = self.resolve_artists(&names);
        let ghost after_artists = *self;
        let title = match &tags.title {
            Some(t) => t.clone(),
            None => String::new(),
        };
        let (album_ref, pick) = match &tags.album {
            Some(album_name) => self.file_album(album_name, sid, tags, &names, &artist_ids),
            None => (None, None),
        };
        proof {
            match album_ref {
                Some(aid) => {
                    lemma_album_filed_holds(after_artists, *self, sid, artist_ids@, *tags, aid, pick);
                },
                None => {},
            }
        }
        let song = Song {
            id: sid,
            title,
            file_path: path.to_owned(),
            artists: artist_ids,
            track: match tags.track {
                Some(v) => v,
                None => 0,
            },
            disc: match tags.disc {
                Some(v) => v,
                None => 1,
            },
            embedded_lyrics: tags.lyrics.clone(),
            album: album_ref,
            duration: tags.duration,
            bitrate: tags.bitrate,
            encoder: match &tags.encoder {
                Some(e) => e.clone(),
                None => String::new(),
            },
            created_at: tags.created_at,
        };
        let ghost before_title = *self;
        self.index.insert(song.title.as_str(), IdKey::SongTitle(sid));
        let ghost before_put = *self;
        let ghost the_song = song;
        self.put_song(song);
        proof {
            assert(sid == song_id_of(path@));
            assert(self.artists == after_artists.artists);
            let st = add_names(artist_view(*old(self)), tag_artists(*tags));
            assert(song_matches(the_song, path@, *tags, st.2));
            let title_key = seq![(text_or_empty(tags.title), IdKey::SongTitle(sid))];
            lemma_queued_fed(before_title.index, before_put.index, the_song.title@, IdKey::SongTitle(sid));
            if tags.album is None {
                lemma_fed_trans(old(self).index, after_artists.index, self.index, st.1, title_key);
            } else {
                let n = tags.album->0;
                {
                    let aid = album_id_of(n@, album_artist_of(*tags));
                    assert(album_keys(after_artists, *tags, aid) == album_keys(*old(self), *tags, aid));
                    lemma_fed_trans(old(self).index, after_artists.index, before_title.index, st.1, album_keys(*old(self), *tags, aid));
                    lemma_fed_trans(old(self).index, before_title.index, self.index, st.1 + album_keys(*old(self), *tags, aid), title_key);
                    assert(album_filed(after_artists, before_title, sid, st.2, *tags, aid, pick));
                    assert(album_filed(*old(self), *self, sid, st.2, *tags, aid, pick));
                }
            }
            let w = if exists|i: int|
                0 <= i < before_put.songs@.len() && before_put.songs@[i].id == sid
                    && self.songs@ == before_put.songs@.update(i, the_song) {
                choose|i: int|
                    0 <= i < before_put.songs@.len() && before_put.songs@[i].id == sid
                        && self.songs@ == before_put.songs@.update(i, the_song)
            } else {
                before_put.songs@.len() as int
            };
            assert(self.songs@[w] == the_song);
        }
        pick
    }
}

fn strip_ids(ids: &Vec<Id>, sid: Id) -> (r: Vec<Id>)
    ensures
        r@ == strip(ids@, sid),
{
    let mut out: Vec<Id> = Vec::new();
    let mut i: usize = 0;
    while i < ids.len()
        invariant
            i <= ids@.len(),
            out@ == strip(ids@.take(i as int), sid),
        decreases ids@.len() - i,
    {
        assert(ids@.take(i + 1).drop_last() =~= ids@.take(i as int));
        if ids[i] != sid {
            out.push(ids[i]);
        }
        i = i + 1;
    }
    assert(ids@.take(ids@.len() as int) =~= ids@);
    out
}

impl MusicCollection {
    /// Removes the song with identity `sid`: it leaves every album's list,
    /// an album left with no song is dropped, and so is its cover. Removing a
    /// song that is not in the catalog changes nothing.
    pub fn remove_song(&mut self, sid: Id)
        requires
            old(self).wf(),
        ensures
            song_removed(*old(self), *final(self), sid),
    {
        let si = match self.find_song(sid) {
            Some(i) => i,
            None => {
                return;
            },
        };
        let ghost pre = *self;
        self.songs.remove(si);
        proof {
            assert forall|i: int| 0 <= i < pre.songs@.len() && pre.songs@[i].id == sid implies self.songs@
                == pre.songs@.remove(i) by {
                if i != si {
                    assert(pre.songs@[i].id != pre.songs@[si as int].id);
                }
            }
        }
        self.keep_albums_with_songs(sid);
        self.keep_covers_of_albums();
        proof {
            assert forall|s: int| 0 <= s < self.songs@.len() implies match #[trigger] self.songs@[s].album {
                Some(x) => exists|a: int|
                    0 <= a < self.albums@.len() && self.albums@[a].id == x
                        && #[trigger] self.albums@[a].songs@.contains(self.songs@[s].id),
                None => true,
            } by {
                let ps = if s < si { s } else { s + 1 };
                assert(self.songs@[s] == pre.songs@[ps]);
                assert(ps != si);
                assert(self.songs@[s].id != sid);
                match self.songs@[s].album {
                    Some(x) => {
                        let o = choose|o: int|
                            0 <= o < pre.albums@.len() && pre.albums@[o].id == x
                                && #[trigger] pre.albums@[o].songs@.contains(pre.songs@[ps].id);
                        lemma_strip_contains(pre.albums@[o].songs@, sid, self.songs@[s].id);
                        assert(strip(pre.albums@[o].songs@, sid).len() > 0);
                        assert(self.has_album(pre.albums@[o].id));
                        let a = choose|a: int| 0 <= a < self.albums@.len() && self.albums@[a].id == x;
                        assert(from_album(self.albums@[a], pre.albums@, sid));
                        let o2 = choose|o2: int|
                            0 <= o2 < pre.albums@.len() && album_without(self.albums@[a], pre.albums@[o2], sid);
                        assert(o2 == o);
                        assert(self.albums@[a].songs@.contains(self.songs@[s].id));
                    },
                    None => {},
                }
            }
            assert forall|a: int, k: int|
                0 <= a < self.albums@.len() && 0 <= k < self.albums@[a].songs@.len() implies (None::<Id> == Some(
                    #[trigger] self.albums@[a].songs@[k],
                ) || exists|x: int| 0 <= x < self.songs@.len() && self.songs@[x].id == self.albums@[a].songs@[k]) by {
                let id = self.albums@[a].songs@[k];
                assert(from_album(self.albums@[a], pre.albums@, sid));
                let o = choose|o: int| 0 <= o < pre.albums@.len() && album_without(self.albums@[a], pre.albums@[o], sid);
                assert(self.albums@[a].songs@.contains(id));
                lemma_strip_contains(pre.albums@[o].songs@, sid, id);
                let w = choose|w: int| 0 <= w < pre.albums@[o].songs@.len() && pre.albums@[o].songs@[w] == id;
                assert(pre.albums@[o].songs@[w] == id);
                let x = choose|x: int| 0 <= x < pre.songs@.len() && pre.songs@[x].id == pre.albums@[o].songs@[w];
                assert(x != si);
                if x < si {
                    assert(self.songs@[x] == pre.songs@[x]);
                } else {
                    assert(self.songs@[x - 1] == pre.songs@[x]);
                }
            }
            assert forall|a: int, b: int|
                0 <= a < self.songs@.len() && 0 <= b < self.songs@.len() && a != b
                    implies #[trigger] self.songs@[a].id != #[trigger] self.songs@[b].id by {
                let pa = if a < si { a } else { a + 1 };
                let pb = if b < si { b } else { b + 1 };
                assert(self.songs@[a] == pre.songs@[pa]);
                assert(self.songs@[b] == pre.songs@[pb]);
            }
        }
    }

    /// Removes the song filed for the file at `path` (see `remove_song`).
    pub fn remove_media(&mut self, path: &str)
        requires
            old(self).wf(),
        ensures
            song_removed(*old(self), *final(self), song_id_of(path@)),
    {
        let sid = self.song_id_store.digest(bytes_of(path).as_slice());
        self.remove_song(sid);
    }

    /// Takes `sid` out of every album's list, and drops the albums left empty.
    #[verifier::rlimit(60)]
    fn keep_albums_with_songs(&mut self, sid: Id)
        requires
            old(self).index.wf(),
            forall|a: int, b: int|
                0 <= a < old(self).albums@.len() && 0 <= b < old(self).albums@.len() && a != b
                    ==> #[trigger] old(self).albums@[a].id != #[trigger] old(self).albums@[b].id,
        ensures
            final(self).songs == old(self).songs,
            final(self).artists == old(self).artists,
            final(self).covers == old(self).covers,
            final(self).index == old(self).index,
            final(self).album_id_store == old(self).album_id_store,
            final(self).song_id_store == old(self).song_id_store,
            final(self).artist_id_store == old(self).artist_id_store,
            forall|a: int|
                0 <= a < final(self).albums@.len() ==> from_album(
                    #[trigger] final(self).albums@[a],
                    old(self).albums@,
                    sid,
                ),
            forall|a: int| 0 <= a < final(self).albums@.len() ==> #[trigger] final(self).albums@[a].songs@.len() > 0,
            forall|o: int|
                0 <= o < old(self).albums@.len() ==> (final(self).has_album(
                    #[trigger] old(self).albums@[o].id,
                ) <==> strip(old(self).albums@[o].songs@, sid).len() > 0),
            forall|a: int, b: int|
                0 <= a < final(self).albums@.len() && 0 <= b < final(self).albums@.len() && a != b
                    ==> #[trigger] final(self).albums@[a].id != #[trigger] final(self).albums@[b].id,
            albums_kept(old(self).albums@, final(self).albums@, sid),
    {
        let mut rest: Vec<Album> = Vec::new();
        std::mem::swap(&mut rest, &mut self.albums);
        let ghost olds = rest@;
        let n = rest.len();
        let ghost mut src: Seq<int> = Seq::empty();
        let mut k: usize = 0;
        while rest.len() > 0
            invariant
                olds == old(self).albums@,
                self.songs == old(self).songs,
                self.artists == old(self).artists,
                self.covers == old(self).covers,
                self.index == old(self).index,
                self.album_id_store == old(self).album_id_store,
                self.song_id_store == old(self).song_id_store,
                self.artist_id_store == old(self).artist_id_store,
                forall|a: int, b: int|
                    0 <= a < olds.len() && 0 <= b < olds.len() && a != b ==> #[trigger] olds[a].id
                        != #[trigger] olds[b].id,
                k + rest@.len() == olds.len(),
                rest@ == olds.subrange(k as int, olds.len() as int),
                n == olds.len(),
                src.len() == self.albums@.len(),
                forall|a: int|
                    0 <= a < self.albums@.len() ==> 0 <= #[trigger] src[a] < k && album_without(
                        self.albums@[a],
                        olds[src[a]],
                        sid,
                    ),
                forall|a: int| 0 <= a < self.albums@.len() ==> #[trigger] self.albums@[a].songs@.len() > 0,
                forall|a: int, b: int| 0 <= a < b < src.len() ==> #[trigger] src[a] < #[trigger] src[b],
                src == kept_upto(olds, sid, k as int),
                forall|o: int|
                    0 <= o < k && strip(olds[o].songs@, sid).len() > 0 ==> exists|a: int|
                        0 <= a < src.len() && #[trigger] src[a] == o,
                forall|o: int|
                    0 <= o < k ==> (self.has_album(#[trigger] olds[o].id) <==> strip(olds[o].songs@, sid).len()
                        > 0),
                forall|o: int|
                    k <= o < olds.len() ==> !self.has_album(#[trigger] olds[o].id),
                forall|a: int, b: int|
                    0 <= a < self.albums@.len() && 0 <= b < self.albums@.len() && a != b
                        ==> #[trigger] self.albums@[a].id != #[trigger] self.albums@[b].id,
            decreases rest@.len(),
        {
            let ghost o = k as int;
            let ghost before = self.albums@;
            let mut album = rest.remove(0);
            assert(album == olds[o]);
            assert(rest@ =~= olds.subrange(k + 1, olds.len() as int));
            let kept = strip_ids(&album.songs, sid);
            album.songs = kept;
            assert(album_without(album, olds[o], sid));
            if album.songs.len() > 0 {
                let ghost src0 = src;
                self.albums.push(album);
                proof {
                    src = src.push(o);
                    assert forall|a: int, b: int| 0 <= a < b < src.len() implies #[trigger] src[a] < #[trigger] src[b] by {
                        if b == src.len() - 1 {
                            assert(src[a] == src0[a]);
                        } else {
                            assert(src[a] == src0[a] && src[b] == src0[b]);
                        }
                    }
                    assert forall|o2: int|
                        0 <= o2 < k + 1 && strip(olds[o2].songs@, sid).len() > 0 implies exists|a: int|
                            0 <= a < src.len() && #[trigger] src[a] == o2 by {
                        if o2 == k {
                            assert(src[src.len() - 1] == o2);
                        } else {
                            let a = choose|a: int| 0 <= a < src0.len() && src0[a] == o2;
                            assert(src[a] == o2);
                        }
                    }
                    assert forall|a: int| 0 <= a < self.albums@.len() implies 0 <= #[trigger] src[a] < k + 1
                        && album_without(self.albums@[a], olds[src[a]], sid) by {
                        if a < before.len() {
                            assert(self.albums@[a] == before[a]);
                            assert(src[a] == src0[a]);
                        } else {
                            assert(album_without(self.albums@[a], olds[o], sid));
                        }
                    }
                    assert forall|a: int, b: int|
                        0 <= a < self.albums@.len() && 0 <= b < self.albums@.len() && a != b
                            implies #[trigger] self.albums@[a].id != #[trigger] self.albums@[b].id by {
                        if a == before.len() {
                            assert(self.albums@[b] == before[b]);
                            assert(!(exists|x: int| 0 <= x < before.len() && before[x].id == olds[o].id));
                        } else if b == before.len() {
                            assert(self.albums@[a] == before[a]);
                            assert(!(exists|x: int| 0 <= x < before.len() && before[x].id == olds[o].id));
                        } else {
                            assert(self.albums@[a] == before[a]);
                            assert(self.albums@[b] == before[b]);
                        }
                    }
                    assert forall|o2: int| 0 <= o2 < k + 1 implies (self.has_album(#[trigger] olds[o2].id)
                        <==> strip(olds[o2].songs@, sid).len() > 0) by {
                        if o2 < k {
                            if before_has(before, olds[o2].id) {
                                let x = choose|x: int| 0 <= x < before.len() && before[x].id == olds[o2].id;
                                assert(self.albums@[x] == before[x]);
                            }
                            if self.has_album(olds[o2].id) {
                                let x = choose|x: int| 0 <= x < self.albums@.len() && self.albums@[x].id == olds[o2].id;
                                if x < before.len() {
                                    assert(self.albums@[x] == before[x]);
                                    assert(before_has(before, olds[o2].id));
                                } else {
                                    assert(olds[o2].id != olds[o].id);
                                }
                            }
                        } else {
                            assert(self.albums@[before.len() as int].id == olds[o].id);
                        }
                    }
                    assert forall|o2: int| k + 1 <= o2 < olds.len() implies !self.has_album(#[trigger] olds[o2].id) by {
                        assert(!before_has(before, olds[o2].id));
                        if self.has_album(olds[o2].id) {
                            let x = choose|x: int| 0 <= x < self.albums@.len() && self.albums@[x].id == olds[o2].id;
                            if x < before.len() {
                                assert(self.albums@[x] == before[x]);
                            } else {
                                assert(olds[o2].id != olds[o].id);
                            }
                        }
                    }
                }
            } else {
                proof {
                    assert(!self.has_album(olds[o].id));
                    assert forall|o2: int|
                        0 <= o2 < k + 1 && strip(olds[o2].songs@, sid).len() > 0 implies exists|a: int|
                            0 <= a < src.len() && #[trigger] src[a] == o2 by {
                        assert(o2 != k);
                    }
                }
            }
            k = k + 1;
        }
        proof {
            assert(k == olds.len());
            assert forall|a: int| 0 <= a < self.albums@.len() implies album_without(
                #[trigger] self.albums@[a],
                olds[kept_upto(olds, sid, olds.len() as int)[a]],
                sid,
            ) by {
                assert(0 <= src[a] < k && album_without(self.albums@[a], olds[src[a]], sid));
            }
            assert(albums_kept(old(self).albums@, self.albums@, sid));
            assert forall|a: int| 0 <= a < self.albums@.len() implies from_album(
                #[trigger] self.albums@[a],
                old(self).albums@,
                sid,
            ) by {
                let o = src[a];
                assert(0 <= o < k && album_without(self.albums@[a], olds[o], sid));
                assert(k == olds.len());
                assert(olds[o] == old(self).albums@[o]);
                assert(album_without(self.albums@[a], old(self).albums@[o], sid));
            }
        }
    }

    /// Drops the covers whose album is gone.
    fn keep_covers_of_albums(&mut self)
        requires
            forall|a: int, b: int|
                0 <= a < old(self).covers@.len() && 0 <= b < old(self).covers@.len() && a != b
                    ==> #[trigger] old(self).covers@[a].id != #[trigger] old(self).covers@[b].id,
        ensures
            final(self).songs == old(self).songs,
            final(self).artists == old(self).artists,
            final(self).albums == old(self).albums,
            final(self).index == old(self).index,
            final(self).album_id_store == old(self).album_id_store,
            final(self).song_id_store == old(self).song_id_store,
            final(self).artist_id_store == old(self).artist_id_store,
            forall|c: int|
                0 <= c < final(self).covers@.len() ==> old(self).covers@.contains(
                    #[trigger] final(self).covers@[c],
                ) && final(self).has_album(final(self).covers@[c].id),
            forall|c: int|
                0 <= c < old(self).covers@.len() ==> (final(self).covers@.contains(
                    #[trigger] old(self).covers@[c],
                ) <==> final(self).has_album(old(self).covers@[c].id)),
            forall|a: int, b: int|
                0 <= a < final(self).covers@.len() && 0 <= b < final(self).covers@.len() && a != b
                    ==> #[trigger] final(self).covers@[a].id != #[trigger] final(self).covers@[b].id,
            covers_kept(old(self).covers@, final(self).covers@, final(self).albums@),
    {
        let mut rest: Vec<Cover> = Vec::new();
        std::mem::swap(&mut rest, &mut self.covers);
        let ghost olds = rest@;
        let n = rest.len();
        let ghost mut src: Seq<int> = Seq::empty();
        let mut k: usize = 0;
        while rest.len() > 0
            invariant
                olds == old(self).covers@,
                n == olds.len(),
                src.len() == self.covers@.len(),
                src == covers_upto(olds, self.albums@, k as int),
                forall|c: int|
                    0 <= c < self.covers@.len() ==> 0 <= #[trigger] src[c] < k && self.covers@[c]
                        == olds[src[c]],
                self.songs == old(self).songs,
                self.artists == old(self).artists,
                self.albums == old(self).albums,
                self.index == old(self).index,
                self.album_id_store == old(self).album_id_store,
                self.song_id_store == old(self).song_id_store,
                self.artist_id_store == old(self).artist_id_store,
                forall|a: int, b: int|
                    0 <= a < olds.len() && 0 <= b < olds.len() && a != b ==> #[trigger] olds[a].id
                        != #[trigger] olds[b].id,
                k + rest@.len() == olds.len(),
                rest@ == olds.subrange(k as int, olds.len() as int),
                forall|c: int| 0 <= c < self.covers@.len() ==> self.has_album(#[trigger] self.covers@[c].id),
                forall|o: int|
                    0 <= o < k ==> (self.covers@.contains(#[trigger] olds[o]) <==> self.has_album(olds[o].id)),
                forall|a: int, b: int|
                    0 <= a < self.covers@.len() && 0 <= b < self.covers@.len() && a != b
                        ==> #[trigger] self.covers@[a].id != #[trigger] self.covers@[b].id,
            decreases rest@.len(),
        {
            let ghost o = k as int;
            let ghost before = self.covers@;
            let cover = rest.remove(0);
            assert(cover == olds[o]);
            assert(rest@ =~= olds.subrange(k + 1, olds.len() as int));
            if self.find_album(cover.id).is_some() {
                let ghost src0 = src;
                self.covers.push(cover);
                proof {
                    src = src.push(o);
                    assert forall|c: int| 0 <= c < self.covers@.len() implies 0 <= #[trigger] src[c] < k + 1
                        && self.covers@[c] == olds[src[c]] by {
                        if c < before.len() {
                            assert(self.covers@[c] == before[c]);
                            assert(src[c] == src0[c]);
                        }
                    }
                    assert forall|c: int| 0 <= c < self.covers@.len() implies self.has_album(#[trigger] self.covers@[c].id) by {
                        if c < before.len() {
                            assert(self.covers@[c] == before[c]);
                        }
                    }
                    assert forall|a: int, b: int|
                        0 <= a < self.covers@.len() && 0 <= b < self.covers@.len() && a != b
                            implies #[trigger] self.covers@[a].id != #[trigger] self.covers@[b].id by {
                        if a == before.len() || b == before.len() {
                            let other = if a == before.len() { b } else { a };
                            assert(self.covers@[other] == before[other]);
                            assert(olds[src0[other]].id != olds[o].id);
                        } else {
                            assert(self.covers@[a] == before[a]);
                            assert(self.covers@[b] == before[b]);
                        }
                    }
                    assert forall|o2: int| 0 <= o2 < k + 1 implies (self.covers@.contains(#[trigger] olds[o2])
                        <==> self.has_album(olds[o2].id)) by {
                        if o2 < k {
                            if before.contains(olds[o2]) {
                                let x = choose|x: int| 0 <= x < before.len() && before[x] == olds[o2];
                                assert(self.covers@[x] == olds[o2]);
                            }
                            if self.covers@.contains(olds[o2]) {
                                let x = choose|x: int| 0 <= x < self.covers@.len() && self.covers@[x] == olds[o2];
                                if x < before.len() {
                                    assert(before[x] == olds[o2]);
                                    assert(before.contains(olds[o2]));
                                } else {
                                    assert(olds[o2].id != olds[o].id);
                                }
                            }
                        } else {
                            assert(self.covers@[before.len() as int] == olds[o]);
                        }
                    }
                }
            } else {
                proof {
                    assert forall|o2: int| 0 <= o2 < k + 1 implies (self.covers@.contains(#[trigger] olds[o2])
                        <==> self.has_album(olds[o2].id)) by {
                        if o2 == k {
                            if self.covers@.contains(olds[o2]) {
                                let x = choose|x: int| 0 <= x < self.covers@.len() && self.covers@[x] == olds[o2];
                                assert(olds[src[x]].id != olds[o].id);
                            }
                        }
                    }
                }
            }
            k = k + 1;
        }
        proof {
            assert forall|c: int| 0 <= c < self.covers@.len() implies old(self).covers@.contains(
                #[trigger] self.covers@[c],
            ) && self.has_album(self.covers@[c].id) by {
                assert(olds[src[c]] == self.covers@[c]);
            }
            assert(k == olds.len());
            assert(self.covers@ =~= Seq::new(src.len(), |c: int| olds[src[c]]));
        }
    }
}

impl MusicCollection {
    /// Queues `key` with `value` in the index.
    fn queue(di: &mut Di<IdKey>, key: &String, value: IdKey, ghost_prefix: Ghost<Seq<(Seq<char>, IdKey)>>)
        requires
            old(di).wf(),
            key@.len() <= MAX_TERMS,
            old(di).pending_view() == ghost_prefix@,
            old(di).grammar.entries() == feed_keys(Seq::empty(), ghost_prefix@),
        ensures
            final(di).wf(),
            final(di).pending_view() == ghost_prefix@.push((key@, value)),
            final(di).grammar.entries() == feed_keys(Seq::empty(), ghost_prefix@.push((key@, value))),
            final(di).key_counts() == old(di).key_counts(),
            final(di).groups() == old(di).groups(),
            final(di).eps_num == old(di).eps_num,
            final(di).eps_den == old(di).eps_den,
    {
        di.insert(key.as_str(), value);
        assert(ghost_prefix@.push((key@, value)).drop_last() =~= ghost_prefix@);
    }

    /// Builds the index afresh from the catalog (see `SearchIndex::index`).
    /// Stale keys of removed entries are gone afterwards.
    pub fn rebuild_index(&mut self)
        requires
            old(self).wf(),
        ensures
            final(self).wf(),
            final(self).artists == old(self).artists,
            final(self).albums == old(self).albums,
            final(self).songs == old(self).songs,
            final(self).covers == old(self).covers,
            indexes(final(self).index, *old(self)),
    {
        let built = SearchIndex::index(self);
        self.index = built.di;
    }
}

/// Whether `di` is the index built from the catalog `c`: every key of
/// `index_entries(c)` fed to an empty vocabulary, then finalized.
pub open spec fn indexes(di: Di<IdKey>, c: MusicCollection) -> bool {
    &&& di.wf()
    &&& di.eps_num == EPSILON_NUM
    &&& di.eps_den == EPSILON_DEN
    &&& di.pending_view().len() == 0
    &&& di.grammar.entries() == feed_keys(Seq::empty(), index_entries(c))
    &&& (di.key_counts(), di.groups()) == absorb_all(
        (Seq::<Seq<u64>>::empty(), Seq::<Seq<IdKey>>::empty()),
        index_entries(c),
        di.grammar.words(),
        EPSILON_NUM as int,
        EPSILON_DEN as int,
    )
}

/// Indexing is reproducible: indexes built from two catalogs that list the
/// same titles and names, with the same identities, in the same order, give
/// the same result for every search.
pub proof fn lemma_same_catalog_same_search(
    c1: MusicCollection,
    c2: MusicCollection,
    d1: Di<IdKey>,
    d2: Di<IdKey>,
    query: Seq<char>,
    max: usize,
    r1: Seq<(Seq<IdKey>, Score)>,
    r2: Seq<(Seq<IdKey>, Score)>,
)
    requires
        index_entries(c1) == index_entries(c2),
        indexes(d1, c1),
        indexes(d2, c2),
        searched(d1, query, max, r1),
        searched(d2, query, max, r2),
    ensures
        r1 == r2,
{
    assert(d1.grammar.entries() == d2.grammar.entries());
    assert(d1.grammar.words() == d2.grammar.words());
    lemma_search_determined(d1, d2, query, max, r1, r2);
}

/// Whether `c` holds a song with identity `sid` filed under `album`.
pub open spec fn holds_song(c: MusicCollection, sid: Id, album: Option<Id>) -> bool {
    exists|i: int| 0 <= i < c.songs@.len() && c.songs@[i].id == sid && c.songs@[i].album == album
}

/// Identities are derived from content: indexing one file with the same
/// tags, into any two catalogs, files its song under the same identity and
/// the same album identity in both.
pub proof fn lemma_identities_stable(
    c1: MusicCollection,
    c2: MusicCollection,
    n1: MusicCollection,
    n2: MusicCollection,
    path: Seq<char>,
    t: TrackTags,
    r1: Option<usize>,
    r2: Option<usize>,
)
    requires
        file_indexed(c1, path, t, n1, r1),
        file_indexed(c2, path, t, n2, r2),
    ensures
        ({
            let album = match t.album {
                Some(n) => Some(album_id_of(n@, album_artist_of(t))),
                None => None,
            };
            holds_song(n1, song_id_of(path), album) && holds_song(n2, song_id_of(path), album)
        }),
{
    let m1 = choose|m: MusicCollection| song_removed(c1, m, song_id_of(path)) && file_filed(m, path, t, n1, r1);
    let m2 = choose|m: MusicCollection| song_removed(c2, m, song_id_of(path)) && file_filed(m, path, t, n2, r2);
    let sa = choose|s: Song|
        song_matches(s, path, t, add_names(artist_view(m1), tag_artists(t)).2) && song_put(m1.songs@, n1.songs@, s);
    let sb = choose|s: Song|
        song_matches(s, path, t, add_names(artist_view(m2), tag_artists(t)).2) && song_put(m2.songs@, n2.songs@, s);
    lemma_song_put(m1.songs@, n1.songs@, sa);
    lemma_song_put(m2.songs@, n2.songs@, sb);
    let i = choose|i: int| 0 <= i < n1.songs@.len() && n1.songs@[i] == sa;
    let j = choose|j: int| 0 <= j < n2.songs@.len() && n2.songs@[j] == sb;
    assert(n1.songs@[i].id == song_id_of(path));
    assert(n2.songs@[j].id == song_id_of(path));
}

/// The search index of a catalog.
pub struct SearchIndex {
    pub di: Di<IdKey>,
}

impl SearchIndex {
    /// Builds the index of `collection`: every song title, artist name and
    /// album name is queued, in that order, and the queue is finalized.
    #[verifier::rlimit(60)]
    pub fn index(collection: &MusicCollection) -> (r: SearchIndex)
        requires
            collection.wf(),
        ensures
            indexes(r.di, *collection),
    {
        let ghost all = index_entries(*collection);
        let ghost ns = collection.songs@.len() as int;
        let ghost na = collection.artists@.len() as int;
        let mut di: Di<IdKey> = Di::new(EPSILON_NUM, EPSILON_DEN);
        assert(di.pending_view() =~= all.take(0));
        assert(di.grammar.entries() =~= feed_keys(Seq::empty(), all.take(0)));
        let mut i: usize = 0;
        while i < collection.songs.len()
            invariant
                collection.wf(),
                all == index_entries(*collection),
                ns == collection.songs@.len(),
                i <= ns,
                di.wf(),
                di.eps_num == EPSILON_NUM,
                di.eps_den == EPSILON_DEN,
                di.key_counts().len() == 0,
                di.groups().len() == 0,
                di.pending_view() == all.take(i as int),
                di.grammar.entries() == feed_keys(Seq::empty(), all.take(i as int)),
            decreases ns - i,
        {
            assert(collection.songs@[i as int].title@.len() <= MAX_TERMS);
            assert(all.take(i as int).push(all[i as int]) =~= all.take(i + 1));
            MusicCollection::queue(&mut di, &collection.songs[i].title, IdKey::SongTitle(collection.songs[i].id), Ghost(all.take(i as int)));
            i = i + 1;
        }
        let mut j: usize = 0;
        while j < collection.artists.len()
            invariant
                collection.wf(),
                all == index_entries(*collection),
                ns == collection.songs@.len(),
                na == collection.artists@.len(),
                j <= na,
                di.wf(),
                di.eps_num == EPSILON_NUM,
                di.eps_den == EPSILON_DEN,
                di.key_counts().len() == 0,
                di.groups().len() == 0,
                di.pending_view() == all.take(ns + j),
                di.grammar.entries() == feed_keys(Seq::empty(), all.take(ns + j)),
            decreases na - j,
        {
            assert(collection.artists@[j as int].name@.len() <= MAX_TERMS);
            assert(all.take(ns + j).push(all[ns + j]) =~= all.take(ns + j + 1));
            MusicCollection::queue(&mut di, &collection.artists[j].name, IdKey::ArtistName(collection.artists[j].id), Ghost(all.take(ns + j)));
            j = j + 1;
        }
        let mut k: usize = 0;
        while k < collection.albums.len()
            invariant
                collection.wf(),
                all == index_entries(*collection),
                ns == collection.songs@.len(),
                na == collection.artists@.len(),
                k <= collection.albums@.len(),
                di.wf(),
                di.eps_num == EPSILON_NUM,
                di.eps_den == EPSILON_DEN,
                di.key_counts().len() == 0,
                di.groups().len() == 0,
                di.pending_view() == all.take(ns + na + k),
                di.grammar.entries() == feed_keys(Seq::empty(), all.take(ns + na + k)),
            decreases collection.albums@.len() - k,
        {
            assert(collection.albums@[k as int].name@.len() <= MAX_TERMS);
            assert(all.take(ns + na + k).push(all[ns + na + k]) =~= all.take(ns + na + k + 1));
            MusicCollection::queue(&mut di, &collection.albums[k].name, IdKey::AlbumName(collection.albums[k].id), Ghost(all.take(ns + na + k)));
            k = k + 1;
        }
        assert(all.take(ns + na + collection.albums@.len() as int) =~= all);
        assert(di.key_counts() =~= Seq::<Seq<u64>>::empty());
        assert(di.groups() =~= Seq::<Seq<IdKey>>::empty());
        di.finalize();
        SearchIndex { di }
    }
}

/// Whether `a` is one of `olds` with the song `sid` taken out of its list.
pub open spec fn from_album(a: Album, olds: Seq<Album>, sid: Id) -> bool {
    exists|o: int| 0 <= o < olds.len() && #[trigger] album_without(a, olds[o], sid)
}

/// What the catalog's index holds: every song title, artist name and album
/// name, in that order, each with what it points at.
pub open spec fn index_entries(c: MusicCollection) -> Seq<(Seq<char>, IdKey)> {
    Seq::new(c.songs@.len(), |i: int| (c.songs@[i].title@, IdKey::SongTitle(c.songs@[i].id)))
        + Seq::new(c.artists@.len(), |i: int| (c.artists@[i].name@, IdKey::ArtistName(c.artists@[i].id)))
        + Seq::new(c.albums@.len(), |i: int| (c.albums@[i].name@, IdKey::AlbumName(c.albums@[i].id)))
}

/// A vocabulary after the keys `ks` are fed to it, in order.
pub open spec fn feed_keys(g: Seq<(Seq<char>, usize)>, ks: Seq<(Seq<char>, IdKey)>) -> Seq<(Seq<char>, usize)>
    decreases ks.len(),
{
    if ks.len() == 0 {
        g
    } else {
        add_tokens(feed_keys(g, ks.drop_last()), tokens_of(ks.last().0))
    }
}

/// Whether one of `albums` has identity `id`.
pub open spec fn before_has(albums: Seq<Album>, id: Id) -> bool {
    exists|x: int| 0 <= x < albums.len() && albums[x].id == id
}

} // verus!
