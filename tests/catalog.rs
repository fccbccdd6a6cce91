use lorchestre::cache::{
    compare_caches, encode_path_list, needs_update, parse_path_list, plan_sync, CacheCompareDiff,
    SyncPlan,
};
use lorchestre::catalog::{Cover, IdKey, MusicCollection, SearchIndex};
use lorchestre::ids::{Id, IdStore};
use lorchestre::tags::{cover_ext, genre_list, ImageMime, PictureKind, TagPicture, TrackTags};

fn strings(xs: &[&str]) -> Vec<String> {
    xs.iter().map(|x| x.to_string()).collect()
}

fn tags(title: &str, artists: &str, album: Option<&str>, genre: Option<&str>) -> TrackTags {
    TrackTags {
        title: Some(title.to_string()),
        artists: Some(artists.to_string()),
        album: album.map(|a| a.to_string()),
        album_artist: None,
        genre: genre.map(|g| g.to_string()),
        year: None,
        original_year: None,
        track: Some(1),
        track_total: Some(10),
        disc: None,
        disc_total: None,
        encoder: None,
        lyrics: None,
        pictures: vec![],
        bitrate: 320,
        duration: 200,
        created_at: 5,
    }
}

fn album_of(c: &MusicCollection, song: Id) -> Option<Id> {
    c.get_song(&song).and_then(|s| s.album)
}

fn song_id(path: &str) -> Id {
    IdStore::new().digest(path.as_bytes())
}

#[test]
fn digest_is_md5() {
    assert_eq!(IdStore::new().digest(b""), Id::Digest(0xd41d8cd98f00b204e9800998ecf8427e));
    assert_eq!(song_id("/music/a.flac"), Id::Digest(0x897108bf80a69ea6b4649dc7153d79cd));
    let c = MusicCollection::new();
    assert_eq!(c.album_digest("Album", "Artist"), Id::Digest(0x9b6b2fef633c686132fdb0feb412a249));
}

#[test]
fn numbered_ids_run_out_to_unresolved() {
    let mut s = IdStore::new();
    assert_eq!(s.next(), Id::Number(1));
    assert_eq!(s.next(), Id::Number(2));
    s.current = u64::MAX;
    assert_eq!(s.next(), Id::Unresolved);
}

#[test]
fn compare_caches_reports_both_sides() {
    let prev = strings(&["/a", "/b", "/c"]);
    let curr = strings(&["/b", "/d", "/c", "/e"]);
    let (diff, added, removed) = compare_caches(prev, curr);
    assert_eq!(added, 2);
    assert_eq!(removed, 1);
    assert_eq!(diff.len(), 2);
    match &diff[0] {
        CacheCompareDiff::ToRemove { files } => assert_eq!(files, &strings(&["/a"])),
        _ => panic!("removals come first"),
    }
    match &diff[1] {
        CacheCompareDiff::ToAdd { files } => assert_eq!(files, &strings(&["/d", "/e"])),
        _ => panic!("additions come second"),
    }
}

#[test]
fn compare_caches_same_sets_is_no_diff() {
    let (diff, added, removed) = compare_caches(strings(&["/a", "/b"]), strings(&["/b", "/a"]));
    assert_eq!((added, removed), (0, 0));
    assert_eq!(diff.len(), 1);
    assert!(matches!(diff[0], CacheCompareDiff::NoDiff));
    let (diff, _, _) = compare_caches(vec![], vec![]);
    assert!(matches!(diff[0], CacheCompareDiff::NoDiff));
}

#[test]
fn plan_sync_decides_the_pass() {
    match plan_sync(strings(&["/a"]), strings(&["/a", "/b"]), false) {
        SyncPlan::Rebuild { files } => assert_eq!(files, strings(&["/a", "/b"])),
        _ => panic!("no snapshot means a rebuild"),
    }
    let p = plan_sync(strings(&["/a"]), strings(&["/a"]), true);
    assert!(matches!(p, SyncPlan::Unchanged));
    assert!(!needs_update(&p));
    let p = plan_sync(strings(&["/a", "/x"]), strings(&["/a", "/b"]), true);
    match &p {
        SyncPlan::Apply { to_remove, to_add } => {
            assert_eq!(to_remove, &strings(&["/x"]));
            assert_eq!(to_add, &strings(&["/b"]));
        }
        _ => panic!("a changed listing is applied"),
    }
    assert!(needs_update(&p));
}

#[test]
fn genres_split_on_semicolons_else_spaces() {
    assert_eq!(genre_list("Rock; Pop ;Jazz"), strings(&["Rock", "Pop", "Jazz"]));
    assert_eq!(genre_list("Rock Pop"), strings(&["Rock", "Pop"]));
}

#[test]
fn cover_extensions() {
    assert_eq!(cover_ext(&ImageMime::Png), ".png");
    assert_eq!(cover_ext(&ImageMime::Jpeg), ".jpeg");
    assert_eq!(cover_ext(&ImageMime::Unknown("webp".to_string())), ".webp");
    assert_eq!(cover_ext(&ImageMime::Else), ".png");
}

#[test]
fn add_artist_dedups_by_exact_name() {
    let mut c = MusicCollection::new();
    let a = c.add_artist("Nina".to_string());
    let b = c.add_artist("Nina".to_string());
    let d = c.add_artist("nina".to_string());
    assert_eq!(a, b);
    assert_ne!(a, d);
    assert_eq!(c.artists.len(), 2);
    assert_eq!(c.get_artist_id_by_name("Nina"), Some(a));
    assert_eq!(c.get_artist_id_by_name("Nobody"), None);
}

#[test]
fn index_file_files_song_album_and_artists() {
    let mut c = MusicCollection::new();
    let t = tags("Clair de lune", "Debussy; Pianist ;;", Some("Suite"), Some("Classical"));
    assert_eq!(c.index_file("/music/a.flac", &t), None);
    let sid = song_id("/music/a.flac");
    let song = c.get_song(&sid).expect("the song is filed");
    assert_eq!(song.title, "Clair de lune");
    assert_eq!(song.file_path, "/music/a.flac");
    assert_eq!(song.artists.len(), 2);
    assert_eq!(song.disc, 1);
    assert_eq!(song.track, 1);
    let names: Vec<String> = c.artists.iter().map(|a| a.name.clone()).collect();
    assert_eq!(names, strings(&["Debussy", "Pianist"]));
    let aid = c.album_digest("Suite", "Debussy");
    assert_eq!(song.album, Some(aid));
    let album = c.get_album(&aid).expect("the album is filed");
    assert_eq!(album.name, "Suite");
    assert_eq!(album.songs, vec![sid]);
    assert_eq!(album.genres, strings(&["Classical"]));
    assert_eq!(album.songs_count, 10);
    assert_eq!(album.disc_total, 1);
    assert_eq!(album.artist, Some(song.artists[0]));
}

#[test]
fn album_merge_unites_genres() {
    let mut c = MusicCollection::new();
    c.index_file("/m/1.mp3", &tags("One", "Band", Some("Record"), Some("Rock;Indie")));
    c.index_file("/m/2.mp3", &tags("Two", "Band", Some("Record"), Some("Indie;Pop")));
    let a1 = album_of(&c, song_id("/m/1.mp3"));
    let a2 = album_of(&c, song_id("/m/2.mp3"));
    assert!(a1.is_some());
    assert_eq!(a1, a2);
    let album = c.get_album(&a1.unwrap()).unwrap();
    assert_eq!(album.genres, strings(&["Rock", "Indie", "Pop"]));
    assert_eq!(album.songs, vec![song_id("/m/1.mp3"), song_id("/m/2.mp3")]);
    assert_eq!(c.albums.len(), 1);
}

#[test]
fn album_artist_tag_takes_precedence() {
    let mut c = MusicCollection::new();
    let mut t = tags("One", "Guest", Some("Record"), None);
    t.album_artist = Some("Band".to_string());
    c.index_file("/m/1.mp3", &t);
    let aid = c.album_digest("Record", "Band");
    assert_eq!(album_of(&c, song_id("/m/1.mp3")), Some(aid));
    assert_eq!(c.get_album(&aid).unwrap().artist, None);
}

#[test]
fn song_without_album_is_kept_unlinked() {
    let mut c = MusicCollection::new();
    c.index_file("/m/x.ogg", &tags("Loose", "Someone", None, None));
    let s = c.get_song(&song_id("/m/x.ogg")).unwrap();
    assert_eq!(s.album, None);
    assert!(c.albums.is_empty());
}

#[test]
fn missing_artist_files_under_unknown() {
    let mut c = MusicCollection::new();
    let mut t = tags("Anon", "", Some("Nameless"), None);
    t.artists = None;
    c.index_file("/m/y.ogg", &t);
    assert_eq!(album_of(&c, song_id("/m/y.ogg")), Some(c.album_digest("Nameless", "@UNKNOWN@")));
}

#[test]
fn new_album_takes_first_cover_by_priority() {
    let mut c = MusicCollection::new();
    let mut t = tags("One", "Band", Some("Record"), None);
    t.pictures = vec![
        TagPicture { kind: PictureKind::CoverBack, mime: ImageMime::Png },
        TagPicture { kind: PictureKind::Media, mime: ImageMime::Jpeg },
        TagPicture { kind: PictureKind::Other, mime: ImageMime::Gif },
    ];
    assert_eq!(c.index_file("/m/1.mp3", &t), Some(1));
    let aid = c.album_digest("Record", "Band");
    assert_eq!(c.covers.len(), 1);
    assert_eq!(c.covers[0].id, aid);
    assert_eq!(c.covers[0].ext, ".jpeg");
    assert_eq!(c.get_album(&aid).unwrap().cover, Some(aid));
    assert_eq!(c.index_file("/m/2.mp3", &t), None);
    assert_eq!(c.covers.len(), 1);
}

#[test]
fn year_falls_back_to_original_release() {
    let mut c = MusicCollection::new();
    let mut t = tags("One", "Band", Some("Record"), None);
    t.original_year = Some("1999".to_string());
    c.index_file("/m/1.mp3", &t);
    assert_eq!(c.get_album(&c.album_digest("Record", "Band")).unwrap().year, Some(1999));
    let mut t2 = tags("One", "Band", Some("Other"), None);
    t2.original_year = Some("1999-05".to_string());
    c.index_file("/m/2.mp3", &t2);
    assert_eq!(c.get_album(&c.album_digest("Other", "Band")).unwrap().year, Some(0));
}

#[test]
fn removing_last_song_drops_album_and_cover() {
    let mut c = MusicCollection::new();
    let mut t = tags("One", "Band", Some("Record"), None);
    t.pictures = vec![TagPicture { kind: PictureKind::CoverFront, mime: ImageMime::Png }];
    c.index_file("/m/1.mp3", &t);
    c.index_file("/m/2.mp3", &tags("Two", "Band", Some("Record"), None));
    let aid = c.album_digest("Record", "Band");
    c.remove_media("/m/1.mp3");
    assert!(c.get_song(&song_id("/m/1.mp3")).is_none());
    assert_eq!(c.get_album(&aid).unwrap().songs, vec![song_id("/m/2.mp3")]);
    assert_eq!(c.covers.len(), 1);
    c.remove_media("/m/2.mp3");
    assert!(c.get_album(&aid).is_none());
    assert!(c.covers.is_empty());
    assert!(c.songs.is_empty());
}

#[test]
fn removing_unknown_song_is_a_no_op() {
    let mut c = MusicCollection::new();
    c.index_file("/m/1.mp3", &tags("One", "Band", Some("Record"), None));
    c.remove_media("/m/none.mp3");
    assert_eq!(c.songs.len(), 1);
    assert_eq!(c.albums.len(), 1);
    assert_eq!(c.artists.len(), 1);
}

fn build() -> MusicCollection {
    let mut c = MusicCollection::new();
    c.index_file("/m/1.mp3", &tags("Le temps", "Band", Some("Record"), Some("Rock")));
    c.index_file("/m/2.mp3", &tags("Lemon tree", "Other", Some("Fruit"), Some("Pop")));
    c.rebuild_index();
    c
}

fn hits(c: &MusicCollection, q: &str) -> Vec<Vec<IdKey>> {
    c.index.search(q, 10).into_iter().map(|(g, _)| g.clone()).collect()
}

#[test]
fn indexing_twice_gives_the_same_catalog() {
    let a = build();
    let b = build();
    let ids = |c: &MusicCollection| -> (Vec<Id>, Vec<Id>, Vec<Id>) {
        (
            c.songs.iter().map(|s| s.id).collect(),
            c.albums.iter().map(|s| s.id).collect(),
            c.artists.iter().map(|s| s.id).collect(),
        )
    };
    assert_eq!(ids(&a), ids(&b));
    assert_eq!(hits(&a, "le"), hits(&b, "le"));
    assert_eq!(hits(&a, "band"), hits(&b, "band"));
}

#[test]
fn catalog_search_finds_titles_artists_and_albums() {
    let c = build();
    let found = hits(&c, "lemon");
    assert_eq!(found, vec![vec![IdKey::SongTitle(song_id("/m/2.mp3"))]]);
    let found = hits(&c, "fruit");
    assert_eq!(found, vec![vec![IdKey::AlbumName(c.album_digest("Fruit", "Other"))]]);
    let band = c.get_artist_id_by_name("Band").unwrap();
    assert_eq!(hits(&c, "band"), vec![vec![IdKey::ArtistName(band)]]);
}

#[test]
fn search_index_builds_from_the_catalog() {
    let mut c = MusicCollection::new();
    c.index_file("/m/1.mp3", &tags("Alpha", "Band", Some("Record"), None));
    let built = SearchIndex::index(&c);
    assert_eq!(built.di.keys.len(), 3);
    assert_eq!(built.di.values[0], vec![IdKey::SongTitle(song_id("/m/1.mp3"))]);
}

#[test]
fn rebuild_drops_removed_entries() {
    let mut c = build();
    c.remove_media("/m/2.mp3");
    c.rebuild_index();
    assert!(hits(&c, "lemon").is_empty());
    assert_eq!(hits(&c, "temps"), vec![vec![IdKey::SongTitle(song_id("/m/1.mp3"))]]);
}

#[test]
fn path_listing_round_trips() {
    let paths = strings(&["/music/a.flac", "/music/b c.mp3"]);
    let text = encode_path_list(&paths);
    assert_eq!(text, "/music/a.flac\n/music/b c.mp3");
    assert_eq!(parse_path_list(&text), paths);
    assert_eq!(parse_path_list("/a\n\n/b\n"), strings(&["/a", "/b"]));
    assert_eq!(encode_path_list(&vec![]), "");
    assert!(parse_path_list("").is_empty());
}

#[test]
fn cover_path_is_content_addressed() {
    let c = Cover { id: Id::Digest(0xd41d8cd98f00b204e9800998ecf8427e), ext: ".png".to_string() };
    assert_eq!(c.get_path("/cache/covers"), Some("/cache/covers/d41d8cd98f00b204e9800998ecf8427e.png".to_string()));
    let small = Cover { id: Id::Digest(0xab), ext: ".jpeg".to_string() };
    assert_eq!(small.get_path("c"), Some("c/000000000000000000000000000000ab.jpeg".to_string()));
    let numbered = Cover { id: Id::Number(3), ext: ".png".to_string() };
    assert_eq!(numbered.get_path("/c"), None);
}

#[test]
fn index_file_queues_artists_album_then_title() {
    let mut c = MusicCollection::new();
    c.index_file("/m/1.mp3", &tags("One", "Band; Guest", Some("Record"), None));
    let aid = c.album_digest("Record", "Band");
    let band = c.get_artist_id_by_name("Band").unwrap();
    let guest = c.get_artist_id_by_name("Guest").unwrap();
    let queued: Vec<(String, IdKey)> = c.index.pending.clone();
    assert_eq!(
        queued,
        vec![
            ("Band".to_string(), IdKey::ArtistName(band)),
            ("Guest".to_string(), IdKey::ArtistName(guest)),
            ("Record".to_string(), IdKey::AlbumName(aid)),
            ("One".to_string(), IdKey::SongTitle(song_id("/m/1.mp3"))),
        ]
    );
    c.index_file("/m/2.mp3", &tags("Two", "Band", Some("Record"), None));
    assert_eq!(c.index.pending.len(), 5);
    assert_eq!(c.index.pending[4], ("Two".to_string(), IdKey::SongTitle(song_id("/m/2.mp3"))));
    assert_eq!(c.artists.len(), 2);
    assert_eq!(c.albums.len(), 1);
    assert_eq!(c.songs.len(), 2);
}

#[test]
fn reindexing_without_album_unlinks_the_song() {
    let mut c = MusicCollection::new();
    c.index_file("/m/1.mp3", &tags("One", "Band", Some("Record"), None));
    c.index_file("/m/2.mp3", &tags("Two", "Band", Some("Record"), None));
    let aid = c.album_digest("Record", "Band");
    c.index_file("/m/1.mp3", &tags("One", "Band", None, None));
    assert_eq!(album_of(&c, song_id("/m/1.mp3")), None);
    assert_eq!(c.get_album(&aid).unwrap().songs, vec![song_id("/m/2.mp3")]);
    assert_eq!(c.songs.len(), 2);
}

#[test]
fn reindexing_the_same_file_lists_it_once() {
    let mut c = MusicCollection::new();
    let t = tags("One", "Band", Some("Record"), Some("Rock"));
    c.index_file("/m/1.mp3", &t);
    c.index_file("/m/1.mp3", &t);
    let aid = c.album_digest("Record", "Band");
    assert_eq!(c.get_album(&aid).unwrap().songs, vec![song_id("/m/1.mp3")]);
    assert_eq!(c.songs.len(), 1);
    assert_eq!(c.albums.len(), 1);
}

#[test]
fn reindexing_under_another_album_drops_the_empty_one() {
    let mut c = MusicCollection::new();
    let mut t = tags("One", "Band", Some("Old"), None);
    t.pictures = vec![TagPicture { kind: PictureKind::CoverFront, mime: ImageMime::Png }];
    c.index_file("/m/1.mp3", &t);
    c.index_file("/m/1.mp3", &tags("One", "Band", Some("New"), None));
    assert!(c.get_album(&c.album_digest("Old", "Band")).is_none());
    assert!(c.covers.is_empty());
    let new_id = c.album_digest("New", "Band");
    assert_eq!(c.get_album(&new_id).unwrap().songs, vec![song_id("/m/1.mp3")]);
}

#[test]
fn merging_takes_the_last_seen_totals() {
    let mut c = MusicCollection::new();
    let mut t1 = tags("One", "Band", Some("Record"), None);
    t1.disc_total = Some(2);
    c.index_file("/m/1.mp3", &t1);
    let mut t2 = tags("Two", "Band", Some("Record"), None);
    t2.track_total = Some(12);
    t2.disc_total = None;
    c.index_file("/m/2.mp3", &t2);
    let album = c.get_album(&c.album_digest("Record", "Band")).unwrap();
    assert_eq!(album.songs_count, 12);
    assert_eq!(album.disc_total, 2);
}
