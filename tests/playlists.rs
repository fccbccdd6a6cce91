use lorchestre::config::{daemon_, lang_or_default, Config, Global, Network};
use lorchestre::playlist::{ImageSize, M3U8, PlaylistAction, PlaylistData};

fn strings(xs: &[&str]) -> Vec<String> {
    xs.iter().map(|x| x.to_string()).collect()
}

fn list() -> PlaylistData {
    PlaylistData {
        metadata: vec![("Name".to_string(), "Mix".to_string())],
        tracks: strings(&["/a", "/b", "/a", "/c"]),
        path: "/p.playlist".to_string(),
        path_base64: String::new(),
    }
}

#[test]
fn remove_tracks_drops_every_copy() {
    let mut p = list();
    p.update(PlaylistAction::RemoveTracks(strings(&["/a"])));
    assert_eq!(p.tracks, strings(&["/b", "/c"]));
}

#[test]
fn add_tracks_appends() {
    let mut p = list();
    p.update(PlaylistAction::AddTracks(strings(&["/d"])));
    assert_eq!(p.tracks, strings(&["/a", "/b", "/a", "/c", "/d"]));
}

#[test]
fn update_order_replaces_tracks() {
    let mut p = list();
    p.update(PlaylistAction::UpdateOrder(strings(&["/c"])));
    assert_eq!(p.tracks, strings(&["/c"]));
}

#[test]
fn metadata_is_set_and_removed() {
    let mut p = list();
    p.update(PlaylistAction::AddMeta("Name".to_string(), "Other".to_string()));
    p.update(PlaylistAction::AddMeta("Author".to_string(), "Me".to_string()));
    assert_eq!(
        p.metadata,
        vec![("Name".to_string(), "Other".to_string()), ("Author".to_string(), "Me".to_string())]
    );
    p.update(PlaylistAction::RemoveMeta("Name".to_string()));
    assert_eq!(p.metadata, vec![("Author".to_string(), "Me".to_string())]);
}

#[test]
fn m3u8_keeps_entries_and_skips_comments() {
    let text = "#EXTM3U\n#EXTINF:1,x\n/music/a.mp3\r\n\n/music/b.mp3";
    let p = M3U8::parse("list", "/music/list.m3u8", text);
    assert_eq!(p.name, "list");
    assert_eq!(p.tracks, strings(&["/music/a.mp3", "/music/b.mp3"]));
    let d = PlaylistData::from_m3u8_playlist(p);
    assert_eq!(d.metadata, vec![("Name".to_string(), "list".to_string())]);
    assert_eq!(d.path_base64, "L211c2ljL2xpc3QubTN1OA==");
}

#[test]
fn image_size_parses_width_and_height() {
    assert_eq!(ImageSize { size: "300x200".to_string() }.parse(), Some((300, 200)));
    assert_eq!(ImageSize { size: "300".to_string() }.parse(), None);
    assert_eq!(ImageSize { size: "ax2".to_string() }.parse(), None);
    assert_eq!(ImageSize { size: "+1x2".to_string() }.parse(), Some((1, 2)));
}

#[test]
fn config_defaults() {
    let n = Network::default();
    assert_eq!(n.port, Some(7700));
    assert_eq!(n.host.as_deref(), Some("localhost"));
    let g = Global::default();
    assert_eq!(g.enable_blur, Some(false));
    assert_eq!(g.theme.as_deref(), Some("auto"));
    assert!(g.lang.is_some());
    let c = Config::default();
    assert!(c.global.is_some());
    assert_eq!(c.network.unwrap().port, Some(7700));
}

#[test]
fn daemon_endpoint_uses_defaults_for_missing_parts() {
    let c = Config { global: None, network: None };
    assert_eq!(daemon_(&c), "localhost:7700");
    let c = Config { global: None, network: Some(Network { port: Some(80), host: None }) };
    assert_eq!(daemon_(&c), "localhost:80");
    let c = Config {
        global: None,
        network: Some(Network { port: None, host: Some("10.0.0.2".to_string()) }),
    };
    assert_eq!(daemon_(&c), "10.0.0.2:7700");
    let c = Config { global: None, network: Some(Network { port: Some(0), host: None }) };
    assert_eq!(daemon_(&c), "localhost:0");
}

#[test]
fn image_size_numbers_follow_u32_parsing() {
    assert_eq!(ImageSize { size: "4294967295x1".to_string() }.parse(), Some((4294967295, 1)));
    assert_eq!(ImageSize { size: "4294967296x1".to_string() }.parse(), None);
    assert_eq!(ImageSize { size: "x1".to_string() }.parse(), None);
    assert_eq!(ImageSize { size: "+x1".to_string() }.parse(), None);
    assert_eq!(ImageSize { size: "-1x1".to_string() }.parse(), None);
    assert_eq!(ImageSize { size: "007x08".to_string() }.parse(), Some((7, 8)));
    assert_eq!(ImageSize { size: "1x2x3".to_string() }.parse(), None);
}

#[test]
fn lang_falls_back_to_en_gb() {
    assert_eq!(lang_or_default(None), "en-GB");
    assert_eq!(lang_or_default(Some("fr-FR".to_string())), "fr-FR");
}
