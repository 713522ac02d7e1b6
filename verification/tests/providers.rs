use frontier_sim::premiumize::{
    bad_status, best_filename, is_playable, item_candidate, PmItem, PmItemDetails,
    PmListAllResponse, PremiumizeProvider,
};
use frontier_sim::provider::{
    extract_filename, find_asset, lower_half, map_call_failure, sorted_by_size, unsigned,
    video_extension, video_name, AssetKey, AssetRef, CallFailure, CallMethod, ProviderError,
};
use frontier_sim::realdebrid::{
    RdTorrent, RdTorrentFile, RdTorrentInfo, RdUnrestricted, RealDebridProvider, TorrentListing,
};

fn asset(provider: &str, id: &str, index: Option<u32>, size: u64) -> AssetRef {
    AssetRef {
        key: AssetKey {
            provider: provider.to_string(),
            item_id: id.to_string(),
            file_index: index,
            size_bytes: size,
        },
        filename: format!("{id}.mkv"),
    }
}

fn file(id: i64, path: &str, bytes: i64, selected: i32) -> RdTorrentFile {
    RdTorrentFile { id, path: Some(path.to_string()), bytes: Some(bytes), selected }
}

fn info(files: Vec<RdTorrentFile>, links: &[&str]) -> RdTorrentInfo {
    RdTorrentInfo {
        id: "T".to_string(),
        files,
        links: links.iter().map(|l| l.to_string()).collect(),
    }
}

fn item(id: &str, name: Option<&str>, size: Option<i64>) -> PmItem {
    PmItem {
        id: id.to_string(),
        name: name.map(|n| n.to_string()),
        size,
        mime_type: None,
        path: None,
    }
}

fn text(s: &str) -> Option<String> {
    Some(s.to_string())
}

#[test]
fn keys_are_written_with_colons() {
    assert_eq!(
        asset("realdebrid", "ABC123", Some(1), 52_428_800_000).key.canonical(),
        "realdebrid:ABC123:1:52428800000"
    );
    assert_eq!(asset("premiumize", "abc", None, 5_000).key.canonical(), "premiumize:abc:5000");
}

#[test]
fn different_keys_have_different_texts() {
    let keys = [
        asset("a", "b", None, 12),
        asset("a", "b", Some(1), 2),
        asset("a", "b", Some(12), 0),
        asset("a", "b1", None, 2),
    ];
    for (i, x) in keys.iter().enumerate() {
        for (j, y) in keys.iter().enumerate() {
            assert_eq!(x.key.canonical() == y.key.canonical(), i == j);
        }
    }
}

#[test]
fn larger_assets_come_first() {
    let sorted = sorted_by_size(vec![
        asset("p", "a", None, 5),
        asset("p", "b", None, 9),
        asset("p", "c", None, 5),
        asset("p", "d", None, 7),
    ]);
    let ids: Vec<&str> = sorted.iter().map(|a| a.key.item_id.as_str()).collect();
    assert_eq!(ids, vec!["b", "d", "a", "c"]);
}

#[test]
fn listed_key_is_found_again() {
    let assets = vec![asset("p", "a", None, 5), asset("p", "b", Some(3), 9)];
    assert_eq!(find_asset(&assets, "p:b:3:9"), Some(1));
    assert_eq!(find_asset(&assets, &assets[0].key.canonical()), Some(0));
    assert_eq!(find_asset(&assets, "p:b:9"), None);
    assert_eq!(find_asset(&[], "p:b:9"), None);
}

#[test]
fn errors_say_what_happened() {
    let status = |code| CallFailure::Status { code, message: "http status: x".to_string() };
    assert_eq!(map_call_failure(status(401)).message(), "authentication failed: HTTP 401");
    assert_eq!(map_call_failure(status(403)).message(), "authentication failed: HTTP 403");
    assert_eq!(map_call_failure(status(429)).message(), "rate limited, retry after 60s");
    assert_eq!(
        map_call_failure(status(500)).message(),
        "network error: HTTP 500: http status: x"
    );
    assert_eq!(
        map_call_failure(CallFailure::NoResponse("io".to_string())).message(),
        "network error: io"
    );
    assert_eq!(
        map_call_failure(CallFailure::Malformed("eof".to_string())).message(),
        "provider error: JSON parse error: eof"
    );
    assert_eq!(ProviderError::NotFound("x".to_string()).message(), "asset not found: x");
}

#[test]
fn file_names_are_the_ends_of_paths() {
    assert_eq!(extract_filename(Some(" /a/b.mkv/ ")), text("b.mkv"));
    assert_eq!(extract_filename(Some("b.mkv")), text("b.mkv"));
    assert_eq!(extract_filename(Some("//")), None);
    assert_eq!(extract_filename(Some("")), None);
    assert_eq!(extract_filename(None), None);
}

#[test]
fn videos_are_known_by_their_names() {
    for name in [
        "a.mkv", "a.MP4", "a.avi", "a.mov", "a.wmv", "a.ts", "a.m2ts", "a.webm", "a.mpg", "a.mpeg",
    ] {
        assert!(video_name(name));
    }
    assert!(video_extension("a.mkv"));
    assert!(!video_extension("a.MKV"));
    assert!(!video_name("a.mp3"));
    assert!(!video_name("mkv"));
    assert!(!video_name(""));
}

#[test]
fn numbers_keep_their_bits() {
    for n in [0, 1, -1, i64::MIN, i64::MAX, 1 << 40, -(1 << 33) - 5] {
        assert_eq!(unsigned(n), n as u64);
        assert_eq!(lower_half(n), n as u32);
    }
}

#[test]
fn realdebrid_calls() {
    let provider = RealDebridProvider::new("tok".to_string());
    assert_eq!(provider.name(), "realdebrid");
    let call = provider.torrents_call();
    assert_eq!(call.url, "https://api.real-debrid.com/rest/1.0/torrents?limit=200");
    assert_eq!(call.method, CallMethod::Get);
    assert_eq!(call.authorization, text("Bearer tok"));
    let provider = RealDebridProvider::with_base_url("t".to_string(), "http://x".to_string());
    assert_eq!(provider.info_call("ID").url, "http://x/rest/1.0/torrents/info/ID");
    let call = provider.unrestrict_call("L");
    assert_eq!(call.method, CallMethod::PostForm);
    assert_eq!(call.url, "http://x/rest/1.0/unrestrict/link");
    assert_eq!(call.form, vec![("link".to_string(), "L".to_string())]);
    assert_eq!(call.authorization, text("Bearer t"));
}

#[test]
fn only_downloaded_torrents_are_looked_at() {
    let provider = RealDebridProvider::new(String::new());
    let torrent = |id: &str, status: Option<&str>| RdTorrent {
        id: id.to_string(),
        status: status.map(|s| s.to_string()),
    };
    let ids = provider.downloaded(&[
        torrent("a", Some("downloaded")),
        torrent("b", Some("queued")),
        torrent("c", None),
        torrent("d", Some("downloaded")),
    ]);
    assert_eq!(ids, vec!["a", "d"]);
}

#[test]
fn realdebrid_candidates() {
    let provider = RealDebridProvider::new(String::new());
    let first = TorrentListing {
        torrent_id: "A".to_string(),
        info: info(
            vec![
                file(1, "/sample.txt", 50, 0),
                file(2, "/x/Movie.MKV", 700, 1),
                file(3, "/empty.mkv", 0, 1),
            ],
            &["l2", "l3"],
        ),
    };
    let second = TorrentListing {
        torrent_id: "B".to_string(),
        info: info(
            vec![file(7, "/big.mp4", 900, 0), file(8, "/no-link.mp4", 9_999, 0)],
            &["l7"],
        ),
    };
    let assets = provider.list_candidates(&[first, second]);
    let keys: Vec<String> = assets.iter().map(|a| a.key.canonical()).collect();
    assert_eq!(keys, vec!["realdebrid:B:7:900", "realdebrid:A:2:700"]);
    assert_eq!(assets[1].filename, "Movie.MKV");
}

#[test]
fn realdebrid_links_belong_to_selected_files() {
    let provider = RealDebridProvider::new(String::new());
    let selected = info(
        vec![file(1, "/a.mkv", 1, 0), file(2, "/b.mkv", 1, 1), file(3, "/c.mkv", 1, 1)],
        &["link-b", "link-c"],
    );
    assert_eq!(provider.find_link(&asset("r", "T", Some(3), 1), &selected).unwrap(), "link-c");
    match provider.find_link(&asset("r", "T", Some(1), 1), &selected) {
        Err(ProviderError::NotFound(message)) => {
            assert_eq!(message, "File index 1 not found in torrent T");
        }
        _ => panic!("expected no link"),
    }
    let plain = info(
        vec![file(0, "/a.mkv", 1, 1), file(5, "/b.mkv", 1, 0)],
        &["link-a", "link-b"],
    );
    assert_eq!(provider.find_link(&asset("r", "T", Some(5), 1), &plain).unwrap(), "link-b");
    assert_eq!(provider.find_link(&asset("r", "T", None, 1), &plain).unwrap(), "link-a");
}

#[test]
fn realdebrid_resolution() {
    let provider = RealDebridProvider::new(String::new());
    let wanted = asset("realdebrid", "T", Some(1), 10);
    let details = provider.inspect(&wanted);
    assert_eq!(details.key, wanted.key);
    assert_eq!(details.filename, "T.mkv");
    assert_eq!(details.mime_type, None);
    let resolved = provider
        .resolve_direct_url(
            &wanted,
            RdUnrestricted { filename: text("n"), filesize: Some(11), download: text("u") },
            99,
        )
        .unwrap();
    assert_eq!(resolved.key, wanted.key);
    assert_eq!(resolved.direct_url, "u");
    assert_eq!(resolved.filename, "n");
    assert_eq!(resolved.size_bytes, 11);
    assert_eq!(resolved.resolved_at_ms, 99);
    let bare = provider
        .resolve_direct_url(
            &wanted,
            RdUnrestricted { filename: None, filesize: None, download: text("u") },
            1,
        )
        .unwrap();
    assert_eq!(bare.filename, "T.mkv");
    assert_eq!(bare.size_bytes, 10);
    let none = RdUnrestricted { filename: None, filesize: None, download: None };
    assert_eq!(
        provider.resolve_direct_url(&wanted, none, 1).unwrap_err().message(),
        "provider error: Unrestrict response missing download URL"
    );
}

#[test]
fn premiumize_calls() {
    let provider = PremiumizeProvider::new("k".to_string());
    assert_eq!(provider.name(), "premiumize");
    let call = provider.list_call();
    assert_eq!(call.url, "https://www.premiumize.me/api/item/listall");
    assert_eq!(call.query, vec![("apikey".to_string(), "k".to_string())]);
    assert_eq!(call.authorization, None);
    let provider = PremiumizeProvider::with_base_url("k".to_string(), "http://x".to_string());
    let call = provider.details_call(&asset("premiumize", "I", None, 1));
    assert_eq!(call.url, "http://x/item/details");
    assert_eq!(
        call.query,
        vec![
            ("apikey".to_string(), "k".to_string()),
            ("id".to_string(), "I".to_string())
        ]
    );
}

#[test]
fn premiumize_candidates() {
    let provider = PremiumizeProvider::new(String::new());
    let mut typed = item("c", None, Some(50));
    typed.mime_type = text(" Video/MP4");
    let mut by_path = item("d", Some("  "), Some(60));
    by_path.path = text("/x/y.webm/");
    let response = PmListAllResponse {
        status: text("success"),
        files: Some(vec![
            item("a", Some(" a.mkv "), Some(10)),
            item("b", Some("b.txt"), Some(99)),
            typed,
            by_path,
            item("e", Some("e.mkv"), None),
            item("f", Some("f.mkv"), Some(0)),
        ]),
    };
    let assets = provider.list_candidates(response).unwrap();
    let listed: Vec<(String, String)> =
        assets.iter().map(|a| (a.key.canonical(), a.filename.clone())).collect();
    assert_eq!(
        listed,
        vec![
            ("premiumize:d:60".to_string(), "y.webm".to_string()),
            ("premiumize:c:50".to_string(), "unknown".to_string()),
            ("premiumize:a:10".to_string(), "a.mkv".to_string()),
        ]
    );
    let empty = PmListAllResponse { status: text("success"), files: None };
    assert!(provider.list_candidates(empty).unwrap().is_empty());
}

#[test]
fn premiumize_status_is_reported() {
    let provider = PremiumizeProvider::new(String::new());
    let failed = PmListAllResponse { status: text("err\"or"), files: None };
    assert_eq!(
        provider.list_candidates(failed).unwrap_err().message(),
        "provider error: Premiumize API reported status: Some(\"err\\\"or\")"
    );
    let none = PmListAllResponse { status: None, files: None };
    assert_eq!(
        provider.list_candidates(none).unwrap_err().message(),
        "provider error: Premiumize API reported status: None"
    );
    assert_eq!(
        bad_status("x").message(),
        "provider error: Premiumize API reported status: x"
    );
}

#[test]
fn premiumize_names_and_types() {
    assert_eq!(best_filename(Some(" n "), Some("/p")), text("n"));
    assert_eq!(best_filename(None, Some("/q/p")), text("p"));
    assert_eq!(best_filename(None, None), None);
    assert!(is_playable(None, Some("VIDEO/x")));
    assert!(!is_playable(None, Some("audio/x")));
    assert!(is_playable(Some("x.TS"), Some("audio/x")));
    assert!(!is_playable(None, None));
    assert!(item_candidate(&item("a", Some("a.mkv"), Some(-1))).unwrap().key.size_bytes == u64::MAX);
}

#[test]
fn premiumize_resolution() {
    let provider = PremiumizeProvider::new(String::new());
    let wanted = asset("premiumize", "I", None, 10);
    let details = |link: Option<&str>, stream: Option<&str>| PmItemDetails {
        id: None,
        name: text("name.mkv"),
        size: Some(12),
        mime_type: text("video/x"),
        link: link.map(|l| l.to_string()),
        stream_link: stream.map(|l| l.to_string()),
    };
    let seen = provider.inspect(&wanted, details(None, None));
    assert_eq!(seen.filename, "name.mkv");
    assert_eq!(seen.mime_type, text("video/x"));
    let both = provider.resolve_direct_url(&wanted, details(Some("l"), Some("s")), 5).unwrap();
    assert_eq!(both.direct_url, "s");
    assert_eq!(both.filename, "name.mkv");
    assert_eq!(both.size_bytes, 12);
    assert_eq!(both.resolved_at_ms, 5);
    let mut plain = details(Some("l"), None);
    plain.name = None;
    plain.size = None;
    let plain = provider.resolve_direct_url(&wanted, plain, 5).unwrap();
    assert_eq!(plain.direct_url, "l");
    assert_eq!(plain.filename, "I.mkv");
    assert_eq!(plain.size_bytes, 10);
    assert_eq!(
        provider.resolve_direct_url(&wanted, details(None, None), 5).unwrap_err().message(),
        "asset not found: Premiumize item I has no downloadable URL"
    );
}
