use merchant_o_rust::config::app_config::{
    forward_url, ApiRouteRoulette, ApplicationConfig, RedirectionReader, ResolvedTarget,
};

fn text(s: &str) -> String {
    s.to_string()
}

fn entry(prefix: &str, backends: &[&str]) -> (String, Vec<String>) {
    (text(prefix), backends.iter().map(|b| text(b)).collect())
}

fn api_table() -> RedirectionReader {
    RedirectionReader::new(vec![entry("/api", &["http://b1", "http://b2"])])
}

fn overlapping_table() -> RedirectionReader {
    RedirectionReader::new(vec![
        entry("/api", &["http://old"]),
        entry("/api/v2", &["http://new"]),
        entry("/static", &["http://files"]),
    ])
}

#[test]
fn three_requests_rotate_over_two_backends() {
    let table = api_table();
    let uri = text("/api/foo");
    assert_eq!(table.match_uri(&uri), Some(text("http://b1/foo")));
    assert_eq!(table.match_uri(&uri), Some(text("http://b2/foo")));
    assert_eq!(table.match_uri(&uri), Some(text("http://b1/foo")));
}

#[test]
fn unknown_path_has_no_target() {
    let table = api_table();
    assert_eq!(table.match_uri(&text("/unknown/path")), None);
    assert_eq!(table.match_prefix("/unknown/path"), None);
    assert_eq!(table.resolve("/unknown/path"), None);
    assert_eq!(table.resolve_with("/unknown/path", 5), None);
    assert_eq!(table.match_uri_with(&text("/unknown/path"), 5), None);
}

#[test]
fn path_shorter_than_every_prefix_has_no_target() {
    let table = api_table();
    assert_eq!(table.match_uri(&text("/ap")), None);
    assert_eq!(table.match_uri(&text("")), None);
}

#[test]
fn path_equal_to_prefix_keeps_nothing_behind_the_backend() {
    let table = api_table();
    assert_eq!(table.match_uri(&text("/api")), Some(text("http://b1")));
}

#[test]
fn prefix_is_matched_literally_not_by_segment() {
    let table = api_table();
    assert_eq!(table.match_uri(&text("/apinotes")), Some(text("http://b1notes")));
}

#[test]
fn query_string_is_kept_verbatim() {
    let table = api_table();
    assert_eq!(
        table.match_uri(&text("/api/users/7?full=true&tag=a%20b")),
        Some(text("http://b1/users/7?full=true&tag=a%20b"))
    );
}

#[test]
fn longest_prefix_wins() {
    let table = overlapping_table();
    assert_eq!(table.match_prefix("/api/v2/x"), Some(text("/api/v2")));
    assert_eq!(table.match_uri(&text("/api/v2/x")), Some(text("http://new/x")));
    assert_eq!(table.match_prefix("/api/v1/x"), Some(text("/api")));
    assert_eq!(table.match_uri(&text("/api/v1/x")), Some(text("http://old/v1/x")));
}

#[test]
fn longest_prefix_wins_whatever_the_order_of_entries() {
    let table = RedirectionReader::new(vec![
        entry("/api/v2", &["http://new"]),
        entry("/api", &["http://old"]),
    ]);
    assert_eq!(table.match_uri(&text("/api/v2/x")), Some(text("http://new/x")));
    assert_eq!(table.match_uri(&text("/api/x")), Some(text("http://old/x")));
}

#[test]
fn empty_group_is_not_registered() {
    let table = RedirectionReader::new(vec![entry("/x", &[])]);
    assert_eq!(table.match_uri(&text("/x/anything")), None);
    assert_eq!(table.match_prefix("/x"), None);
}

#[test]
fn empty_group_leaves_other_entries_alone() {
    let table = RedirectionReader::new(vec![
        entry("/x", &[]),
        entry("/y", &["http://y"]),
        entry("/x/deep", &["http://deep"]),
    ]);
    assert_eq!(table.match_uri(&text("/x/shallow")), None);
    assert_eq!(table.match_uri(&text("/y/1")), Some(text("http://y/1")));
    assert_eq!(table.match_uri(&text("/x/deep/1")), Some(text("http://deep/1")));
}

#[test]
fn later_entry_replaces_earlier_one_for_the_same_prefix() {
    let table = RedirectionReader::new(vec![
        entry("/a", &["http://first"]),
        entry("/b", &["http://b"]),
        entry("/a", &["http://second", "http://third"]),
    ]);
    assert_eq!(table.match_uri(&text("/a/1")), Some(text("http://second/1")));
    assert_eq!(table.match_uri(&text("/a/2")), Some(text("http://third/2")));
    assert_eq!(table.match_uri(&text("/a/3")), Some(text("http://second/3")));
    assert_eq!(table.match_uri(&text("/b/1")), Some(text("http://b/1")));
}

#[test]
fn later_empty_entry_does_not_unregister_a_prefix() {
    let table = RedirectionReader::new(vec![entry("/a", &["http://a"]), entry("/a", &[])]);
    assert_eq!(table.match_uri(&text("/a/1")), Some(text("http://a/1")));
}

#[test]
fn empty_configuration_routes_nothing() {
    let table = RedirectionReader::new(Vec::new());
    assert_eq!(table.match_uri(&text("/")), None);
    assert_eq!(table.match_uri(&text("")), None);
}

#[test]
fn empty_prefix_routes_every_path() {
    let table = RedirectionReader::new(vec![entry("", &["http://all"]), entry("/a", &["http://a"])]);
    assert_eq!(table.match_uri(&text("/zzz")), Some(text("http://all/zzz")));
    assert_eq!(table.match_uri(&text("")), Some(text("http://all")));
    assert_eq!(table.match_uri(&text("/a/x")), Some(text("http://a/x")));
}

#[test]
fn prefixes_and_paths_may_hold_any_characters() {
    let table = RedirectionReader::new(vec![
        entry("/caf\u{e9}", &["http://bar"]),
        entry("/caf", &["http://plain"]),
    ]);
    assert_eq!(table.match_uri(&text("/caf\u{e9}/cr\u{e8}me")), Some(text("http://bar/cr\u{e8}me")));
    assert_eq!(table.match_uri(&text("/cafe/\u{1f600}")), Some(text("http://plaine/\u{1f600}")));
    let found = table.resolve("/caf\u{e9}/x").unwrap();
    assert_eq!(found.matched, 5);
}

#[test]
fn building_twice_gives_tables_that_route_alike() {
    let config = vec![
        entry("/api", &["http://b1", "http://b2", "http://b3"]),
        entry("/api/v2", &["http://n1", "http://n2"]),
        entry("/none", &[]),
    ];
    let first = RedirectionReader::new(config.clone());
    let second = RedirectionReader::new(config);
    for path in ["/api/a", "/api/v2/b", "/none/c", "/other", "/api"] {
        assert_eq!(first.match_prefix(path), second.match_prefix(path));
        for ticket in 0..7 {
            assert_eq!(
                first.match_uri_with(&text(path), ticket),
                second.match_uri_with(&text(path), ticket)
            );
        }
    }
    // The cursors of the two tables move apart without changing the candidates.
    assert_eq!(first.match_uri(&text("/api/a")), Some(text("http://b1/a")));
    assert_eq!(first.match_uri(&text("/api/a")), Some(text("http://b2/a")));
    assert_eq!(second.match_uri(&text("/api/a")), Some(text("http://b1/a")));
}

#[test]
fn resolve_reports_matched_length_and_backend() {
    let table = overlapping_table();
    assert_eq!(
        table.resolve("/api/v2/x"),
        Some(ResolvedTarget { matched: 7, backend: text("http://new") })
    );
    assert_eq!(
        table.resolve_with("/static/app.js", 12345),
        Some(ResolvedTarget { matched: 7, backend: text("http://files") })
    );
}

#[test]
fn resolve_with_selects_by_ticket_modulo_group_size() {
    let table = RedirectionReader::new(vec![entry("/g", &["http://0", "http://1", "http://2"])]);
    assert_eq!(table.match_uri_with(&text("/g/x"), 0), Some(text("http://0/x")));
    assert_eq!(table.match_uri_with(&text("/g/x"), 1), Some(text("http://1/x")));
    assert_eq!(table.match_uri_with(&text("/g/x"), 2), Some(text("http://2/x")));
    assert_eq!(table.match_uri_with(&text("/g/x"), 3), Some(text("http://0/x")));
    assert_eq!(table.match_uri_with(&text("/g/x"), 100), Some(text("http://1/x")));
    // A ticket given by hand leaves the shared cursor where it was.
    assert_eq!(table.match_uri(&text("/g/x")), Some(text("http://0/x")));
}

#[test]
fn each_prefix_rotates_on_its_own() {
    let table = RedirectionReader::new(vec![
        entry("/a", &["http://a1", "http://a2"]),
        entry("/b", &["http://b1", "http://b2"]),
    ]);
    assert_eq!(table.match_uri(&text("/a/x")), Some(text("http://a1/x")));
    assert_eq!(table.match_uri(&text("/a/x")), Some(text("http://a2/x")));
    assert_eq!(table.match_uri(&text("/b/x")), Some(text("http://b1/x")));
    assert_eq!(table.match_uri(&text("/a/x")), Some(text("http://a1/x")));
    assert_eq!(table.match_uri(&text("/b/x")), Some(text("http://b2/x")));
}

#[test]
fn forward_url_appends_what_follows_the_prefix() {
    let target = ResolvedTarget { matched: 4, backend: text("http://b1") };
    assert_eq!(forward_url(&target, "/api/foo?q=1"), "http://b1/foo?q=1");
    let whole = ResolvedTarget { matched: 0, backend: text("http://b1") };
    assert_eq!(forward_url(&whole, "/api"), "http://b1/api");
    let all = ResolvedTarget { matched: 4, backend: text("http://b1") };
    assert_eq!(forward_url(&all, "/api"), "http://b1");
}

#[test]
fn forward_url_appends_nothing_past_the_end_of_the_path() {
    let target = ResolvedTarget { matched: 9, backend: text("http://b1") };
    assert_eq!(forward_url(&target, "/api"), "http://b1");
}

#[test]
fn roulette_starts_with_the_first_backend() {
    let group = ApiRouteRoulette::new(vec![text("a"), text("b"), text("c")]);
    assert_eq!(group.size(), 3);
    assert_eq!(group.next(), "a");
    assert_eq!(group.next(), "b");
    assert_eq!(group.next(), "c");
    assert_eq!(group.next(), "a");
}

#[test]
fn roulette_of_one_backend_always_returns_it() {
    let group = ApiRouteRoulette::new(vec![text("only")]);
    for _ in 0..5 {
        assert_eq!(group.next(), "only");
    }
    assert_eq!(group.select(usize::MAX), "only");
}

#[test]
fn select_stays_in_range_for_every_ticket() {
    let group = ApiRouteRoulette::new(vec![text("a"), text("b"), text("c")]);
    assert_eq!(group.select(0), "a");
    assert_eq!(group.select(4), "b");
    assert_eq!(group.select(5), "c");
    let last = ["a", "b", "c"][usize::MAX % 3];
    assert_eq!(group.select(usize::MAX), last);
}

#[test]
fn rotation_is_fair_over_any_number_of_draws() {
    for size in 1..6usize {
        let names: Vec<String> = (0..size).map(|i| format!("b{}", i)).collect();
        for draws in 0..23usize {
            let group = ApiRouteRoulette::new(names.clone());
            let mut counts = vec![0usize; size];
            for _ in 0..draws {
                let chosen = group.next();
                let slot = names.iter().position(|n| *n == chosen).unwrap();
                counts[slot] += 1;
            }
            let rounds = draws / size;
            let ceiling = (draws + size - 1) / size;
            for count in counts {
                assert!(rounds <= count && count <= ceiling);
                assert!(count <= rounds + ceiling);
            }
        }
    }
}

#[test]
fn rotation_serves_each_backend_once_per_round() {
    let group = ApiRouteRoulette::new(vec![text("a"), text("b"), text("c"), text("d")]);
    let drawn: Vec<String> = (0..8).map(|_| group.next()).collect();
    assert_eq!(drawn, vec!["a", "b", "c", "d", "a", "b", "c", "d"]);
}

#[test]
fn configuration_feeds_the_table() {
    let config = ApplicationConfig {
        log_level: text("info"),
        port: 8188,
        map: vec![entry("/api", &["http://b1"])],
    };
    assert_eq!(config.log_level, "info");
    assert_eq!(config.port, 8188);
    let table = RedirectionReader::new(config.map);
    assert_eq!(table.match_uri(&text("/api/x")), Some(text("http://b1/x")));
}

#[test]
fn entries_without_backends_are_reported() {
    let config = ApplicationConfig {
        log_level: text("warn"),
        port: 80,
        map: vec![
            entry("/x", &[]),
            entry("/api", &["http://b1"]),
            entry("/y", &[]),
            entry("/x", &[]),
        ],
    };
    assert_eq!(config.ignored_prefixes(), vec!["/x", "/y", "/x"]);
    let none = ApplicationConfig {
        log_level: text("warn"),
        port: 80,
        map: vec![entry("/a", &["http://a"])],
    };
    assert!(none.ignored_prefixes().is_empty());
}
