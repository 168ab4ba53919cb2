use merchant_o_rust::config::redirection_reader::RedirectionReader;

fn text(s: &str) -> String {
    s.to_string()
}

fn pair(prefix: &str, backend: &str) -> (String, String) {
    (text(prefix), text(backend))
}

#[test]
fn single_backend_serves_every_request() {
    let table = RedirectionReader::new(vec![pair("/api", "http://b1")]);
    for _ in 0..3 {
        assert_eq!(table.match_uri(&text("/api/foo")), Some(text("http://b1/foo")));
    }
}

#[test]
fn single_backend_table_prefers_the_longest_prefix() {
    let table = RedirectionReader::new(vec![
        pair("/api", "http://old"),
        pair("/api/v2", "http://new"),
    ]);
    assert_eq!(table.match_uri(&text("/api/v2/x")), Some(text("http://new/x")));
    assert_eq!(table.match_uri(&text("/api/v1/x")), Some(text("http://old/v1/x")));
    assert_eq!(table.match_uri(&text("/unknown/path")), None);
}

#[test]
fn single_backend_table_keeps_the_later_entry() {
    let table = RedirectionReader::new(vec![pair("/a", "http://first"), pair("/a", "http://second")]);
    assert_eq!(table.match_uri(&text("/a/x")), Some(text("http://second/x")));
}

#[test]
fn single_backend_table_without_entries_routes_nothing() {
    let table = RedirectionReader::new(Vec::new());
    assert_eq!(table.match_uri(&text("/a")), None);
}
