use merchant_o_rust::config::app_config::{ApiRouteRoulette, RedirectionReader};
use std::sync::Arc;

fn shared_between_threads<T: Send + Sync>() {}

#[test]
fn table_and_groups_can_be_shared_between_threads() {
    shared_between_threads::<ApiRouteRoulette>();
    shared_between_threads::<RedirectionReader>();
    shared_between_threads::<merchant_o_rust::config::redirection_reader::RedirectionReader>();
}

#[test]
fn handles_to_one_table_share_its_cursors() {
    let table = Arc::new(RedirectionReader::new(vec![(
        "/api".to_string(),
        vec!["http://b1".to_string(), "http://b2".to_string(), "http://b3".to_string()],
    )]));
    let first = Arc::clone(&table);
    let second = Arc::clone(&table);
    let uri = "/api/x".to_string();
    assert_eq!(first.match_uri(&uri), Some("http://b1/x".to_string()));
    assert_eq!(second.match_uri(&uri), Some("http://b2/x".to_string()));
    assert_eq!(table.match_uri(&uri), Some("http://b3/x".to_string()));
    assert_eq!(second.match_uri(&uri), Some("http://b1/x".to_string()));
}
