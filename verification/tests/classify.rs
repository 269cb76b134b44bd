use what_stream::classify::classify;
use what_stream::classify::title_match;
use what_stream::Stream;
use what_stream::TagCache;

fn stream(title: &str, tag_ids: Option<Vec<&str>>) -> Stream {
    Stream {
        started_at: String::from("2021-01-01T00:00:00Z"),
        title: String::from(title),
        user_name: String::new(),
        user_id: String::from("1"),
        viewer_count: 0,
        language: String::from("en"),
        tag_ids: tag_ids.map(|ids| ids.into_iter().map(String::from).collect()),
        user_tag_map: Vec::new(),
        uptime: 0,
    }
}

fn terms(qs: &[&str]) -> Vec<String> {
    qs.iter().map(|q| String::from(*q)).collect()
}

#[test]
fn tag_label_match_wins_over_title() {
    let mut cache = TagCache::new();
    cache.insert_if_absent(String::from("t1"), String::from("Rust"));
    let s = stream("completely unrelated title", Some(vec!["t1"]));
    let query = terms(&["rust"]);
    assert_eq!(classify(&s, &cache, &query), Some(0));
}

#[test]
fn tag_match_is_case_insensitive() {
    let mut cache = TagCache::new();
    cache.insert_if_absent(String::from("t1"), String::from("RUST"));
    let s = stream("no keywords here", Some(vec!["t1"]));
    let query = terms(&["rUsT"]);
    assert_eq!(classify(&s, &cache, &query), Some(0));
}

#[test]
fn tag_match_picks_earliest_query_term() {
    let mut cache = TagCache::new();
    cache.insert_if_absent(String::from("t1"), String::from("games"));
    cache.insert_if_absent(String::from("t2"), String::from("rust"));
    let s = stream("title", Some(vec!["t1", "t2"]));
    let query = terms(&["rust", "games"]);
    // the first tag id decides, and it matches the later query term
    assert_eq!(classify(&s, &cache, &query), Some(1));
}

#[test]
fn title_tokens_are_trimmed_before_matching() {
    let cache = TagCache::new();
    let s = stream("Learning (Rust) today!", None);
    let query = terms(&["rust"]);
    assert_eq!(classify(&s, &cache, &query), Some(0));
}

#[test]
fn unknown_tag_falls_back_to_title() {
    let cache = TagCache::new();
    let s = stream("all about rust today", Some(vec!["t9"]));
    let query = terms(&["rust"]);
    assert_eq!(classify(&s, &cache, &query), Some(0));
}

#[test]
fn no_match_drops_the_broadcast() {
    let cache = TagCache::new();
    let s = stream("a cooking show", Some(vec!["t9"]));
    let query = terms(&["rust"]);
    assert_eq!(classify(&s, &cache, &query), None);
}

#[test]
fn first_matching_token_decides_the_term() {
    let t = String::from("talking c++ and rust");
    let query = terms(&["rust", "c++"]);
    assert_eq!(title_match(&t, &query), Some(1));
}

#[test]
fn title_match_ignores_substring_hits() {
    let t = String::from("rustaceans welcome");
    let query = terms(&["rust"]);
    assert_eq!(title_match(&t, &query), None);
}
