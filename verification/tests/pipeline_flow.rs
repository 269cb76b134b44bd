use what_stream::Pagination;
use what_stream::Resp;
use what_stream::Stream;
use what_stream::TagCache;
use what_stream::TagRecord;
use what_stream::WhatStream;

fn stream(user_id: &str, title: &str, viewers: i64, language: &str) -> Stream {
    Stream {
        started_at: String::from("2021-01-01T00:00:00Z"),
        title: String::from(title),
        user_name: String::new(),
        user_id: String::from(user_id),
        viewer_count: viewers,
        language: String::from(language),
        tag_ids: None,
        user_tag_map: Vec::new(),
        uptime: 0,
    }
}

fn terms(qs: &[&str]) -> Vec<String> {
    qs.iter().map(|q| String::from(*q)).collect()
}

fn pipeline(query: &[&str], languages: &[&str]) -> WhatStream {
    WhatStream::new(
        terms(query),
        terms(languages),
        terms(&["509670"]),
        TagCache::new(),
    )
}

#[test]
fn stalled_cursor_stops_pagination() {
    let ws = pipeline(&["rust"], &[]);
    let cursor = String::from("abc");
    let page = Resp {
        data: vec![stream("1", "rust stream!", 1, "en")],
        pagination: Pagination { cursor: String::from("abc") },
    };
    assert!(!ws.page_accept(&cursor, &page));
}

#[test]
fn empty_page_stops_pagination() {
    let ws = pipeline(&["rust"], &[]);
    let cursor = String::new();
    let page = Resp { data: Vec::new(), pagination: Pagination { cursor: String::from("next") } };
    assert!(!ws.page_accept(&cursor, &page));
}

#[test]
fn repeating_cursor_endpoint_terminates() {
    // A mock endpoint that always answers with the same cursor: the
    // loop guard must stop the second round, not loop forever.
    let ws = pipeline(&["rust"], &[]);
    let mut cursor = String::new();
    let mut rounds = 0;
    loop {
        assert!(rounds < 3, "the loop guard failed to stop pagination");
        let page = Resp {
            data: vec![stream("1", "rust stream!", 1, "en")],
            pagination: Pagination { cursor: String::from("same") },
        };
        if !ws.page_accept(&cursor, &page) {
            break;
        }
        cursor = page.pagination.cursor;
        rounds += 1;
    }
    assert_eq!(rounds, 1);
}

#[test]
fn language_filter_is_case_insensitive_and_empty_allows_all() {
    let ws = pipeline(&["rust"], &["EN"]);
    let page = vec![stream("1", "a", 1, "en"), stream("2", "b", 1, "fr")];
    let kept = ws.filter_by_language(page);
    assert_eq!(kept.len(), 1);
    assert_eq!(kept[0].user_id, "1");

    let open = pipeline(&["rust"], &[]);
    let page = vec![stream("1", "a", 1, "en"), stream("2", "b", 1, "fr")];
    assert_eq!(open.filter_by_language(page).len(), 2);
}

#[test]
fn absorb_skips_auto_tags_and_keeps_first_label() {
    let mut ws = pipeline(&["rust"], &[]);
    ws.absorb_tags(vec![
        TagRecord {
            tag_id: String::from("t1"),
            is_auto: true,
            localization_names: vec![(String::from("en-us"), String::from("Auto"))],
        },
        TagRecord {
            tag_id: String::from("t2"),
            is_auto: false,
            localization_names: vec![(String::from("de-de"), String::from("Rost"))],
        },
        TagRecord {
            tag_id: String::from("t3"),
            is_auto: false,
            localization_names: vec![(String::from("en-us"), String::from("Rust"))],
        },
        TagRecord {
            tag_id: String::from("t3"),
            is_auto: false,
            localization_names: vec![(String::from("en-us"), String::from("Other"))],
        },
    ]);
    assert!(ws.tag_cache.get("t1").is_none());
    assert!(ws.tag_cache.get("t2").is_none());
    assert_eq!(ws.tag_cache.get("t3"), Some(&String::from("Rust")));
}

#[test]
fn unresolved_ids_are_unknown_and_deduplicated() {
    let mut ws = pipeline(&["rust"], &[]);
    ws.absorb_tags(vec![TagRecord {
        tag_id: String::from("known"),
        is_auto: false,
        localization_names: vec![(String::from("en-us"), String::from("Known"))],
    }]);
    let mut a = stream("1", "a", 1, "en");
    a.tag_ids = Some(terms(&["known", "new1", "new2"]));
    let mut b = stream("2", "b", 1, "en");
    b.tag_ids = Some(terms(&["new2", "new1"]));
    let page = vec![a, b];
    let ids = ws.unresolved_tag_ids(&page);
    assert_eq!(ids, terms(&["new1", "new2"]));
}

#[test]
fn query_terms_are_deduplicated_in_order() {
    let ws = pipeline(&["rust", "c++", "rust"], &[]);
    assert_eq!(ws.query, terms(&["rust", "c++"]));
}

#[test]
fn usernames_land_on_the_first_matching_identity() {
    let mut streams = vec![
        (String::from("rust"), stream("77", "a", 1, "en")),
        (String::from("rust"), stream("88", "b", 1, "en")),
    ];
    let pairs = vec![
        (String::from("88"), String::from("second_login")),
        (String::from("77"), String::from("first_login")),
        (String::from("99"), String::from("nobody")),
    ];
    let end = streams.len();
    WhatStream::apply_usernames(&mut streams, 0, end, &pairs);
    assert_eq!(streams[0].1.user_name, "first_login");
    assert_eq!(streams[1].1.user_name, "second_login");
}

#[test]
fn collect_user_ids_takes_the_chunk_in_order() {
    let streams = vec![
        (String::from("q"), stream("5", "a", 1, "en")),
        (String::from("q"), stream("6", "b", 1, "en")),
        (String::from("q"), stream("7", "c", 1, "en")),
    ];
    assert_eq!(WhatStream::collect_user_ids(&streams, 1, 3), terms(&["6", "7"]));
}

#[test]
fn uptime_pass_replaces_the_timestamp() {
    let streams = vec![(String::from("rust"), stream("1", "t", 1, "en"))];
    // 2021-01-01T00:00:00Z is epoch second 1609459200
    let now = 1609459200 + 3723;
    let done = WhatStream::apply_uptimes(streams, now).unwrap();
    assert_eq!(done[0].1.uptime, 3723);
    assert_eq!(done[0].1.started_at, "1 hour 2 minutes");
}

#[test]
fn malformed_timestamp_is_fatal() {
    let mut bad = stream("1", "t", 1, "en");
    bad.started_at = String::from("yesterday-ish");
    let streams = vec![(String::from("rust"), bad)];
    let err = WhatStream::apply_uptimes(streams, 1609459200).unwrap_err();
    assert_eq!(err.started_at, "yesterday-ish");
}

#[test]
fn attach_rebuilds_resolved_tags_from_the_cache() {
    let mut ws = pipeline(&["rust"], &[]);
    ws.absorb_tags(vec![TagRecord {
        tag_id: String::from("t1"),
        is_auto: false,
        localization_names: vec![(String::from("en-us"), String::from("Rust"))],
    }]);
    let mut s = stream("1", "t", 1, "en");
    s.tag_ids = Some(terms(&["t1", "t9"]));
    let out = ws.attach_known_tags(vec![(String::from("rust"), s)]);
    assert_eq!(
        out[0].1.user_tag_map,
        vec![(String::from("t1"), String::from("Rust"))],
    );
}

#[test]
fn results_group_in_query_order_and_skip_empty_terms() {
    let ws = pipeline(&["zig", "rust", "c++"], &[]);
    let pairs = vec![
        (String::from("c++"), stream("1", "a", 1, "en")),
        (String::from("rust"), stream("2", "b", 1, "en")),
        (String::from("c++"), stream("3", "c", 1, "en")),
    ];
    let grouped = ws.group_results(pairs);
    assert_eq!(grouped.len(), 2);
    assert_eq!(grouped[0].0, "rust");
    assert_eq!(grouped[0].1.len(), 1);
    assert_eq!(grouped[1].0, "c++");
    assert_eq!(grouped[1].1.len(), 2);
    assert_eq!(grouped[1].1[0].user_id, "1");
    assert_eq!(grouped[1].1[1].user_id, "3");
}

#[test]
fn two_page_discovery_ends_with_one_classified_broadcast() {
    // Query ["rust"]: the first page holds a broadcast titled
    // "rust stream!" with ten viewers, the second page is empty.
    let mut ws = pipeline(&["rust"], &[]);
    let mut acc: Vec<(String, Stream)> = Vec::new();
    let mut cursor = String::new();
    let pages = vec![
        Resp {
            data: vec![stream("42", "rust stream!", 10, "en")],
            pagination: Pagination { cursor: String::from("p2") },
        },
        Resp { data: Vec::new(), pagination: Pagination { cursor: String::from("p3") } },
    ];
    let mut fetched = 0;
    for page in pages {
        if !ws.page_accept(&cursor, &page) {
            break;
        }
        cursor = page.pagination.cursor;
        let kept = ws.filter_by_language(page.data);
        let unknown = ws.unresolved_tag_ids(&kept);
        assert!(unknown.is_empty());
        let added = ws.classify_page(kept, &mut acc);
        fetched += 1;
        if added == 0 {
            break;
        }
    }
    assert_eq!(fetched, 1);
    assert_eq!(acc.len(), 1);

    let now = 1609459200 + 600;
    let mut done = WhatStream::apply_uptimes(acc, now).unwrap();
    let end = done.len();
    WhatStream::apply_usernames(
        &mut done,
        0,
        end,
        &vec![(String::from("42"), String::from("a_rustacean"))],
    );
    let done = ws.attach_known_tags(done);
    let grouped = ws.group_results(done);
    assert_eq!(grouped.len(), 1);
    assert_eq!(grouped[0].0, "rust");
    assert_eq!(grouped[0].1.len(), 1);
    let hit = &grouped[0].1[0];
    assert_eq!(hit.user_name, "a_rustacean");
    assert_eq!(hit.viewer_count, 10);
    assert_eq!(hit.uptime, 600);
    assert_eq!(hit.started_at, "10 minutes");
}

#[test]
fn uptime_pass_against_the_clock_reads_a_positive_uptime() {
    let streams = vec![(String::from("rust"), stream("1", "t", 1, "en"))];
    let done = WhatStream::apply_current_uptimes(streams).unwrap();
    // the wire timestamp lies years in the past, so the elapsed time is
    // well over an hour and the text switched to the hours form
    assert!(done[0].1.uptime > 3600);
    assert!(done[0].1.started_at.contains("hour"));
}

#[test]
fn identity_chunks_cover_every_broadcast() {
    // one hundred and fifty broadcasts, resolved in two chunks as the
    // driver slices them
    let mut streams: Vec<(String, Stream)> = (0..150)
        .map(|i| (String::from("rust"), stream(&i.to_string(), "t", 1, "en")))
        .collect();
    let mut start = 0;
    while start < streams.len() {
        let end = (start + 100).min(streams.len());
        let ids = WhatStream::collect_user_ids(&streams, start, end);
        assert_eq!(ids.len(), end - start);
        let pairs: Vec<(String, String)> =
            ids.iter().map(|id| (id.clone(), format!("user_{}", id))).collect();
        WhatStream::apply_usernames(&mut streams, start, end, &pairs);
        start = end;
    }
    for (i, (_, s)) in streams.iter().enumerate() {
        assert_eq!(s.user_name, format!("user_{}", i));
    }
}
