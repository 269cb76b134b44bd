use what_stream::sort_streams;
use what_stream::Column;
use what_stream::Direction;
use what_stream::SortAction;
use what_stream::Stream;

fn stream(user_id: &str, user_name: &str, viewers: i64, uptime: i64) -> Stream {
    Stream {
        started_at: String::new(),
        title: String::new(),
        user_name: String::from(user_name),
        user_id: String::from(user_id),
        viewer_count: viewers,
        language: String::from("en"),
        tag_ids: None,
        user_tag_map: Vec::new(),
        uptime,
    }
}

fn names(streams: &[Stream]) -> Vec<String> {
    streams.iter().map(|s| s.user_name.clone()).collect()
}

#[test]
fn name_descending_yields_a_to_z() {
    let mut v = vec![stream("1", "b", 0, 0), stream("2", "a", 0, 0), stream("3", "c", 0, 0)];
    let action = SortAction { column: Column::Name, direction: Direction::Descending };
    sort_streams(&mut v, Some(action));
    assert_eq!(names(&v), vec!["a".to_string(), "b".to_string(), "c".to_string()]);
}

#[test]
fn name_ascending_yields_z_to_a() {
    let mut v = vec![stream("1", "b", 0, 0), stream("2", "a", 0, 0), stream("3", "c", 0, 0)];
    let action = SortAction { column: Column::Name, direction: Direction::Ascending };
    sort_streams(&mut v, Some(action));
    assert_eq!(names(&v), vec!["c".to_string(), "b".to_string(), "a".to_string()]);
}

#[test]
fn default_sort_is_viewers_ascending() {
    let mut v = vec![stream("1", "x", 9, 0), stream("2", "y", 3, 0), stream("3", "z", 7, 0)];
    sort_streams(&mut v, None);
    let viewers: Vec<i64> = v.iter().map(|s| s.viewer_count).collect();
    assert_eq!(viewers, vec![3, 7, 9]);
}

#[test]
fn viewers_descending_reverses() {
    let mut v = vec![stream("1", "x", 9, 0), stream("2", "y", 3, 0), stream("3", "z", 7, 0)];
    let action = SortAction { column: Column::Viewers, direction: Direction::Descending };
    sort_streams(&mut v, Some(action));
    let viewers: Vec<i64> = v.iter().map(|s| s.viewer_count).collect();
    assert_eq!(viewers, vec![9, 7, 3]);
}

#[test]
fn uptime_ascending_orders_by_seconds() {
    let mut v = vec![stream("1", "x", 0, 50), stream("2", "y", 0, 10), stream("3", "z", 0, 30)];
    let action = SortAction { column: Column::Uptime, direction: Direction::Ascending };
    sort_streams(&mut v, Some(action));
    let uptimes: Vec<i64> = v.iter().map(|s| s.uptime).collect();
    assert_eq!(uptimes, vec![10, 30, 50]);
}

#[test]
fn duplicate_identities_collapse_to_the_first() {
    let mut v = vec![
        stream("7", "first", 5, 0),
        stream("8", "other", 1, 0),
        stream("7", "second", 9, 0),
    ];
    sort_streams(&mut v, None);
    assert_eq!(v.len(), 2);
    let kept: Vec<String> = names(&v);
    assert!(kept.contains(&"first".to_string()));
    assert!(kept.contains(&"other".to_string()));
    assert!(!kept.contains(&"second".to_string()));
}

#[test]
fn finisher_twice_gives_the_same_output() {
    let mut v = vec![
        stream("3", "c", 5, 1),
        stream("1", "a", 5, 2),
        stream("2", "b", 2, 3),
        stream("1", "dup", 8, 4),
    ];
    let action = SortAction { column: Column::Viewers, direction: Direction::Descending };
    sort_streams(&mut v, Some(action));
    let once: Vec<(String, i64)> =
        v.iter().map(|s| (s.user_id.clone(), s.viewer_count)).collect();
    sort_streams(&mut v, Some(action));
    let twice: Vec<(String, i64)> =
        v.iter().map(|s| (s.user_id.clone(), s.viewer_count)).collect();
    assert_eq!(once, twice);
}

#[test]
fn viewer_ties_are_ordered_by_identity() {
    let mut v = vec![stream("9", "x", 4, 0), stream("2", "y", 4, 0), stream("5", "z", 4, 0)];
    sort_streams(&mut v, None);
    let ids: Vec<String> = v.iter().map(|s| s.user_id.clone()).collect();
    assert_eq!(ids, vec!["2".to_string(), "5".to_string(), "9".to_string()]);
}
