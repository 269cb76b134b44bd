use what_stream::append_maybe;
use what_stream::sort::SortParseError;
use what_stream::render::ColorParseError;
use what_stream::AppAccess;
use what_stream::Color;
use what_stream::ColorStyle;
use what_stream::Column;
use what_stream::Direction;
use what_stream::SortAction;
use what_stream::Style;
use what_stream::TagCache;
use what_stream::Theme;

#[test]
fn sort_flags_parse_as_documented() {
    let sa = SortAction::parse("viewers").unwrap();
    assert_eq!((sa.column, sa.direction), (Column::Viewers, Direction::Descending));
    let sa = SortAction::parse("uptime,asc").unwrap();
    assert_eq!((sa.column, sa.direction), (Column::Uptime, Direction::Ascending));
    let sa = SortAction::parse("name,descending").unwrap();
    assert_eq!((sa.column, sa.direction), (Column::Name, Direction::Descending));
    let sa = SortAction::parse("name,").unwrap();
    assert_eq!((sa.column, sa.direction), (Column::Name, Direction::Descending));
    let sa = SortAction::parse("viewers,ascending").unwrap();
    assert_eq!((sa.column, sa.direction), (Column::Viewers, Direction::Ascending));
}

#[test]
fn bad_sort_flags_name_the_offending_part() {
    match SortAction::parse("height").unwrap_err() {
        SortParseError::UnknownColumn(w) => {
            assert_eq!(w, "height");
        },
        SortParseError::UnknownDirection(_) => panic!("wrong error"),
    }
    match SortAction::parse("name,sideways").unwrap_err() {
        SortParseError::UnknownDirection(w) => {
            assert_eq!(w, "sideways");
            let e = SortParseError::UnknownDirection(w);
            assert_eq!(
                e.message(),
                "invalid direction: sideways. supported directions: [asc | ascending | desc | descending]",
            );
        },
        SortParseError::UnknownColumn(_) => panic!("wrong error"),
    }
}

#[test]
fn colors_parse_from_hash_and_bare_hex() {
    assert_eq!(Color::parse("#3B78FF").unwrap(), Color(0x3B, 0x78, 0xFF));
    assert_eq!(Color::parse("c19c00").unwrap(), Color(0xC1, 0x9C, 0x00));
    assert_eq!(Color::parse("  #13A10E  ").unwrap(), Color(0x13, 0xA1, 0x0E));
}

#[test]
fn bad_colors_are_rejected_by_shape_or_digits() {
    assert_eq!(Color::parse("3B78FFa").unwrap_err(), ColorParseError::NotHexShaped);
    assert_eq!(Color::parse("#3B78F").unwrap_err(), ColorParseError::NotHexShaped);
    assert_eq!(Color::parse("zzzzzz").unwrap_err(), ColorParseError::NotHexShaped);
    assert_eq!(Color::parse("#zzzzzz").unwrap_err(), ColorParseError::BadHexNumber);
    assert_eq!(Color::parse("#+12345").unwrap(), Color(0x01, 0x23, 0x45));
}

#[test]
fn color_style_builds_and_toggles_bold() {
    let style = ColorStyle::new(Color(1, 2, 3));
    assert_eq!(style.fg, Color(1, 2, 3));
    assert!(style.bg.is_none());
    assert!(!style.bold);
    assert!(style.bold().bold);
    assert!(!style.bold().bold().bold);
    let d = ColorStyle::default();
    assert_eq!(d.fg, Color::default_fg());
}

#[test]
fn theme_and_styles_carry_the_standard_glyphs() {
    let theme = Theme::standard();
    assert_eq!(theme.uptime.fg, Color(0x13, 0xA1, 0x0E));
    assert!(theme.link.bold);
    let boxed = Style::boxed();
    assert_eq!(boxed.top, "\u{250c}\u{2500}\u{2500} ");
    let plain = Style::plain();
    assert_eq!(plain.top, "");
    let fancy = Style::fancy();
    assert_eq!(fancy.entry_sep, "\u{254e}");
}

#[test]
fn append_maybe_merges_configuration_defaults() {
    let mut left = vec![String::from("en")];
    let right = vec![String::from("fr")];
    append_maybe(&mut left, &right);
    assert_eq!(left, vec![String::from("en")]);

    let mut empty: Vec<String> = Vec::new();
    append_maybe(&mut empty, &right);
    assert_eq!(empty, vec![String::from("fr")]);

    let mut blanks = vec![String::new(), String::from("de"), String::new()];
    append_maybe(&mut blanks, &right);
    assert_eq!(blanks, vec![String::from("de")]);
}

#[test]
fn app_access_derives_the_bearer_header() {
    let access = AppAccess::new(
        String::from("token123"),
        None,
        3600,
        String::from("bearer"),
        String::from("client"),
        String::from("secret"),
    );
    assert_eq!(access.get_client_id(), "client");
    assert_eq!(access.get_bearer_token(), "Bearer token123");
}

#[test]
fn tag_cache_inserts_once_and_looks_up() {
    let mut cache = TagCache::new();
    assert_eq!(cache.len(), 0);
    assert!(!cache.contains("t1"));
    cache.insert_if_absent(String::from("t1"), String::from("Rust"));
    cache.insert_if_absent(String::from("t1"), String::from("Other"));
    assert_eq!(cache.len(), 1);
    assert_eq!(cache.get("t1"), Some(&String::from("Rust")));
    assert!(cache.get("t2").is_none());
}

#[test]
fn tag_cache_from_entries_keeps_the_later_duplicate() {
    let entries = vec![
        (String::from("a"), String::from("one")),
        (String::from("b"), String::from("two")),
        (String::from("a"), String::from("three")),
    ];
    let cache = TagCache::from_entries(&entries);
    assert_eq!(cache.len(), 2);
    assert_eq!(cache.get("a"), Some(&String::from("three")));
    assert_eq!(cache.get("b"), Some(&String::from("two")));
}
