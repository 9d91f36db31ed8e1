use cssbox::properties::{
    classify_property, parse_display, parse_grid_placement, parse_track_sizing, shorthand_edge_indices,
    split_track_tokens, track_token_ok, GridLineField, NumericProperty, PropertyUpdate, ShorthandProperty,
    TrackToken,
};
use cssbox::style::{AlignItems, Display, GridPlacement, Overflow, Position};

#[test]
fn test_apply_display() {
    assert!(matches!(classify_property("display", "flex"), PropertyUpdate::Display(d) if d == Display::flex()));
}

#[test]
fn margin_shorthand_hands_over_its_words() {
    match classify_property("margin", "10px 20px") {
        PropertyUpdate::Shorthand { property, parts } => {
            assert_eq!(property, ShorthandProperty::Margin);
            assert_eq!(parts, vec!["10px".to_string(), "20px".to_string()]);
        },
        other => panic!("unexpected {:?}", other),
    }
}

#[test]
fn keyword_properties() {
    assert!(matches!(classify_property("position", "absolute"), PropertyUpdate::Position(Position::Absolute)));
    assert!(matches!(classify_property("position", " absolute"), PropertyUpdate::Position(Position::Static)));
    assert!(matches!(
        classify_property("overflow-y", " hidden "),
        PropertyUpdate::Overflow { x: false, y: true, value: Overflow::Hidden }
    ));
    assert!(matches!(classify_property("align-items", "start"), PropertyUpdate::AlignItems(AlignItems::FlexStart)));
    assert_eq!(parse_display(" table-row "), Display::table_row());
    assert_eq!(parse_display("bogus"), Display::inline());
    assert_eq!(parse_display("none"), Display::none());
    assert!(matches!(classify_property("colour", "red"), PropertyUpdate::Ignored));
}

#[test]
fn order_and_numeric_properties() {
    assert!(matches!(classify_property("order", "-3"), PropertyUpdate::Order(-3)));
    assert!(matches!(classify_property("order", "x"), PropertyUpdate::Order(0)));
    assert!(matches!(classify_property("order", "2147483648"), PropertyUpdate::Order(0)));
    match classify_property("grid-row-gap", "4px") {
        PropertyUpdate::Numeric { property, value } => {
            assert_eq!(property, NumericProperty::RowGap);
            assert_eq!(value, "4px");
        },
        other => panic!("unexpected {:?}", other),
    }
}

#[test]
fn grid_lines() {
    assert_eq!(parse_grid_placement(" auto "), GridPlacement::Auto);
    assert_eq!(parse_grid_placement("span 3"), GridPlacement::Span(3));
    assert_eq!(parse_grid_placement("-2"), GridPlacement::Line(-2));
    assert_eq!(parse_grid_placement("+7"), GridPlacement::Line(7));
    assert_eq!(parse_grid_placement("span x"), GridPlacement::Named("span x".to_string()));
    assert_eq!(parse_grid_placement(" header "), GridPlacement::Named("header".to_string()));
    match classify_property("grid-column-end", "span 2") {
        PropertyUpdate::GridLine { field, placement } => {
            assert_eq!(field, GridLineField::ColumnEnd);
            assert_eq!(placement, GridPlacement::Span(2));
        },
        other => panic!("unexpected {:?}", other),
    }
}

#[test]
fn track_lists_split_outside_parentheses() {
    assert_eq!(split_track_tokens("1fr 200px auto"), vec!["1fr", "200px", "auto"]);
    assert_eq!(
        split_track_tokens("  minmax(10px, 1fr)   repeat(2, 1fr) "),
        vec!["minmax(10px, 1fr)", "repeat(2, 1fr)"]
    );
    assert_eq!(split_track_tokens(""), Vec::<String>::new());
    match classify_property("grid-template-rows", "10px 20px") {
        PropertyUpdate::GridTemplate { rows, tokens } => {
            assert!(rows);
            assert_eq!(tokens.len(), 2);
        },
        other => panic!("unexpected {:?}", other),
    }
}

#[test]
fn edges_from_one_to_four_values() {
    assert_eq!(shorthand_edge_indices(1), Some((0, 0, 0, 0)));
    assert_eq!(shorthand_edge_indices(2), Some((0, 1, 0, 1)));
    assert_eq!(shorthand_edge_indices(3), Some((0, 1, 2, 1)));
    assert_eq!(shorthand_edge_indices(4), Some((0, 1, 2, 3)));
    assert_eq!(shorthand_edge_indices(0), None);
    assert_eq!(shorthand_edge_indices(5), None);
}

#[test]
fn track_tokens_by_kind() {
    assert!(matches!(parse_track_sizing("1fr"), TrackToken::Fr(t) if t == "1"));
    assert!(matches!(parse_track_sizing("25%"), TrackToken::Percent(t) if t == "25"));
    assert!(matches!(parse_track_sizing("200px"), TrackToken::Px(t) if t == "200"));
    assert!(matches!(parse_track_sizing("auto"), TrackToken::Auto));
    assert!(matches!(parse_track_sizing("max-content"), TrackToken::MaxContent));
    assert!(matches!(parse_track_sizing("fit-content(30px)"), TrackToken::FitContent(t) if t == "30px"));
    assert!(matches!(parse_track_sizing("12"), TrackToken::Number(t) if t == "12"));
    match parse_track_sizing("minmax(100px, 1fr)") {
        TrackToken::MinMax(a, b) => {
            assert!(matches!(*a, TrackToken::Px(ref t) if t == "100"));
            assert!(matches!(*b, TrackToken::Fr(ref t) if t == "1"));
        },
        other => panic!("unexpected {:?}", other),
    }
    assert!(matches!(parse_track_sizing("minmax(auto)"), TrackToken::Auto));
    assert!(!track_token_ok("minmax("));
    assert!(!track_token_ok("fit-content("));
    assert!(!track_token_ok("minmax(1px, fit-content()"));
    assert!(track_token_ok("minmax(1px, 2px)"));
}

#[test]
fn unknown_and_miscased_names_are_ignored() {
    assert!(matches!(classify_property("color", "red"), PropertyUpdate::Ignored));
    assert!(matches!(classify_property("WIDTH", "10px"), PropertyUpdate::Ignored));
    assert!(matches!(classify_property("Display", "block"), PropertyUpdate::Ignored));
    assert!(!matches!(classify_property("width", "10px"), PropertyUpdate::Ignored));
}
