use regex::Regex;
use selection_core::{
    abs_difference, split_on_matches, Assoc, Change, ChangeSet, Range, Selection, TextView,
};

#[test]
fn test_create_normalizes_and_merges() {
    let sel = Selection::new(
        vec![
            Range::new(10, 12),
            Range::new(6, 7),
            Range::new(4, 5),
            Range::new(3, 4),
            Range::new(0, 6),
            Range::new(7, 8),
            Range::new(9, 13),
            Range::new(13, 14),
        ],
        0,
    );

    let res = sel
        .ranges()
        .iter()
        .map(|range| format!("{}/{}", range.anchor, range.head))
        .collect::<Vec<String>>()
        .join(",");

    assert_eq!(res, "0/6,6/7,7/8,9/13,13/14");
}

#[test]
fn test_create_merges_adjacent_points() {
    let sel = Selection::new(
        vec![
            Range::new(10, 12),
            Range::new(12, 12),
            Range::new(12, 12),
            Range::new(10, 10),
            Range::new(8, 10),
        ],
        0,
    );

    let res = sel
        .ranges()
        .iter()
        .map(|range| format!("{}/{}", range.anchor, range.head))
        .collect::<Vec<String>>()
        .join(",");

    assert_eq!(res, "8/10,10/12");
}

#[test]
fn test_contains() {
    let range = Range::new(10, 12);

    assert_eq!(range.contains(9), false);
    assert_eq!(range.contains(10), true);
    assert_eq!(range.contains(11), true);
    assert_eq!(range.contains(12), false);
    assert_eq!(range.contains(13), false);

    let range = Range::new(9, 6);
    assert_eq!(range.contains(9), true);
    assert_eq!(range.contains(7), true);
    assert_eq!(range.contains(6), false);
}

#[test]
fn test_split_on_matches() {
    let text = TextView::new("abcd efg wrs   xyz 123 456".chars().collect());

    let selections = Selection::new(vec![Range::new(0, 8), Range::new(10, 19)], 0);

    let result = split_on_matches(&text, &selections, &Regex::new(r"\s+").unwrap()).unwrap();

    assert_eq!(
        result.ranges(),
        &vec![
            Range::new(0, 3),
            Range::new(5, 7),
            Range::new(10, 11),
            Range::new(15, 17),
            Range::new(19, 19),
        ]
    );

    let frags: Vec<String> = result
        .fragments(&text)
        .into_iter()
        .map(|cs| cs.into_iter().collect())
        .collect();
    assert_eq!(frags, vec!["abcd", "efg", "rs", "xyz", "1"]);
}

#[test]
fn test_contains_backward_bounds() {
    // a backward range excludes the position next to its low end and
    // includes its anchor
    let range = Range::new(9, 6);
    assert!(range.contains(8));
    assert!(!range.contains(5));
    assert!(!range.contains(10));
    // a cursor contains nothing
    assert!(!Range::new(4, 4).contains(4));
}

#[test]
fn test_abs_difference() {
    assert_eq!(abs_difference(3, 10), 7);
    assert_eq!(abs_difference(10, 3), 7);
    assert_eq!(abs_difference(4, 4), 0);
}

#[test]
fn test_range_accessors() {
    let forward = Range::new(2, 9);
    assert_eq!(forward.from(), 2);
    assert_eq!(forward.to(), 9);
    assert!(!forward.is_empty());

    let backward = Range::new(9, 2);
    assert_eq!(backward.from(), 2);
    assert_eq!(backward.to(), 9);

    let cursor = Range::new(4, 4);
    assert!(cursor.is_empty());
}

#[test]
fn test_overlaps() {
    // a bare cursor registers overlap with a range it merely touches
    assert!(Range::new(12, 12).overlaps(&Range::new(10, 12)));
    // non-empty ranges must genuinely interleave
    assert!(Range::new(10, 12).overlaps(&Range::new(11, 14)));
    assert!(!Range::new(12, 14).overlaps(&Range::new(10, 12)));
    assert!(!Range::new(10, 12).overlaps(&Range::new(0, 5)));
}

#[test]
fn test_extend() {
    // anchor inside the target span: anchor jumps to the low bound
    assert_eq!(Range::new(5, 10).extend(2, 7), Range::new(2, 7));
    // anchor outside: head becomes the farther bound
    assert_eq!(Range::new(10, 12).extend(2, 4), Range::new(10, 2));
    assert_eq!(Range::new(4, 4).extend(6, 8), Range::new(4, 8));
    // equal distances favor the high bound
    assert_eq!(Range::new(5, 5).extend(7, 7), Range::new(5, 7));
}

#[test]
fn test_single_point_and_accessors() {
    let sel = Selection::single(3, 7);
    assert_eq!(sel.ranges(), &vec![Range::new(3, 7)]);
    assert_eq!(sel.primary(), Range::new(3, 7));
    assert_eq!(sel.cursor(), 7);

    let pt = Selection::point(4);
    assert_eq!(pt.ranges(), &vec![Range::new(4, 4)]);
}

#[test]
fn test_into_single() {
    let sel = Selection::new(vec![Range::new(0, 2), Range::new(5, 8)], 1);
    let single = sel.into_single();
    assert_eq!(single.ranges(), &vec![Range::new(5, 8)]);
    assert_eq!(single.primary(), Range::new(5, 8));
}

#[test]
fn test_normalization_is_sorted_and_compact() {
    let input = vec![
        Range::new(7, 9),
        Range::new(1, 3),
        Range::new(2, 5),
        Range::new(14, 12),
    ];
    let sel = Selection::new(input.clone(), 0);
    let out = sel.ranges();
    assert!(out.len() <= input.len());
    for w in out.windows(2) {
        assert!(w[0].from() <= w[1].from());
        assert!(!w[1].overlaps(&w[0]));
    }
}

#[test]
fn test_normalization_idempotent() {
    let sel = Selection::new(
        vec![
            Range::new(10, 12),
            Range::new(6, 7),
            Range::new(4, 5),
            Range::new(0, 6),
        ],
        1,
    );
    let again = Selection::new(sel.ranges().clone(), 1);
    assert_eq!(again.ranges(), sel.ranges());
    assert_eq!(again.primary(), sel.primary());
}

#[test]
fn test_primary_preserved_when_nothing_merges() {
    let sel = Selection::new(
        vec![Range::new(10, 12), Range::new(0, 2), Range::new(5, 6)],
        0,
    );
    assert_eq!(sel.primary(), Range::new(10, 12));
    assert_eq!(sel.cursor(), 12);
}

#[test]
fn test_primary_survives_while_others_merge() {
    // a chain of merges before the primary must not drag the primary
    // index off the surviving range
    let sel = Selection::new(
        vec![
            Range::new(20, 25),
            Range::new(0, 5),
            Range::new(1, 6),
            Range::new(2, 7),
            Range::new(3, 8),
        ],
        0,
    );
    assert_eq!(sel.ranges(), &vec![Range::new(0, 8), Range::new(20, 25)]);
    assert_eq!(sel.primary(), Range::new(20, 25));
}

#[test]
fn test_merge_keeps_incoming_direction() {
    // the incoming backward range draws the merged range backward
    let sel = Selection::new(vec![Range::new(0, 4), Range::new(6, 2)], 0);
    assert_eq!(sel.ranges(), &vec![Range::new(6, 0)]);
}

#[test]
fn test_map_empty_changeset_is_noop() {
    let sel = Selection::new(vec![Range::new(1, 3), Range::new(6, 9)], 1);
    let expected_ranges = sel.ranges().clone();
    let expected_primary = sel.primary();
    let mapped = sel.map(&ChangeSet::empty());
    assert_eq!(mapped.ranges(), &expected_ranges);
    assert_eq!(mapped.primary(), expected_primary);
}

#[test]
fn test_range_map_through_insertion() {
    let cs = ChangeSet::from_changes(vec![Change { pos: 2, delete: 0, insert: 3 }]).unwrap();
    // endpoints before the insertion stay put, later ones shift
    assert_eq!(Range::new(1, 5).map(&cs), Range::new(1, 8));
    // an endpoint exactly at the insertion point resolves after the text
    assert_eq!(Range::new(2, 4).map(&cs), Range::new(5, 7));
}

#[test]
fn test_map_pos_biases() {
    let cs = ChangeSet::from_changes(vec![Change { pos: 2, delete: 3, insert: 1 }]).unwrap();
    assert!(!cs.is_empty());
    assert_eq!(cs.map_pos(2, Assoc::Before), 2);
    assert_eq!(cs.map_pos(2, Assoc::After), 3);
    // a position inside the deleted span collapses to the edit point
    assert_eq!(cs.map_pos(3, Assoc::Before), 2);
    assert_eq!(cs.map_pos(3, Assoc::After), 3);
    // a position past the edit shifts by its growth
    assert_eq!(cs.map_pos(5, Assoc::After), 3);
    assert_eq!(cs.map_pos(7, Assoc::After), 5);
}

#[test]
fn test_selection_map_renormalizes() {
    // deleting the gap pulls the cursor onto the range's end, merging them
    let sel = Selection::new(vec![Range::new(0, 3), Range::new(6, 6)], 0);
    let cs = ChangeSet::from_changes(vec![Change { pos: 3, delete: 3, insert: 0 }]).unwrap();
    let mapped = sel.map(&cs);
    assert_eq!(mapped.ranges(), &vec![Range::new(0, 3)]);
}

#[test]
fn test_from_changes_rejects_overlap() {
    let bad = ChangeSet::from_changes(vec![
        Change { pos: 0, delete: 5, insert: 0 },
        Change { pos: 3, delete: 2, insert: 0 },
    ]);
    assert!(bad.is_none());
}

#[test]
fn test_transform() {
    let sel = Selection::new(vec![Range::new(1, 2), Range::new(8, 9)], 0);
    let shifted = sel.transform(|r| Range::new(r.anchor + 1, r.head + 1));
    assert_eq!(shifted.ranges(), &vec![Range::new(2, 3), Range::new(9, 10)]);
}

#[test]
fn test_fragment_is_inclusive_on_both_ends() {
    let text = TextView::new("hello world".chars().collect());
    let range = Range::new(2, 5);
    let frag: String = range.fragment(&text).into_iter().collect();
    assert_eq!(frag, "llo ");
    assert_eq!(frag.chars().count(), 5 - 2 + 1);
    // direction does not matter for the covered span
    let back: String = Range::new(5, 2).fragment(&text).into_iter().collect();
    assert_eq!(back, "llo ");
}

#[test]
fn test_text_offset_conversion() {
    // two-byte characters make byte and character offsets diverge
    let text = TextView::new("aébé".chars().collect());
    assert_eq!(text.len(), 4);
    assert_eq!(text.char_to_byte(0), 0);
    assert_eq!(text.char_to_byte(2), 3);
    assert_eq!(text.char_to_byte(4), 6);
    assert_eq!(text.byte_to_char(3), 2);
    assert_eq!(text.byte_to_char(6), 4);
}

#[test]
fn test_split_degenerate_returns_none() {
    // a match at the very start of a range at offset zero has no piece
    // before it
    let text = TextView::new("  ab".chars().collect());
    let selections = Selection::new(vec![Range::new(0, 3)], 0);
    let result = split_on_matches(&text, &selections, &Regex::new(r"\s+").unwrap());
    assert!(result.is_none());
}

#[test]
fn test_split_without_matches_keeps_range() {
    let text = TextView::new("abcd".chars().collect());
    let selections = Selection::new(vec![Range::new(1, 2)], 0);
    let result = split_on_matches(&text, &selections, &Regex::new(r"\s+").unwrap()).unwrap();
    assert_eq!(result.ranges(), &vec![Range::new(1, 2)]);
}
