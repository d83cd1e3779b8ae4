use clive::transcript::{Segment, Token, TranscriptReconstructor, SPECIAL_TOKEN_THRESHOLD};
use clive::units::Timestamp;

fn token(text: &str, id: i32, time: i64) -> Option<Token> {
    Some(Token { text: text.to_string(), id, time })
}

fn segment(text: &str, start: i64, end: i64, tokens: Vec<Option<Token>>) -> Segment {
    Segment { text: text.to_string(), start, end, tokens }
}

fn triples(units: &[Timestamp]) -> Vec<(i64, i64, String)> {
    units.iter().map(|u| (u.start, u.end, u.text.clone())).collect()
}

fn reconstructor() -> TranscriptReconstructor {
    TranscriptReconstructor::new(SPECIAL_TOKEN_THRESHOLD)
}

#[test]
fn adjacent_identical_segments_are_deduplicated() {
    let segments = vec![segment("hi", 0, 100, vec![]), segment("hi", 100, 200, vec![])];
    let units = reconstructor().reconstruct(&segments);
    assert_eq!(triples(&units), vec![(0, 100, "hi".to_string())]);
}

#[test]
fn different_segments_are_both_kept() {
    let segments = vec![
        segment("hi", 0, 100, vec![]),
        segment("ho", 100, 200, vec![]),
        segment("hi", 200, 300, vec![]),
    ];
    let units = reconstructor().reconstruct(&segments);
    assert_eq!(
        triples(&units),
        vec![
            (0, 100, "hi".to_string()),
            (100, 200, "ho".to_string()),
            (200, 300, "hi".to_string()),
        ]
    );
}

#[test]
fn empty_segment_contributes_nothing() {
    let segments = vec![segment("", 0, 100, vec![])];
    assert!(reconstructor().reconstruct(&segments).is_empty());
    assert!(reconstructor().reconstruct(&Vec::new()).is_empty());
}

#[test]
fn tokens_are_gathered_into_words() {
    let segments = vec![segment(
        " Hello world",
        0,
        300,
        vec![token(" Hel", 1, 10), token("lo ", 2, 50), token("wor", 3, 120), token("ld", 4, 200)],
    )];
    let units = reconstructor().reconstruct(&segments);
    assert_eq!(
        triples(&units),
        vec![(10, 50, "Hello".to_string()), (120, 200, "world".to_string())]
    );
}

#[test]
fn a_newline_closes_a_word() {
    let segments = vec![segment(
        "a\nb",
        0,
        100,
        vec![token("a\n", 1, 10), token("b", 2, 20)],
    )];
    let units = reconstructor().reconstruct(&segments);
    assert_eq!(triples(&units), vec![(10, 10, "a".to_string()), (20, 20, "b".to_string())]);
}

#[test]
fn a_tab_does_not_close_a_word() {
    let segments = vec![segment(
        "a\tb",
        0,
        100,
        vec![token("a\t", 1, 10), token("b", 2, 20)],
    )];
    let units = reconstructor().reconstruct(&segments);
    assert_eq!(triples(&units), vec![(10, 20, "a\tb".to_string())]);
}

#[test]
fn special_and_blank_tokens_are_skipped() {
    let segments = vec![segment(
        "one two",
        0,
        300,
        vec![
            token("[_BEG_]", SPECIAL_TOKEN_THRESHOLD, 0),
            token("one ", 5, 10),
            token("   ", 6, 15),
            token("two ", 7, 20),
            token("[_TT_50]", SPECIAL_TOKEN_THRESHOLD + 100, 25),
        ],
    )];
    let units = reconstructor().reconstruct(&segments);
    assert_eq!(triples(&units), vec![(10, 10, "one".to_string()), (20, 20, "two".to_string())]);
}

#[test]
fn threshold_is_configurable() {
    let segments = vec![segment("x y", 0, 100, vec![token("x ", 9, 10), token("y ", 10, 20)])];
    let units = TranscriptReconstructor::new(10).reconstruct(&segments);
    assert_eq!(triples(&units), vec![(10, 10, "x".to_string())]);
}

#[test]
fn text_left_over_ends_with_the_segment() {
    // The last position holds a control token, so no boundary fires on it.
    let segments = vec![segment(
        "left over",
        0,
        500,
        vec![token("left", 1, 40), token("over", 2, 80), token("[_EOT_]", SPECIAL_TOKEN_THRESHOLD, 90)],
    )];
    let units = reconstructor().reconstruct(&segments);
    assert_eq!(triples(&units), vec![(40, 500, "leftover".to_string())]);
}

#[test]
fn unreadable_tokens_are_passed_over() {
    let segments = vec![segment(
        "a b",
        0,
        100,
        vec![token("a ", 1, 10), None, token("b", 2, 30), None],
    )];
    let units = reconstructor().reconstruct(&segments);
    // The unreadable last position keeps `b` from being closed as a word.
    assert_eq!(triples(&units), vec![(10, 10, "a".to_string()), (30, 100, "b".to_string())]);
}

#[test]
fn segment_of_unreadable_tokens_gives_nothing() {
    let segments = vec![segment("lost", 0, 100, vec![None, None])];
    assert!(reconstructor().reconstruct(&segments).is_empty());
}

#[test]
fn deduplication_looks_at_the_last_unit_of_any_kind() {
    let segments = vec![
        segment("again", 0, 100, vec![token("again", 1, 10)]),
        segment("again", 100, 200, vec![]),
    ];
    let units = reconstructor().reconstruct(&segments);
    assert_eq!(triples(&units), vec![(10, 10, "again".to_string())]);
}

#[test]
fn extend_continues_an_earlier_source() {
    let r = reconstructor();
    let mut units = r.reconstruct(&vec![segment("hi", 0, 100, vec![])]);
    r.extend(&mut units, &vec![segment("hi", 0, 50, vec![]), segment("there", 50, 80, vec![])]);
    assert_eq!(triples(&units), vec![(0, 100, "hi".to_string()), (50, 80, "there".to_string())]);
}

#[test]
fn push_segment_appends_one_segment() {
    let r = reconstructor();
    let mut units = Vec::new();
    r.push_segment(&mut units, &segment("x", 5, 6, vec![]));
    r.push_segment(&mut units, &segment("y z", 6, 9, vec![token("y ", 1, 7), token("z", 2, 8)]));
    assert_eq!(
        triples(&units),
        vec![(5, 6, "x".to_string()), (7, 7, "y".to_string()), (8, 8, "z".to_string())]
    );
}

#[test]
fn well_timed_source_gives_chronological_units() {
    let segments = vec![
        segment("a b", 0, 100, vec![token("a ", 1, 0), token("b ", 2, 60)]),
        segment("c", 100, 150, vec![]),
        segment("d e", 150, 400, vec![token("d", 1, 150), token(" e", 2, 300), None]),
    ];
    let units = reconstructor().reconstruct(&segments);
    assert_eq!(units.len(), 4);
    for u in &units {
        assert!(u.start <= u.end);
    }
    for pair in units.windows(2) {
        assert!(pair[0].start <= pair[1].start);
    }
    assert_eq!(units[3].text, "d e");
    assert_eq!((units[3].start, units[3].end), (150, 400));
}

fn unit(start: i64, end: i64, text: &str) -> Timestamp {
    Timestamp { start, end, text: text.to_string() }
}

#[test]
fn sources_are_combined_in_the_order_of_their_starts() {
    let first = vec![unit(0, 10, "a"), unit(50, 60, "c"), unit(90, 95, "e")];
    let second = vec![unit(20, 30, "b"), unit(50, 55, "d"), unit(0, 5, "late")];
    let units = TranscriptReconstructor::combine(vec![first, second]);
    assert_eq!(
        triples(&units),
        vec![
            (0, 10, "a".to_string()),
            (0, 5, "late".to_string()),
            (20, 30, "b".to_string()),
            (50, 60, "c".to_string()),
            (50, 55, "d".to_string()),
            (90, 95, "e".to_string()),
        ]
    );
    assert!(TranscriptReconstructor::combine(Vec::new()).is_empty());
    assert!(TranscriptReconstructor::combine(vec![Vec::new(), Vec::new()]).is_empty());
}
