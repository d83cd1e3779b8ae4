use clive::assemble::ClipAssembler;
use clive::units::Clip;

fn clip(start: i64, end: i64, keyword: &str) -> Clip {
    Clip { start, end, keyword: keyword.to_string() }
}

fn triples(clips: &[Clip]) -> Vec<(i64, i64, String)> {
    clips.iter().map(|c| (c.start, c.end, c.keyword.clone())).collect()
}

#[test]
fn overlapping_clips_are_merged() {
    let merged = ClipAssembler::merge(vec![clip(0, 1000, "a"), clip(800, 2000, "b")]);
    assert_eq!(triples(&merged), vec![(0, 2000, "a, b".to_string())]);
}

#[test]
fn unsorted_clips_are_sorted_first() {
    let merged = ClipAssembler::merge(vec![clip(800, 2000, "b"), clip(0, 1000, "a")]);
    assert_eq!(triples(&merged), vec![(0, 2000, "a, b".to_string())]);
}

#[test]
fn touching_clips_are_merged_and_apart_clips_are_not() {
    let merged = ClipAssembler::merge(vec![clip(0, 10, "a"), clip(10, 20, "b"), clip(21, 30, "c")]);
    assert_eq!(triples(&merged), vec![(0, 20, "a, b".to_string()), (21, 30, "c".to_string())]);
}

#[test]
fn a_clip_inside_another_leaves_its_end() {
    let merged = ClipAssembler::merge(vec![clip(0, 100, "outer"), clip(10, 20, "inner")]);
    assert_eq!(triples(&merged), vec![(0, 100, "outer, inner".to_string())]);
}

#[test]
fn merge_of_nothing_is_nothing() {
    assert!(ClipAssembler::merge(Vec::new()).is_empty());
}

#[test]
fn sort_is_stable() {
    let sorted = ClipAssembler::sort(vec![
        clip(5, 6, "first"),
        clip(1, 2, "x"),
        clip(5, 9, "second"),
        clip(5, 7, "third"),
    ]);
    assert_eq!(
        triples(&sorted),
        vec![
            (1, 2, "x".to_string()),
            (5, 6, "first".to_string()),
            (5, 9, "second".to_string()),
            (5, 7, "third".to_string()),
        ]
    );
}

#[test]
fn merge_is_idempotent() {
    let input = vec![
        clip(300, 400, "d"),
        clip(0, 100, "a"),
        clip(50, 120, "b"),
        clip(121, 130, "c"),
        clip(350, 360, "e"),
    ];
    let once = ClipAssembler::merge(input);
    let twice = ClipAssembler::merge(once.clone());
    assert_eq!(triples(&once), triples(&twice));
    assert_eq!(
        triples(&once),
        vec![
            (0, 120, "a, b".to_string()),
            (121, 130, "c".to_string()),
            (300, 400, "d, e".to_string()),
        ]
    );
}

#[test]
fn merged_clips_are_sorted_apart_and_cover_the_same_times() {
    let input = vec![
        clip(40, 45, "a"),
        clip(0, 10, "b"),
        clip(8, 12, "c"),
        clip(44, 60, "d"),
        clip(13, 13, "e"),
        clip(12, 12, "f"),
    ];
    let merged = ClipAssembler::merge(input.clone());
    for pair in merged.windows(2) {
        assert!(pair[0].start <= pair[1].start);
        assert!(pair[0].end < pair[1].start);
    }
    for t in -5..70 {
        let in_input = input.iter().any(|c| c.start <= t && t <= c.end);
        let in_merged = merged.iter().any(|c| c.start <= t && t <= c.end);
        assert_eq!(in_input, in_merged, "at time {}", t);
    }
    for c in &input {
        let holders = merged.iter().filter(|m| m.start <= c.start && c.end <= m.end).count();
        assert_eq!(holders, 1);
    }
}
