use ged::{GeError, GrepHit, GrepResult, HunkOptions, Hunks};

fn hit(file_id: usize, from: usize, n_lines: usize, level: usize) -> GrepHit {
    GrepHit { file_id, from, n_lines, level }
}

#[test]
fn parse_line_splits_on_nuls() {
    let (name, from, level) = GrepResult::parse_line("src/x.rs\u{0}12\u{0}\tbody").unwrap();
    assert_eq!(name, "src/x.rs");
    assert_eq!(from, 11);
    assert_eq!(level, 1);
}

#[test]
fn parse_line_rejects_missing_nuls_and_bad_numbers() {
    assert_eq!(
        GrepResult::parse_line("no delimiters here").err().unwrap(),
        GeError::MalformedGrepLine
    );
    assert_eq!(
        GrepResult::parse_line("a\u{0}12 only one").err().unwrap(),
        GeError::MalformedGrepLine
    );
    assert_eq!(
        GrepResult::parse_line("a\u{0}12x\u{0}body").err().unwrap(),
        GeError::MalformedGrepLine
    );
    assert_eq!(
        GrepResult::parse_line("a\u{0}0\u{0}body").err().unwrap(),
        GeError::MalformedGrepLine
    );
}

#[test]
fn from_raw_sorts_and_deduplicates_files() {
    let raw = "b.txt\u{0}1\u{0}x\na.txt\u{0}2\u{0}y\nb.txt\u{0}9\u{0}z";
    let g = GrepResult::from_raw(raw, false).unwrap();
    assert_eq!(g.files, vec!["a.txt".to_string(), "b.txt".to_string()]);
    assert_eq!(g.hits, vec![hit(0, 1, 1, 0), hit(1, 0, 1, 0), hit(1, 8, 1, 0)]);
}

#[test]
fn from_raw_merges_adjacent_lines() {
    let raw = "a\u{0}1\u{0}x\na\u{0}2\u{0}y\na\u{0}4\u{0}z\n--";
    let g = GrepResult::from_raw(raw, true).unwrap();
    assert_eq!(g.hits, vec![hit(0, 0, 2, 0), hit(0, 3, 1, 0)]);
    let g2 = GrepResult::from_raw(raw, false).unwrap();
    assert_eq!(g2.hits.len(), 3);
}

#[test]
fn from_raw_reports_malformed_lines() {
    let raw = "a\u{0}1\u{0}x\nbroken";
    assert_eq!(
        GrepResult::from_raw(raw, true).err().unwrap(),
        GeError::MalformedGrepLine
    );
}

#[test]
fn filter_files_keeps_and_drops_by_name() {
    let mut g = GrepResult {
        files: vec!["a".to_string(), "b".to_string()],
        hits: vec![hit(0, 0, 1, 0), hit(1, 3, 1, 0)],
    };
    let sec = GrepResult { files: vec!["b".to_string()], hits: vec![] };
    g.filter_files(&sec, false).unwrap();
    assert_eq!(g.hits, vec![hit(1, 3, 1, 0)]);

    let mut g2 = GrepResult {
        files: vec!["a".to_string(), "b".to_string()],
        hits: vec![hit(0, 0, 1, 0), hit(1, 3, 1, 0)],
    };
    g2.filter_files(&sec, true).unwrap();
    assert_eq!(g2.hits, vec![hit(0, 0, 1, 0)]);
}

#[test]
fn collect_head_keeps_one_hit_per_file() {
    let mut g = GrepResult {
        files: vec!["a".to_string(), "b".to_string()],
        hits: vec![hit(0, 2, 1, 0), hit(0, 7, 2, 4), hit(1, 5, 1, 0)],
    };
    g.collect_head(3).unwrap();
    assert_eq!(g.hits, vec![hit(0, 0, 3, 0), hit(1, 0, 3, 0)]);
}

#[test]
fn extend_to_another_uses_earliest_same_level_anchor() {
    // anchors at the same indent extend the hit down to the anchor's end;
    // an anchor at another indent is passed over
    let mut g = GrepResult {
        files: vec!["f".to_string()],
        hits: vec![hit(0, 10, 1, 0), hit(0, 30, 1, 0)],
    };
    let sec = GrepResult {
        files: vec!["f".to_string()],
        hits: vec![hit(0, 12, 1, 4), hit(0, 15, 1, 0), hit(0, 35, 1, 0)],
    };
    g.extend_to_another(&sec).unwrap();
    assert_eq!(g.hits, vec![hit(0, 10, 6, 0), hit(0, 30, 6, 0)]);
}

#[test]
fn extend_to_another_leaves_unanchored_hits_alone() {
    let mut g = GrepResult { files: vec!["f".to_string()], hits: vec![hit(0, 10, 1, 2)] };
    let sec = GrepResult { files: vec!["g".to_string()], hits: vec![hit(0, 15, 1, 2)] };
    g.extend_to_another(&sec).unwrap();
    assert_eq!(g.hits, vec![hit(0, 10, 1, 2)]);
}

#[test]
fn extend_by_lines_pads_and_saturates_at_top() {
    let mut g = GrepResult {
        files: vec!["f".to_string()],
        hits: vec![hit(0, 5, 2, 0), hit(0, 40, 1, 0)],
    };
    g.extend_by_lines(10, 3).unwrap();
    assert_eq!(g.hits, vec![hit(0, 0, 10, 0), hit(0, 30, 14, 0)]);
}

#[test]
fn filter_overlaps_merges_touching_and_overlapping() {
    let mut g = GrepResult {
        files: vec!["f".to_string()],
        hits: vec![hit(0, 10, 5, 0), hit(0, 14, 3, 0), hit(0, 17, 1, 0), hit(0, 30, 2, 0)],
    };
    g.filter_overlaps().unwrap();
    assert_eq!(g.hits, vec![hit(0, 10, 8, 0), hit(0, 30, 2, 0)]);
}

#[test]
fn filter_overlaps_keeps_far_end_of_contained_hit() {
    let mut g = GrepResult {
        files: vec!["f".to_string()],
        hits: vec![hit(0, 10, 10, 0), hit(0, 12, 2, 0)],
    };
    g.filter_overlaps().unwrap();
    assert_eq!(g.hits, vec![hit(0, 10, 10, 0)]);
}

#[test]
fn filter_overlaps_respects_file_boundaries() {
    let mut g = GrepResult {
        files: vec!["a".to_string(), "b".to_string()],
        hits: vec![hit(0, 10, 5, 0), hit(1, 12, 2, 0)],
    };
    g.filter_overlaps().unwrap();
    assert_eq!(g.hits.len(), 2);
}

#[test]
fn collect_matches_runs_the_whole_pipeline() {
    let primary = GrepResult {
        files: vec!["a".to_string(), "b".to_string()],
        hits: vec![hit(0, 2, 1, 0), hit(1, 5, 1, 0), hit(1, 6, 1, 0)],
    };
    let with = GrepResult { files: vec!["b".to_string()], hits: vec![] };
    let opts = HunkOptions {
        context: Some(1),
        before: None,
        after: None,
        head: None,
        with: Some("x".to_string()),
        without: None,
        to: None,
    };
    let out = Hunks::collect_matches(primary, Some(&with), None, None, &opts).unwrap();
    // only file b's hits survive, each padded by one line, then merged
    assert_eq!(out.hits, vec![hit(1, 4, 4, 0)]);
}

#[test]
fn collect_matches_extends_then_pads() {
    let primary = GrepResult { files: vec!["f".to_string()], hits: vec![hit(0, 10, 1, 0)] };
    let to = GrepResult { files: vec!["f".to_string()], hits: vec![hit(0, 14, 1, 0)] };
    let opts = HunkOptions {
        context: None,
        before: Some(2),
        after: Some(1),
        head: None,
        with: None,
        without: None,
        to: Some("}".to_string()),
    };
    let out = Hunks::collect_matches(primary, None, None, Some(&to), &opts).unwrap();
    // extended to line 14 inclusive, then two lines up and one down
    assert_eq!(out.hits, vec![hit(0, 8, 8, 0)]);
}

#[test]
fn collect_head_zero_gives_empty_hits() {
    let mut g = GrepResult { files: vec!["a".to_string()], hits: vec![hit(0, 3, 2, 1)] };
    g.collect_head(0).unwrap();
    assert_eq!(g.hits, vec![hit(0, 0, 0, 0)]);
}
