use ged::{GeError, GrepHit, GrepResult, HalfDiffConfig, HunkOptions, Hunks, PatchBuilder};

fn opts_none() -> HunkOptions {
    HunkOptions {
        context: None,
        before: None,
        after: None,
        head: None,
        with: None,
        without: None,
        to: None,
    }
}

fn sample_builder() -> PatchBuilder {
    // two single-line hits in one file, as the passthrough scenario has them
    let raw = "a.txt\u{0}0002\u{0}  fox\na.txt\u{0}0005\u{0}  dog";
    let grep = GrepResult::from_raw(raw, true).unwrap();
    assert_eq!(grep.files, vec!["a.txt".to_string()]);
    let matches = Hunks::collect_matches(grep, None, None, None, &opts_none()).unwrap();
    let contents = vec![vec![
        "zero".to_string(),
        "  fox".to_string(),
        "two".to_string(),
        "three".to_string(),
        "  dog".to_string(),
        "five".to_string(),
    ]];
    let hunks = Hunks::collect_hunks(matches, &contents);
    assert_eq!(hunks.files.len(), 1);
    assert_eq!(hunks.hunks.len(), 2);
    let config = HalfDiffConfig { header: None, hunk: None };
    PatchBuilder::from_hunks(&config, hunks).unwrap()
}

#[test]
fn passthrough_renders_and_parses_to_empty_patch() {
    let builder = sample_builder();
    let text = builder.write_halfdiff();
    assert_eq!(text, "+++ a.txt\n@@ 2,1\n  fox\n@@ 5,1\n  dog\n");
    let patch = builder.parse_halfdiff(&text).unwrap();
    assert_eq!(patch, "");
}

#[test]
fn single_substitution_emits_one_hunk() {
    let builder = sample_builder();
    let edited = "+++ a.txt\n@@ 2,1\n  cat\n@@ 5,1\n  dog\n";
    let patch = builder.parse_halfdiff(edited).unwrap();
    assert_eq!(
        patch,
        "--- a/a.txt\n+++ b/a.txt\n@@ -1,1 +1,1 @@\n-  fox\n+  cat\n"
    );
}

#[test]
fn insertion_suppresses_unchanged_hunk() {
    let builder = sample_builder();
    let edited = "+++ a.txt\n@@ 2,1\n  cat\n  tiger\n@@ 5,1\n  dog\n";
    let patch = builder.parse_halfdiff(edited).unwrap();
    assert_eq!(
        patch,
        "--- a/a.txt\n+++ b/a.txt\n@@ -1,1 +1,2 @@\n-  fox\n+  cat\n+  tiger\n"
    );
}

#[test]
fn deletion_shifts_later_hunk_start() {
    let builder = sample_builder();
    // delete the first hunk's line, change the second one too
    let edited = "+++ a.txt\n@@ 2,1\n@@ 5,1\n  wolf\n";
    let patch = builder.parse_halfdiff(edited).unwrap();
    assert_eq!(
        patch,
        "--- a/a.txt\n+++ b/a.txt\n@@ -1,1 +1,0 @@\n-  fox\n@@ -4,1 +3,1 @@\n-  dog\n+  wolf\n"
    );
}

#[test]
fn marker_collision_extends_default_header() {
    let hunks = Hunks {
        files: vec!["a.txt".to_string()],
        hunks: vec![(0, 0, vec!["+++ looks like a header".to_string()])],
    };
    let config = HalfDiffConfig { header: None, hunk: None };
    let builder = PatchBuilder::from_hunks(&config, hunks).unwrap();
    let text = builder.write_halfdiff();
    assert_eq!(text, "++++ a.txt\n@@ 1,1\n+++ looks like a header\n");
}

#[test]
fn marker_collision_on_fixed_marker_fails() {
    let hunks = Hunks {
        files: vec!["a.txt".to_string()],
        hunks: vec![(0, 0, vec!["+++ looks like a header".to_string()])],
    };
    let config = HalfDiffConfig { header: Some("+++"), hunk: None };
    let r = PatchBuilder::from_hunks(&config, hunks);
    assert_eq!(r.err().unwrap(), GeError::MarkerCollision);
}

#[test]
fn hunk_marker_collision_extends_default() {
    let hunks = Hunks {
        files: vec!["a.txt".to_string()],
        hunks: vec![(0, 0, vec!["@@ looks like a hunk".to_string()])],
    };
    let config = HalfDiffConfig { header: None, hunk: None };
    let builder = PatchBuilder::from_hunks(&config, hunks).unwrap();
    let text = builder.write_halfdiff();
    assert_eq!(text, "+++ a.txt\n@@@ 1,1\n@@ looks like a hunk\n");
}

#[test]
fn unknown_file_is_reported() {
    let builder = sample_builder();
    let r = builder.parse_halfdiff("+++ b.txt\n@@ 2,1\n  fox\n");
    assert_eq!(r.err().unwrap(), GeError::UnknownFile);
}

#[test]
fn unknown_hunk_is_reported() {
    let builder = sample_builder();
    let r = builder.parse_halfdiff("+++ a.txt\n@@ 3,1\n  fox\n");
    assert_eq!(r.err().unwrap(), GeError::UnknownHunk);
}

#[test]
fn malformed_coordinate_is_reported() {
    let builder = sample_builder();
    let r = builder.parse_halfdiff("+++ a.txt\n@@ zz\n  fox\n");
    assert_eq!(r.err().unwrap(), GeError::MalformedHunkCoordinate);
}

#[test]
fn orphan_line_is_reported() {
    let builder = sample_builder();
    let r = builder.parse_halfdiff("stray body line\n");
    assert_eq!(r.err().unwrap(), GeError::OrphanLine);
}

#[test]
fn empty_edit_gives_empty_patch() {
    let builder = sample_builder();
    assert_eq!(builder.parse_halfdiff("").unwrap(), "");
}

#[test]
fn error_descriptions_are_nonempty() {
    let kinds = [
        GeError::MalformedGrepLine,
        GeError::UnknownFile,
        GeError::MarkerCollision,
        GeError::MalformedHunkCoordinate,
        GeError::UnknownHunk,
        GeError::OrphanLine,
    ];
    for k in kinds.iter() {
        assert!(!k.describe().is_empty());
    }
}

#[test]
fn truncated_hunk_at_end_of_file() {
    // a hit that runs past the end of its file is cut short silently
    let raw = "a.txt\u{0}2\u{0}last";
    let grep = GrepResult::from_raw(raw, true).unwrap();
    let mut opts = opts_none();
    opts.after = Some(5);
    let matches = Hunks::collect_matches(grep, None, None, None, &opts).unwrap();
    let contents = vec![vec!["zero".to_string(), "last".to_string()]];
    let hunks = Hunks::collect_hunks(matches, &contents);
    assert_eq!(hunks.hunks.len(), 1);
    assert_eq!(hunks.hunks[0].1, 1);
    assert_eq!(hunks.hunks[0].2, vec!["last".to_string()]);
}

#[test]
fn crlf_line_endings_parse_like_bare_newlines() {
    let builder = sample_builder();
    let edited = "+++ a.txt\r\n@@ 2,1\r\n  fox\r\n@@ 5,1\r\n  dog\r\n";
    assert_eq!(builder.parse_halfdiff(edited).unwrap(), "");
}

#[test]
fn reordered_unedited_hunks_still_give_empty_patch() {
    let builder = sample_builder();
    let edited = "+++ a.txt\n@@ 5,1\n  dog\n@@ 2,1\n  fox\n";
    assert_eq!(builder.parse_halfdiff(edited).unwrap(), "");
}

#[test]
fn coordinate_shift_resets_at_each_file() {
    let hunks = Hunks {
        files: vec!["a.txt".to_string(), "b.txt".to_string()],
        hunks: vec![
            (0, 1, vec!["fox".to_string()]),
            (1, 3, vec!["dog".to_string()]),
        ],
    };
    let config = HalfDiffConfig { header: None, hunk: None };
    let builder = PatchBuilder::from_hunks(&config, hunks).unwrap();
    // delete the first file's line; the second file's hunk starts unshifted
    let edited = "+++ a.txt\n@@ 2,1\n+++ b.txt\n@@ 4,1\nwolf\n";
    let patch = builder.parse_halfdiff(edited).unwrap();
    assert_eq!(
        patch,
        "--- a/a.txt\n+++ b/a.txt\n@@ -1,1 +1,0 @@\n-fox\n\
         --- a/b.txt\n+++ b/b.txt\n@@ -3,1 +3,1 @@\n-dog\n+wolf\n"
    );
}
