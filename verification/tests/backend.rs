use ged::{GrepHit, GrepMode, GrepOptions, GrepResult, Git};

#[test]
fn test_new() {
    assert!(Git::new().is_ok());
}

fn opts(mode: GrepMode) -> GrepOptions {
    GrepOptions {
        mode,
        function: false,
        ignore_case: false,
        word_boundary: false,
        max_depth: None,
        only: Vec::new(),
        exclude: Vec::new(),
    }
}

#[test]
fn expand_options_emits_mode_flag() {
    let git = Git::new().unwrap();
    let mut args: Vec<String> = Vec::new();
    git.expand_options(&opts(GrepMode::Basic), &mut args);
    assert_eq!(args, vec!["--basic-regexp".to_string()]);

    let mut args2: Vec<String> = Vec::new();
    git.expand_options(&opts(GrepMode::Pcre), &mut args2);
    assert_eq!(args2, vec!["--perl-regexp".to_string()]);
}

#[test]
fn expand_options_emits_switches_in_order() {
    let git = Git::new().unwrap();
    let mut o = opts(GrepMode::Extended);
    o.function = true;
    o.ignore_case = true;
    o.word_boundary = true;
    o.max_depth = Some(3);
    let mut args: Vec<String> = Vec::new();
    git.expand_options(&o, &mut args);
    assert_eq!(
        args,
        vec![
            "--extended-regexp".to_string(),
            "--function-context".to_string(),
            "--ignore-case".to_string(),
            "--word-regexp".to_string(),
            "--max-depth=3".to_string(),
        ]
    );
}

#[test]
fn overlap_merge_takes_the_far_end() {
    // two overlapping hits collapse to one span up to the farther end
    let mut g = GrepResult {
        files: vec!["f".to_string()],
        hits: vec![
            GrepHit { file_id: 0, from: 10, n_lines: 5, level: 0 },
            GrepHit { file_id: 0, from: 14, n_lines: 3, level: 0 },
        ],
    };
    g.filter_overlaps().unwrap();
    assert_eq!(g.hits, vec![GrepHit { file_id: 0, from: 10, n_lines: 7, level: 0 }]);
}
