use alt::ratio::Ratio;
use alt::scoring::ScoredPath;
use alt::{
    find_alt, find_alt_with_threads, order_scored_paths, scored_paths_to_string,
    truncate_scored_paths, FindAltWithThreadsError,
};

#[test]
fn truncate_scored_paths_with_zero_len() {
    let mut scored_paths: Vec<ScoredPath> = vec![
        ScoredPath::new(Ratio::new(8, 10), "some/path/to/a/file.ts".to_owned()),
        ScoredPath::new(Ratio::new(4, 10), "some/path/to/another/foo.ts".to_owned()),
        ScoredPath::new(Ratio::new(2, 10), "some/other_path/to/a/bar.ts".to_owned()),
        ScoredPath::new(Ratio::new(1, 10), "some/short/path/zoo.ts".to_owned()),
        ScoredPath::new(Ratio::new(23, 1000), "some/blue/fortytwo/sports_ball.ts".to_owned()),
    ];

    truncate_scored_paths(&mut scored_paths, 0);

    assert_eq!(scored_paths.len(), 5);
}

#[test]
fn truncate_scored_paths_with_non_zero_len() {
    let mut scored_paths: Vec<ScoredPath> = vec![
        ScoredPath::new(Ratio::new(8, 10), "some/path/to/a/file.ts".to_owned()),
        ScoredPath::new(Ratio::new(4, 10), "some/path/to/another/foo.ts".to_owned()),
        ScoredPath::new(Ratio::new(2, 10), "some/other_path/to/a/bar.ts".to_owned()),
        ScoredPath::new(Ratio::new(1, 10), "some/short/path/zoo.ts".to_owned()),
        ScoredPath::new(Ratio::new(23, 1000), "some/blue/fortytwo/sports_ball.ts".to_owned()),
    ];

    truncate_scored_paths(&mut scored_paths, 3);

    assert_eq!(scored_paths.len(), 3);
}

#[test]
fn order_scored_paths_with_a_larger() {
    let ordering = order_scored_paths(
        &ScoredPath::new(Ratio::new(3, 10), "some/path/to/a/file.ts".to_owned()),
        &ScoredPath::new(Ratio::new(2, 10), "some/other/path/bar.ts".to_owned()),
    );

    assert_eq!(ordering, std::cmp::Ordering::Less);
}

#[test]
fn order_scored_paths_with_a_smaller() {
    let ordering = order_scored_paths(
        &ScoredPath::new(Ratio::new(2, 10), "some/path/to/a/file.ts".to_owned()),
        &ScoredPath::new(Ratio::new(3, 10), "some/other/path/bar.ts".to_owned()),
    );

    assert_eq!(ordering, std::cmp::Ordering::Greater);
}

#[test]
fn order_scored_paths_with_a_and_b_equal() {
    let ordering = order_scored_paths(
        &ScoredPath::new(Ratio::new(3, 10), "some/path/to/a/file.ts".to_owned()),
        &ScoredPath::new(Ratio::new(3, 10), "some/other/path/bar.ts".to_owned()),
    );

    assert_eq!(ordering, std::cmp::Ordering::Equal);
}

#[test]
fn find_alt_scores_paths_and_sorts_them_by_score() {
    let paths: Vec<String> = vec![
        "src/database/nft-wallet/nft-wallet.repository.spec.ts".to_owned(),
        "src/models/mocks/nft-wallet.mocks.ts".to_owned(),
        "src/concerns/nft/models/mockes/nft-wallet.mocks.ts".to_owned(),
        "src/concerns/nft/models/nft-wallet.ts".to_owned(),
        "src/database/nft-wallet/nft-wallet.repository.ts".to_owned(),
    ];
    let scored_paths: Vec<ScoredPath> = find_alt(
        "src/models/nft-wallet.ts",
        paths,
        0,
        Ratio::new(10, 1),
        Ratio::new(1, 1),
    );
    assert_eq!(scored_paths.len(), 5);
    assert!(scored_paths[0].score.gt(&scored_paths[1].score));
    assert!(scored_paths[1].score.gt(&scored_paths[2].score));
    assert!(scored_paths[2].score.gt(&scored_paths[3].score));
    assert!(scored_paths[3].score.gt(&scored_paths[4].score));

    let stripped_scored_paths: Vec<String> =
        scored_paths.into_iter().map(|s| s.path).collect();
    assert_eq!(
        stripped_scored_paths,
        vec![
            "src/concerns/nft/models/nft-wallet.ts",
            "src/models/mocks/nft-wallet.mocks.ts",
            "src/concerns/nft/models/mockes/nft-wallet.mocks.ts",
            "src/database/nft-wallet/nft-wallet.repository.ts",
            "src/database/nft-wallet/nft-wallet.repository.spec.ts"
        ]
    )
}

#[test]
fn find_alt_scores_paths_and_drops_full_matches() {
    let paths: Vec<String> = vec![
        "src/models/nft-wallet.ts".to_owned(), // should be dropped
        "src/database/nft-wallet/nft-wallet.repository.spec.ts".to_owned(),
        "src/models/mocks/nft-wallet.mocks.ts".to_owned(),
        "src/concerns/nft/models/mockes/nft-wallet.mocks.ts".to_owned(),
        "src/concerns/nft/models/nft-wallet.ts".to_owned(),
        "src/database/nft-wallet/nft-wallet.repository.ts".to_owned(),
    ];
    let scored_paths: Vec<ScoredPath> = find_alt(
        "src/models/nft-wallet.ts",
        paths,
        0,
        Ratio::new(10, 1),
        Ratio::new(1, 1),
    );
    assert_eq!(scored_paths.len(), 5);

    let stripped_scored_paths: Vec<String> =
        scored_paths.into_iter().map(|s| s.path).collect();
    assert_eq!(
        stripped_scored_paths,
        vec![
            "src/concerns/nft/models/nft-wallet.ts",
            "src/models/mocks/nft-wallet.mocks.ts",
            "src/concerns/nft/models/mockes/nft-wallet.mocks.ts",
            "src/database/nft-wallet/nft-wallet.repository.ts",
            "src/database/nft-wallet/nft-wallet.repository.spec.ts"
        ]
    )
}

#[test]
fn find_alt_truncates_when_truncate_len_is_greater_than_zero() {
    let paths: Vec<String> = vec![
        "src/database/nft-wallet/nft-wallet.repository.spec.ts".to_owned(),
        "src/models/mocks/nft-wallet.mocks.ts".to_owned(),
        "src/concerns/nft/models/mockes/nft-wallet.mocks.ts".to_owned(),
        "src/concerns/nft/models/nft-wallet.ts".to_owned(),
        "src/database/nft-wallet/nft-wallet.repository.ts".to_owned(),
    ];
    let scored_paths: Vec<ScoredPath> = find_alt(
        "src/models/nft-wallet.ts",
        paths,
        3,
        Ratio::new(10, 1),
        Ratio::new(1, 1),
    );
    assert_eq!(scored_paths.len(), 3);
    assert!(scored_paths[0].score.gt(&scored_paths[1].score));
    assert!(scored_paths[1].score.gt(&scored_paths[2].score));

    let stripped_scored_paths: Vec<String> =
        scored_paths.into_iter().map(|s| s.path).collect();
    assert_eq!(
        stripped_scored_paths,
        vec![
            "src/concerns/nft/models/nft-wallet.ts",
            "src/models/mocks/nft-wallet.mocks.ts",
            "src/concerns/nft/models/mockes/nft-wallet.mocks.ts",
        ]
    )
}

#[test]
fn find_alt_does_not_truncate_results_when_truncate_len_is_zero() {
    let paths: Vec<String> = vec![
        "src/database/nft-wallet/nft-wallet.repository.spec.ts".to_owned(),
        "src/models/mocks/nft-wallet.mocks.ts".to_owned(),
        "src/concerns/nft/models/mockes/nft-wallet.mocks.ts".to_owned(),
        "src/concerns/nft/models/nft-wallet.ts".to_owned(),
        "src/database/nft-wallet/nft-wallet.repository.ts".to_owned(),
    ];
    let scored_paths: Vec<ScoredPath> = find_alt(
        "src/models/nft-wallet.ts",
        paths,
        0,
        Ratio::new(10, 1),
        Ratio::new(1, 1),
    );
    assert_eq!(scored_paths.len(), 5);
    assert!(scored_paths[0].score.gt(&scored_paths[1].score));
    assert!(scored_paths[1].score.gt(&scored_paths[2].score));
    assert!(scored_paths[2].score.gt(&scored_paths[3].score));
    assert!(scored_paths[3].score.gt(&scored_paths[4].score));

    let stripped_scored_paths: Vec<String> =
        scored_paths.into_iter().map(|s| s.path).collect();
    assert_eq!(
        stripped_scored_paths,
        vec![
            "src/concerns/nft/models/nft-wallet.ts",
            "src/models/mocks/nft-wallet.mocks.ts",
            "src/concerns/nft/models/mockes/nft-wallet.mocks.ts",
            "src/database/nft-wallet/nft-wallet.repository.ts",
            "src/database/nft-wallet/nft-wallet.repository.spec.ts"
        ]
    )
}

#[test]
fn find_alt_with_larger_path_weight() {
    let paths: Vec<String> = vec![
        "src/database/nft-wallet/nft-wallet.repository.spec.ts".to_owned(),
        "src/models/mocks/nft-wallet.mocks.ts".to_owned(),
        "src/concerns/nft/models/mockes/nft-wallet.mocks.ts".to_owned(),
        "src/concerns/nft/models/nft-wallet.ts".to_owned(),
        "src/database/nft-wallet/nft-wallet.repository.ts".to_owned(),
    ];
    let scored_paths: Vec<ScoredPath> = find_alt(
        "src/models/nft-wallet.ts",
        paths,
        0,
        Ratio::new(1, 1),
        Ratio::new(10, 1),
    );
    assert_eq!(scored_paths.len(), 5);

    let stripped_scored_paths: Vec<String> =
        scored_paths.into_iter().map(|s| s.path).collect();
    assert_eq!(
        stripped_scored_paths,
        vec![
            "src/models/mocks/nft-wallet.mocks.ts",
            "src/concerns/nft/models/nft-wallet.ts",
            "src/concerns/nft/models/mockes/nft-wallet.mocks.ts",
            "src/database/nft-wallet/nft-wallet.repository.ts",
            "src/database/nft-wallet/nft-wallet.repository.spec.ts"
        ]
    )
}

#[test]
fn find_alt_drops_a_match_of_the_target_after_cleansing() {
    let paths: Vec<String> = vec![
        "./src/models/nft-wallet.ts".to_owned(),
        "src/concerns/nft/models/nft-wallet.ts".to_owned(),
    ];
    let scored_paths: Vec<ScoredPath> = find_alt(
        "src/models/nft-wallet.ts",
        paths,
        0,
        Ratio::new(10, 1),
        Ratio::new(1, 1),
    );
    assert_eq!(scored_paths.len(), 1);
    assert_eq!(scored_paths[0].path, "src/concerns/nft/models/nft-wallet.ts");
}

#[test]
fn find_alt_with_threads_errors_when_no_parallelism_is_known() {
    let paths: Vec<String> = vec!["src/concerns/nft/models/nft-wallet.ts".to_owned()];
    let result = find_alt_with_threads(
        "src/models/nft-wallet.ts",
        paths,
        0,
        Ratio::new(10, 1),
        Ratio::new(1, 1),
        0,
    );
    assert!(matches!(
        result,
        Err(FindAltWithThreadsError::NoAvailableParallelism)
    ));
}

#[test]
fn find_alt_with_threads_matches_find_alt() {
    let paths: Vec<String> = vec![
        "src/database/nft-wallet/nft-wallet.repository.spec.ts".to_owned(),
        "src/models/mocks/nft-wallet.mocks.ts".to_owned(),
        "src/concerns/nft/models/mockes/nft-wallet.mocks.ts".to_owned(),
        "src/concerns/nft/models/nft-wallet.ts".to_owned(),
        "src/database/nft-wallet/nft-wallet.repository.ts".to_owned(),
    ];
    let sequential = find_alt(
        "src/models/nft-wallet.ts",
        paths.clone(),
        0,
        Ratio::new(10, 1),
        Ratio::new(1, 1),
    );
    for units in [1usize, 2, 3, 8] {
        let chunked = find_alt_with_threads(
            "src/models/nft-wallet.ts",
            paths.clone(),
            0,
            Ratio::new(10, 1),
            Ratio::new(1, 1),
            units,
        )
        .unwrap();
        assert_eq!(chunked.len(), sequential.len());
        for (a, b) in chunked.iter().zip(sequential.iter()) {
            assert_eq!(a.path, b.path);
            assert!(a.score.eq_value(&b.score));
        }
    }
}

#[test]
fn find_alt_with_threads_matches_find_alt_on_generated_paths() {
    // a small linear-congruential generator keeps the paths deterministic
    let mut state: u64 = 0x2545_f491_4f6c_dd1d;
    let segments = [
        "src", "lib", "app", "spec", "test", "models", "wallet", "foo", "bar", "car",
    ];
    let names = ["wallet", "foo_spec", "bar_test", "car", "zoo", "thing"];
    let exts = ["rb", "ts", "js", "py"];
    let mut paths: Vec<String> = Vec::new();
    for _ in 0..40 {
        let mut p = String::new();
        state = state.wrapping_mul(6364136223846793005).wrapping_add(1442695040888963407);
        let depth = (state >> 33) as usize % 4;
        for _ in 0..depth {
            state = state.wrapping_mul(6364136223846793005).wrapping_add(1442695040888963407);
            p.push_str(segments[(state >> 33) as usize % segments.len()]);
            p.push('/');
        }
        state = state.wrapping_mul(6364136223846793005).wrapping_add(1442695040888963407);
        p.push_str(names[(state >> 33) as usize % names.len()]);
        p.push('.');
        state = state.wrapping_mul(6364136223846793005).wrapping_add(1442695040888963407);
        p.push_str(exts[(state >> 33) as usize % exts.len()]);
        paths.push(p);
    }
    for (truncate_len, units) in [(0usize, 1usize), (0, 3), (5, 4), (7, 16), (40, 6)] {
        let sequential = find_alt(
            "src/models/wallet.rb",
            paths.clone(),
            truncate_len,
            Ratio::new(10, 1),
            Ratio::new(1, 1),
        );
        let chunked = find_alt_with_threads(
            "src/models/wallet.rb",
            paths.clone(),
            truncate_len,
            Ratio::new(10, 1),
            Ratio::new(1, 1),
            units,
        )
        .unwrap();
        assert_eq!(chunked.len(), sequential.len());
        for (a, b) in chunked.iter().zip(sequential.iter()) {
            assert_eq!(a.path, b.path);
            assert!(a.score.eq_value(&b.score));
        }
    }
}

#[test]
fn find_alt_with_threads_handles_an_empty_candidate_list() {
    let result = find_alt_with_threads(
        "src/models/nft-wallet.ts",
        Vec::new(),
        0,
        Ratio::new(10, 1),
        Ratio::new(1, 1),
        4,
    )
    .unwrap();
    assert_eq!(result.len(), 0);
}

#[test]
fn find_alt_with_an_empty_target_scores_every_candidate_zero() {
    let paths: Vec<String> = vec!["a/b.ts".to_owned(), "c/d.ts".to_owned()];
    let scored_paths = find_alt("", paths, 0, Ratio::new(10, 1), Ratio::new(1, 1));
    assert_eq!(scored_paths.len(), 2);
    assert!(scored_paths[0].score.is_zero());
    assert!(scored_paths[1].score.is_zero());
    assert_eq!(scored_paths[0].path, "a/b.ts");
    assert_eq!(scored_paths[1].path, "c/d.ts");
}

#[test]
fn find_alt_keeps_input_order_among_equal_scores() {
    let paths: Vec<String> = vec![
        "x/one.ts".to_owned(),
        "x/two.ts".to_owned(),
        "x/three.ts".to_owned(),
    ];
    // the target shares only the directory with each candidate, so all
    // three scores are the same positive value
    let scored_paths = find_alt("x/zzzz.q", paths, 0, Ratio::new(10, 1), Ratio::new(1, 1));
    assert_eq!(scored_paths.len(), 3);
    assert!(scored_paths[0].score.eq_value(&scored_paths[1].score));
    assert!(scored_paths[1].score.eq_value(&scored_paths[2].score));
    assert_eq!(scored_paths[0].path, "x/one.ts");
    assert_eq!(scored_paths[1].path, "x/two.ts");
    assert_eq!(scored_paths[2].path, "x/three.ts");
}

#[test]
fn scored_paths_to_string_with_no_scored_paths() {
    let scored_paths: Vec<ScoredPath> = Vec::new();
    let val = scored_paths_to_string(&scored_paths);

    assert_eq!(val, "");
}

#[test]
fn scored_paths_to_string_with_some_scored_paths() {
    let scored_paths: Vec<ScoredPath> = vec![
        ScoredPath::new(Ratio::new(3, 10), "some/path/to/a/file.ts".to_owned()),
        ScoredPath::new(Ratio::new(2, 10), "another/path/to/a/foo.ts".to_owned()),
        ScoredPath::new(Ratio::new(1, 10), "foo/bar/car/zar.ts".to_owned()),
    ];
    let val = scored_paths_to_string(&scored_paths);

    assert_eq!(
        val,
        "some/path/to/a/file.ts\nanother/path/to/a/foo.ts\nfoo/bar/car/zar.ts"
    );
}
