use alt::ratio::Ratio;
use alt::scoring::{score, score_paths, similarity_ratio};

#[test]
fn score_paths_with_same_path_it_should_filter_same_path() {
    let paths: Vec<String> = vec![
        "foo/bar/car.ts".to_owned(),
        "hoopty/doopty/foopty.ts".to_owned(),
        "home/away/lets_play.ts".to_owned(),
    ];

    let scored_paths = score_paths(
        paths,
        "hoopty/doopty/foopty.ts",
        Ratio::new(10, 1),
        Ratio::new(1, 1),
    );

    assert_eq!(scored_paths.len(), 2);
    assert_eq!(scored_paths[0].path, "foo/bar/car.ts".to_owned());
    assert_eq!(scored_paths[1].path, "home/away/lets_play.ts".to_owned());
    assert!(scored_paths[0].score.gt(&Ratio::zero()));
    assert!(scored_paths[1].score.gt(&Ratio::zero()));
}

#[test]
fn score_paths_without_same_path_it_should_not_filter_same_path() {
    let paths: Vec<String> = vec![
        "foo/bar/car.ts".to_owned(),
        "hoopty/doopty/foopty.ts".to_owned(),
        "home/away/lets_play.ts".to_owned(),
    ];

    let scored_paths = score_paths(
        paths,
        "person/place/thing.ts",
        Ratio::new(10, 1),
        Ratio::new(1, 1),
    );

    assert_eq!(scored_paths.len(), 3);
    assert_eq!(scored_paths[0].path, "foo/bar/car.ts".to_owned());
    assert_eq!(scored_paths[1].path, "hoopty/doopty/foopty.ts".to_owned());
    assert_eq!(scored_paths[2].path, "home/away/lets_play.ts".to_owned());
    assert!(scored_paths[0].score.gt(&Ratio::zero()));
    assert!(scored_paths[1].score.gt(&Ratio::zero()));
    assert!(scored_paths[2].score.gt(&Ratio::zero()));
}

#[test]
fn score_paths_that_have_no_similarity_as_zero() {
    let val = score("abc/d", "xyz/e", Ratio::new(10, 1), Ratio::new(1, 1));
    assert!(val.is_zero());
}

#[test]
fn score_paths_where_filenames_only_but_no_similarity_as_zero() {
    let val = score("foo", "bar", Ratio::new(10, 1), Ratio::new(1, 1));
    assert!(val.is_zero());
}

#[test]
fn score_paths_where_doesnot_have_file_name_as_zero() {
    let val = score("/", "foo/bar/zar", Ratio::new(10, 1), Ratio::new(1, 1));
    assert!(val.is_zero());
    let val = score("/..", "foo/bar/zar", Ratio::new(10, 1), Ratio::new(1, 1));
    assert!(val.is_zero());
    let val = score("", "foo/bar/zar", Ratio::new(10, 1), Ratio::new(1, 1));
    assert!(val.is_zero());
    let val = score("..", "foo/bar/zar", Ratio::new(10, 1), Ratio::new(1, 1));
    assert!(val.is_zero());
    let val = score("foo/bar/zar", "/", Ratio::new(10, 1), Ratio::new(1, 1));
    assert!(val.is_zero());
    let val = score("foo/bar/zar", "/..", Ratio::new(10, 1), Ratio::new(1, 1));
    assert!(val.is_zero());
    let val = score("foo/bar/zar", "", Ratio::new(10, 1), Ratio::new(1, 1));
    assert!(val.is_zero());
    let val = score("foo/bar/zar", "..", Ratio::new(10, 1), Ratio::new(1, 1));
    assert!(val.is_zero());
}

#[test]
fn score_paths_that_have_similar_files_over_similar_dirs() {
    let val_a = score("foo/bar/car.ts", "aaa/ddd/car.ts", Ratio::new(10, 1), Ratio::new(1, 1));
    let val_b = score("aaa/ddd/hoopty.ts", "aaa/ddd/car.ts", Ratio::new(10, 1), Ratio::new(1, 1));
    assert!(val_a.gt(&val_b));
}

#[test]
fn score_paths_that_have_similar_dirs_over_ones_that_dont_when_files_match() {
    let val_a = score("foo/bar/car.ts", "aaa/ddd/car.ts", Ratio::new(10, 1), Ratio::new(1, 1));
    let val_b = score("ppp/ddd/car.ts", "aaa/ddd/car.ts", Ratio::new(10, 1), Ratio::new(1, 1));
    assert!(val_b.gt(&val_a));
}

#[test]
fn score_paths_based_on_similarity_with_filename_having_presedence() {
    let val_a = score("foo/bar/car.ts", "aaa/ddd/car.ts", Ratio::new(10, 1), Ratio::new(1, 1));
    let val_b = score("ppp/ddd/car.ts", "aaa/ddd/car.ts", Ratio::new(10, 1), Ratio::new(1, 1));
    let val_c = score("aaa/ddd/car.ts", "aaa/ddd/car.ts", Ratio::new(10, 1), Ratio::new(1, 1));
    assert!(val_c.gt(&val_b));
    assert!(val_b.gt(&val_a));
}

#[test]
fn similarity_ratio_is_zero_when_one_or_more_strings_is_empty() {
    assert!(similarity_ratio("", "foo/bar/car.ts").is_zero());
    assert!(similarity_ratio("foo/bar/car.ts", "").is_zero());
    assert!(similarity_ratio("", "").is_zero());
}

#[test]
fn similarity_ratio_is_not_impacted_by_size_of_match_alone() {
    let val_a = similarity_ratio("foobarcar", "bar");
    let val_b = similarity_ratio("abc", "b");
    assert!(val_a.eq_value(&val_b));
}

#[test]
fn similarity_ratio_of_a_string_with_itself_is_one() {
    assert!(similarity_ratio("nft-wallet", "nft-wallet").eq_value(&Ratio::one()));
    assert!(similarity_ratio("a", "a").eq_value(&Ratio::one()));
}

#[test]
fn similarity_ratio_is_symmetric() {
    let val_a = similarity_ratio("foobarcar", "barbaz");
    let val_b = similarity_ratio("barbaz", "foobarcar");
    assert!(val_a.eq_value(&val_b));
    let val_c = similarity_ratio("jacked_spec.js", "spec/foo/bar");
    let val_d = similarity_ratio("spec/foo/bar", "jacked_spec.js");
    assert!(val_c.eq_value(&val_d));
}

#[test]
fn similarity_ratio_has_the_exact_normalized_value() {
    // common run "bar" of length three: (3/9) * (3/3) = 1/3
    assert!(similarity_ratio("foobarcar", "bar").eq_value(&Ratio::new(1, 3)));
    // common run "ab" of length two: (2/3) * (2/4) = 1/3
    assert!(similarity_ratio("abc", "xaby").eq_value(&Ratio::new(1, 3)));
}

#[test]
fn score_has_the_exact_weighted_value() {
    // stems "b" and "c" share nothing; parents are both "a", similarity one
    let val = score("a/b.ts", "a/c.ts", Ratio::new(10, 1), Ratio::new(1, 1));
    assert!(val.eq_value(&Ratio::one()));
    // same with a heavier path weight
    let val = score("a/b.ts", "a/c.ts", Ratio::new(10, 1), Ratio::new(7, 2));
    assert!(val.eq_value(&Ratio::new(7, 2)));
}

#[test]
fn ratio_comparisons_are_exact() {
    assert!(Ratio::new(1, 2).eq_value(&Ratio::new(2, 4)));
    assert!(Ratio::new(1, 3).lt(&Ratio::new(1, 2)));
    assert!(Ratio::new(3, 2).gt(&Ratio::new(4, 3)));
    assert!(!Ratio::new(5, 7).lt(&Ratio::new(5, 7)));
    assert!(Ratio::zero().lt(&Ratio::one()));
}
