use roadch::movies::{intersect, Movie, StrError};
use std::str::FromStr;

#[test]
fn movie_from_str() {
    assert_eq!(
        Ok(Movie {
            title: "test title".to_owned(),
            desc: "some movi titl ".to_owned(),
        }),
        Movie::from_str("test title\tSome movie title")
    );
}

#[test]
fn intersect_test() {
    assert_eq!(vec![2, 3], intersect(&vec![1, 2, 3, 4], &vec![2, 3, 6, 8]));
}

#[test]
fn intersect_with_empty_list() {
    assert_eq!(intersect(&[], &[1, 2]), Vec::<usize>::new());
    assert_eq!(intersect(&[1, 2], &[]), Vec::<usize>::new());
}

#[test]
fn intersect_disjoint_and_identical() {
    assert_eq!(intersect(&[1, 3, 5], &[2, 4, 6]), Vec::<usize>::new());
    assert_eq!(intersect(&[1, 3, 5], &[1, 3, 5]), vec![1, 3, 5]);
}

#[test]
fn movie_without_description_is_rejected() {
    assert_eq!(Movie::from_str("only a title"), Err(StrError::new("No description found")));
}

#[test]
fn movie_keeps_title_and_ignores_later_fields() {
    let m = Movie::parse_line("A Title\tRunning Dogs\textra").unwrap();
    assert_eq!(m.title, "A Title");
    assert_eq!(m.desc, "run dog ");
}

#[test]
fn movie_with_empty_description() {
    let m = Movie::parse_line("t\t").unwrap();
    assert_eq!(m.desc, " ");
}

#[test]
fn io_error_message() {
    assert_eq!(StrError::io_error().msg, "io error");
}

use roadch::movies::{build_inverted_index, naive_matches, query_matches};

fn library() -> Vec<Movie> {
    vec![
        Movie::parse_line("A\tThe dogs run").unwrap(),
        Movie::parse_line("B\tA cat runs").unwrap(),
        Movie::parse_line("C\tDogs and cats").unwrap(),
    ]
}

#[test]
fn descriptions_are_stemmed() {
    let ms = library();
    assert_eq!(ms[0].desc, "the dog run ");
    assert_eq!(ms[2].desc, "dog and cat ");
}

#[test]
fn index_query_single_word() {
    let ms = library();
    let ix = build_inverted_index(&ms);
    assert_eq!(query_matches(&ix, "dog"), vec![0, 2]);
    assert_eq!(query_matches(&ix, "  Cats \n"), vec![1, 2]);
}

#[test]
fn index_query_intersects_words() {
    let ms = library();
    let ix = build_inverted_index(&ms);
    assert_eq!(query_matches(&ix, "running dogs"), vec![0]);
    assert_eq!(query_matches(&ix, "cat dog"), vec![2]);
}

#[test]
fn index_query_skips_unknown_words() {
    let ms = library();
    let ix = build_inverted_index(&ms);
    assert_eq!(query_matches(&ix, "unicorn"), Vec::<usize>::new());
    assert_eq!(query_matches(&ix, "unicorn dog"), vec![0, 2]);
}

#[test]
fn index_lookup_lists() {
    let ms = library();
    let ix = build_inverted_index(&ms);
    assert_eq!(ix.get(&"run".to_string()), Some(&vec![0, 1]));
    assert_eq!(ix.get(&"horse".to_string()), None);
}

#[test]
fn naive_scan_needs_spaces_around() {
    let ms = library();
    assert_eq!(naive_matches(&ms, "dog"), vec![0]);
    assert_eq!(naive_matches(&ms, "CATS"), vec![1, 2]);
    assert_eq!(naive_matches(&ms, "horse"), Vec::<usize>::new());
}

#[test]
fn intersect_unsorted_and_repeated_inputs() {
    assert_eq!(intersect(&[5, 1, 4], &[5, 1, 4]), vec![5, 1, 4]);
    assert_eq!(intersect(&[1, 2, 2, 3], &[2, 2, 4]), vec![2, 2]);
    assert_eq!(intersect(&[2, 2, 4], &[1, 2, 2, 3]), vec![2, 2]);
    assert_eq!(intersect(&[3, 1], &[1, 3]), vec![3]);
    assert_eq!(intersect(&[1, 3], &[3, 1]), vec![3]);
}

#[test]
fn query_trims_unicode_white_space() {
    let ms = library();
    let ix = build_inverted_index(&ms);
    assert_eq!(query_matches(&ix, "\u{3000}dog\u{a0}"), vec![0, 2]);
    assert_eq!(naive_matches(&ms, "\u{2003}Cats\t"), vec![1, 2]);
}
