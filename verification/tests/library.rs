use std::collections::HashMap;

use random_show_themes::distinct_count;
use random_show_themes::exit_failure;
use random_show_themes::plan_run;
use random_show_themes::pos_int_validate;
use random_show_themes::sample;
use random_show_themes::smart_append;
use random_show_themes::OutputMode;
use random_show_themes::PlanError;
use random_show_themes::Show;
use random_show_themes::ThemeKind;
use random_show_themes::aggregate;
use random_show_themes::classify;

fn show(id: usize, title: &str, opening: &[&str], ending: &[&str], other: &[&str]) -> Show {
    Show {
        id,
        title: title.to_owned(),
        url: None,
        opening_themes: opening.iter().map(|s| s.to_string()).collect(),
        ending_themes: ending.iter().map(|s| s.to_string()).collect(),
        other_soundtrack: other.iter().map(|s| s.to_string()).collect(),
    }
}

#[test]
fn pos_int_validation() {
    assert!(pos_int_validate("1".to_owned()).is_ok());
    assert!(pos_int_validate("99".to_owned()).is_ok());
    assert!(pos_int_validate("-2".to_owned()).is_err());
    assert!(pos_int_validate("0".to_owned()).is_err());
}

fn smart_appending_template<T: Clone>(
    a: T,
    b: T,
    c: T,
    d: T,
    e: T,
    f: T,
) -> ((Vec<T>, Vec<T>), (Vec<T>, Vec<T>)) {
    let mut first = vec![a.clone(), b.clone(), c.clone()];
    let other = vec![d.clone(), e.clone(), f.clone()];
    let other_bckp = other.clone();
    let expected = vec![a, b, c, d, e, f];
    smart_append(&mut first, &other);
    ((first, expected), (other, other_bckp))
}

#[test]
fn smart_appending() {
    let (first, second) = smart_appending_template(1, 2, 3, 4, 5, 6);
    assert_eq!(first.0, first.1);
    assert_eq!(second.0, second.1);
    let (first, second) = smart_appending_template(
        "a".to_owned(),
        "b".to_owned(),
        "c".to_owned(),
        "d".to_owned(),
        "e".to_owned(),
        "f".to_owned(),
    );
    assert_eq!(first.0, first.1);
    assert_eq!(second.0, second.1);
}

#[test]
fn smart_append_empty_other() {
    let mut first = vec![1, 2];
    let other: Vec<i32> = Vec::new();
    smart_append(&mut first, &other);
    assert_eq!(first, vec![1, 2]);
}

#[test]
fn pos_int_validation_edges() {
    assert!(pos_int_validate("+7".to_owned()).is_ok());
    assert!(pos_int_validate("007".to_owned()).is_ok());
    assert!(pos_int_validate("".to_owned()).is_err());
    assert!(pos_int_validate("+".to_owned()).is_err());
    assert!(pos_int_validate("abc".to_owned()).is_err());
    assert!(pos_int_validate(" 1".to_owned()).is_err());
    assert!(pos_int_validate("1.5".to_owned()).is_err());
    assert!(pos_int_validate("+0".to_owned()).is_err());
    assert!(pos_int_validate("99999999999999999999999999".to_owned()).is_err());
}

#[test]
fn pos_int_validation_message() {
    let err = pos_int_validate("0".to_owned()).unwrap_err();
    assert_eq!(err, "must be a positive, non-zero integer");
}

#[test]
fn aggregate_merges_in_order() {
    let s = show(1, "X", &["A"], &["B"], &[]);
    assert_eq!(aggregate(&s), vec!["A".to_owned(), "B".to_owned()]);
    let t = show(2, "Y", &["A", "B"], &["C"], &["D", "A"]);
    assert_eq!(
        aggregate(&t),
        vec![
            "A".to_owned(),
            "B".to_owned(),
            "C".to_owned(),
            "D".to_owned(),
            "A".to_owned()
        ]
    );
    let empty = show(3, "Z", &[], &[], &[]);
    assert_eq!(aggregate(&empty), Vec::<String>::new());
}

#[test]
fn classify_by_category() {
    let s = show(1, "X", &["A"], &["B"], &[]);
    assert_eq!(classify(&"A".to_owned(), &s), ThemeKind::Opening);
    assert_eq!(classify(&"B".to_owned(), &s), ThemeKind::Ending);
    assert_eq!(classify(&"C".to_owned(), &s), ThemeKind::Other);
}

#[test]
fn classify_tie_break_prefers_opening() {
    let s = show(1, "X", &["A", "T"], &["T", "B"], &["T"]);
    assert_eq!(classify(&"T".to_owned(), &s), ThemeKind::Opening);
}

#[test]
fn theme_kind_codes() {
    assert_eq!(ThemeKind::Opening.code(), "OP");
    assert_eq!(ThemeKind::Ending.code(), "ED");
    assert_eq!(ThemeKind::Other.code(), "ST");
}

#[test]
fn output_mode_from_flags() {
    assert_eq!(OutputMode::from_flags(true, false, false), OutputMode::Table);
    assert_eq!(OutputMode::from_flags(false, true, false), OutputMode::Readable);
    assert_eq!(OutputMode::from_flags(false, false, true), OutputMode::CSV);
    assert_eq!(OutputMode::from_flags(false, false, false), OutputMode::Readable);
    assert_eq!(OutputMode::from_flags(true, false, true), OutputMode::Table);
}

#[test]
fn plan_degradation() {
    assert_eq!(plan_run(1, &vec![1, 2], 5, false), Ok(2));
    assert_eq!(
        plan_run(1, &vec![1, 2], 5, true),
        Err(PlanError::NotEnoughCandidates)
    );
    assert_eq!(plan_run(1, &vec![1, 2, 3, 4, 5], 5, true), Ok(5));
    assert_eq!(plan_run(1, &vec![1, 2, 3, 4, 5], 2, false), Ok(2));
}

#[test]
fn plan_degradation_counts_distinct() {
    // Duplicates are not independent capacity: the target is lowered to
    // the number of distinct candidate values.
    assert_eq!(plan_run(1, &vec![1, 1, 1], 4, false), Ok(1));
    assert_eq!(plan_run(1, &vec![1, 1, 2], 3, false), Ok(2));
    // Even a request within the list length aborts under hard fail when it
    // exceeds the distinct count.
    assert_eq!(
        plan_run(1, &vec![1, 1, 2], 3, true),
        Err(PlanError::NotEnoughCandidates)
    );
    assert_eq!(plan_run(1, &vec![1, 1, 2], 2, true), Ok(2));
}

#[test]
fn plan_config_errors() {
    assert_eq!(plan_run(0, &vec![1, 2, 3], 1, false), Err(PlanError::EmptyCatalog));
    assert_eq!(plan_run(0, &vec![1, 2, 3], 1, true), Err(PlanError::EmptyCatalog));
    assert_eq!(plan_run(4, &Vec::new(), 1, false), Err(PlanError::EmptyList));
    assert_eq!(plan_run(4, &Vec::new(), 1, true), Err(PlanError::EmptyList));
}

#[test]
fn distinct_count_values() {
    assert_eq!(distinct_count(&Vec::new()), 0);
    assert_eq!(distinct_count(&vec![7]), 1);
    assert_eq!(distinct_count(&vec![1, 1, 1]), 1);
    assert_eq!(distinct_count(&vec![1, 2, 1, 3, 2]), 3);
}

#[test]
fn exit_failure_only_under_hard_fail() {
    assert!(exit_failure(true, true));
    assert!(!exit_failure(true, false));
    assert!(!exit_failure(false, true));
    assert!(!exit_failure(false, false));
}

#[test]
fn sample_two_shows() {
    let mut catalog = HashMap::new();
    catalog.insert(1usize, show(1, "X", &["OP1"], &[], &[]));
    catalog.insert(2usize, show(2, "Y", &[], &["ED1"], &[]));
    let list = vec![1usize, 2usize];
    for _ in 0..50 {
        let (rows, failed) = sample(2, &list, &catalog);
        assert!(!failed);
        assert_eq!(rows.len(), 2);
        let mut pairs: Vec<(usize, ThemeKind)> =
            rows.iter().map(|r| (r.show_id, r.kind)).collect();
        pairs.sort_by_key(|p| p.0);
        assert_eq!(
            pairs,
            vec![(1, ThemeKind::Opening), (2, ThemeKind::Ending)]
        );
        for r in &rows {
            match r.show_id {
                1 => {
                    assert_eq!(r.theme, "OP1");
                    assert_eq!(r.title, "X");
                }
                2 => {
                    assert_eq!(r.theme, "ED1");
                    assert_eq!(r.title, "Y");
                }
                _ => panic!("unexpected show id {}", r.show_id),
            }
        }
    }
}

#[test]
fn sample_exhaustion_duplicates() {
    let mut catalog = HashMap::new();
    catalog.insert(1usize, show(1, "X", &[], &[], &[]));
    let list = vec![1usize, 1usize, 1usize];
    let (rows, failed) = sample(3, &list, &catalog);
    assert!(failed);
    assert!(rows.is_empty());
    // Through the caller path: the target is first lowered to the single
    // distinct value, and sampling still exhausts without a result.
    let target = plan_run(catalog.len(), &list, 3, false).unwrap();
    assert_eq!(target, 1);
    let (rows, failed) = sample(target, &list, &catalog);
    assert!(failed);
    assert!(rows.is_empty());
}

#[test]
fn sample_never_repeats_a_show() {
    let mut catalog = HashMap::new();
    for id in 1usize..=6 {
        catalog.insert(id, show(id, &format!("S{}", id), &["op"], &[], &[]));
    }
    let list: Vec<usize> = (1usize..=6).collect();
    for _ in 0..50 {
        let (rows, failed) = sample(4, &list, &catalog);
        assert!(!failed);
        assert_eq!(rows.len(), 4);
        let mut ids: Vec<usize> = rows.iter().map(|r| r.show_id).collect();
        ids.sort_unstable();
        ids.dedup();
        assert_eq!(ids.len(), 4);
    }
}

#[test]
fn sample_skips_unknown_and_themeless() {
    let mut catalog = HashMap::new();
    catalog.insert(1usize, show(1, "X", &[], &[], &["ST1"]));
    catalog.insert(2usize, show(2, "Y", &[], &[], &[]));
    // 42 is not in the catalog; 2 has no themes; only 1 can produce a draw.
    let list = vec![1usize, 2usize, 42usize];
    let (rows, failed) = sample(3, &list, &catalog);
    assert!(failed);
    assert_eq!(rows.len(), 1);
    assert_eq!(rows[0].show_id, 1);
    assert_eq!(rows[0].theme, "ST1");
    assert_eq!(rows[0].kind, ThemeKind::Other);

    let (rows, failed) = sample(1, &list, &catalog);
    assert!(!failed);
    assert_eq!(rows.len(), 1);
    assert_eq!(rows[0].show_id, 1);
}

#[test]
fn sample_full_success_when_enough_themed_shows() {
    let mut catalog = HashMap::new();
    catalog.insert(1usize, show(1, "A", &["a"], &[], &[]));
    catalog.insert(2usize, show(2, "B", &[], &["b"], &[]));
    catalog.insert(3usize, show(3, "C", &[], &[], &["c"]));
    let list = vec![1usize, 2usize, 3usize];
    for target in 1usize..=3 {
        let (rows, failed) = sample(target, &list, &catalog);
        assert!(!failed);
        assert_eq!(rows.len(), target);
    }
}
