use edit_distance::engine::DistanceMatrix;
use edit_distance::engine::DistanceOptions;

#[test]
fn kitten_sitting_default_costs() {
    let mut m = DistanceMatrix::new("kitten", "sitting");
    let d = m.get_distance(None);
    assert_eq!(d, 5);
}

#[test]
fn identical_sequences_cost_nothing() {
    let mut m = DistanceMatrix::new("kitten", "kitten");
    assert_eq!(m.get_distance(None), 0);

    let mut single = DistanceMatrix::new("a", "a");
    assert_eq!(single.get_distance(None), 0);
}

#[test]
fn from_empty_charges_one_insertion_per_character() {
    let mut m = DistanceMatrix::new("", "cat");
    assert_eq!(m.get_distance(None), 3);

    let options = DistanceOptions {
        insertion_cost: Some(4),
        deletion_cost: None,
        substitution_cost: None,
    };
    let mut weighted = DistanceMatrix::new("", "cat");
    assert_eq!(weighted.get_distance(Some(options)), 12);
}

#[test]
fn to_empty_also_charges_the_insertion_cost() {
    // The engine reuses the insertion cost for both base cases, so the
    // deletion cost never shows up in a degenerate transformation.
    let options = DistanceOptions {
        insertion_cost: Some(1),
        deletion_cost: Some(7),
        substitution_cost: Some(7),
    };
    let mut m = DistanceMatrix::new("abc", "");
    assert_eq!(m.get_distance(Some(options)), 3);
}

#[test]
fn both_empty_is_a_one_by_one_zero_table() {
    let mut m = DistanceMatrix::new("", "");
    assert_eq!(m.get_distance(None), 0);
    assert_eq!(m.num_rows(), 1);
    assert_eq!(m.num_cols(), 1);
    assert_eq!(m.cell_at(0, 0), 0);
}

#[test]
fn table_dimensions_follow_the_inputs() {
    let m = DistanceMatrix::new("kitten", "sitting");
    assert_eq!(m.num_rows(), 8);
    assert_eq!(m.num_cols(), 7);
}

#[test]
fn base_rows_grow_by_the_insertion_cost() {
    let mut m = DistanceMatrix::new("kitten", "sitting");
    m.get_distance(None);
    for j in 0..7 {
        assert_eq!(m.cell_at(0, j), j as u8);
    }
    for i in 0..8 {
        assert_eq!(m.cell_at(i, 0), i as u8);
    }
}

#[test]
fn symmetric_when_insertion_equals_deletion() {
    let options = DistanceOptions {
        insertion_cost: Some(2),
        deletion_cost: Some(2),
        substitution_cost: Some(3),
    };
    let mut forward = DistanceMatrix::new("kitten", "sitting");
    let mut backward = DistanceMatrix::new("sitting", "kitten");
    assert_eq!(
        forward.get_distance(Some(options)),
        backward.get_distance(Some(options))
    );
}

#[test]
fn asymmetric_when_insertion_differs_from_deletion() {
    let options = DistanceOptions {
        insertion_cost: Some(1),
        deletion_cost: Some(5),
        substitution_cost: Some(5),
    };
    let mut forward = DistanceMatrix::new("ab", "a");
    let mut backward = DistanceMatrix::new("a", "ab");
    assert_eq!(forward.get_distance(Some(options)), 3);
    assert_eq!(backward.get_distance(Some(options)), 1);
}

#[test]
fn substitution_override_gives_classic_levenshtein() {
    let options = DistanceOptions {
        insertion_cost: None,
        deletion_cost: None,
        substitution_cost: Some(1),
    };
    let mut m = DistanceMatrix::new("kitten", "sitting");
    assert_eq!(m.get_distance(Some(options)), 3);
}

#[test]
fn zero_cost_collapses_an_operation() {
    let options = DistanceOptions {
        insertion_cost: Some(0),
        deletion_cost: None,
        substitution_cost: None,
    };
    let mut m = DistanceMatrix::new("", "abc");
    assert_eq!(m.get_distance(Some(options)), 0);
}

#[test]
fn characters_compare_by_code_point() {
    let mut m = DistanceMatrix::new("h\u{e9}llo", "hello");
    assert_eq!(m.num_cols(), 6);
    assert_eq!(m.get_distance(None), 2);
}

#[test]
fn repeated_computation_is_deterministic() {
    let mut first = DistanceMatrix::new("kitten", "sitting");
    let mut second = DistanceMatrix::new("kitten", "sitting");
    let d1 = first.get_distance(None);
    let d2 = second.get_distance(None);
    assert_eq!(d1, d2);
    for i in 0..8 {
        for j in 0..7 {
            assert_eq!(first.cell_at(i, j), second.cell_at(i, j));
        }
    }
    assert_eq!(first.render(), second.render());

    // Filling the same table again changes nothing either.
    let d3 = first.get_distance(None);
    assert_eq!(d1, d3);
}
