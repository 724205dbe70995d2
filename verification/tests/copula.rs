use synth::copula::{split_dimensions, Pin};

fn pin(dimension: usize, values: usize) -> Pin {
    Pin {
        dimension,
        values,
        finite: true,
    }
}

#[test]
fn should_reject_fixed_dimension_out_of_range() {
    let err = split_dimensions(2, 10, &[pin(2, 10)]).unwrap_err();
    assert_eq!(
        err,
        "fixed dimension 2 is out of range for a 2-dimensional copula"
    );
}

#[test]
fn should_reject_duplicate_fixed_dimensions() {
    let err = split_dimensions(2, 10, &[pin(0, 10), pin(0, 10)]).unwrap_err();
    assert_eq!(err, "duplicate fixed dimension 0");
}

#[test]
fn should_reject_pinned_row_list_of_the_wrong_length() {
    let err = split_dimensions(2, 10, &[pin(0, 3)]).unwrap_err();
    assert_eq!(
        err,
        "fixed dimension 0 has 3 z values but the table has 10 rows"
    );
}

#[test]
fn a_pin_must_be_finite() {
    let bad = Pin {
        finite: false,
        ..pin(1, 10)
    };
    assert_eq!(
        split_dimensions(2, 10, &[bad]).unwrap_err(),
        "fixed dimension 1 has a non-finite z"
    );
}

#[test]
fn dimensions_are_pinned_or_free() {
    let split = split_dimensions(5, 1, &[pin(3, 1), pin(0, 1)]).unwrap();
    assert_eq!(split.pinned, vec![0, 3]);
    assert_eq!(split.free, vec![1, 2, 4]);
    let none = split_dimensions(2, 1, &[]).unwrap();
    assert!(none.pinned.is_empty());
    assert_eq!(none.free, vec![0, 1]);
}
