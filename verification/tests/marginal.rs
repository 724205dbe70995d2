use synth::marginal::{level_of, CategoricalFitter};
use synth::value::Value;

fn names(list: &[&str]) -> Vec<String> {
    list.iter().map(|s| s.to_string()).collect()
}

#[test]
fn categorical_fitter_weights_sum_to_one() {
    let fitted = CategoricalFitter
        .fit_strings(&names(&["b", "a", "b", "c", "b"]))
        .unwrap();
    assert_eq!(fitted.values, names(&["a", "b", "c"]));
    assert_eq!(fitted.counts, vec![1, 3, 1]);
    let sum: f64 = fitted
        .counts
        .iter()
        .map(|c| *c as f64 / fitted.total as f64)
        .sum();
    assert!((sum - 1.0).abs() < 1e-10);
}

#[test]
fn nothing_can_be_fitted_to_no_samples() {
    assert_eq!(
        CategoricalFitter.fit_strings(&[]).unwrap_err(),
        "empty samples"
    );
}

#[test]
fn a_level_is_found_by_its_text() {
    let levels = names(&["1", "true", "x"]);
    assert_eq!(level_of(&levels, &Value::Number("1".to_string())), Some(0));
    assert_eq!(level_of(&levels, &Value::Bool(true)), Some(1));
    assert_eq!(level_of(&levels, &Value::Text("x".to_string())), Some(2));
    assert_eq!(level_of(&levels, &Value::Text("y".to_string())), None);
}
