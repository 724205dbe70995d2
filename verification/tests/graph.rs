use synth::graph::{tarjan_scc, topological_sort};

#[test]
fn topological_sort_linear_chain() {
    let edges = vec![("A", "B"), ("B", "C")];
    let order = topological_sort(&["A", "B", "C"], &edges).unwrap();
    assert_eq!(order, vec!["A", "B", "C"]);
}

#[test]
fn topological_sort_with_diamond() {
    let edges = vec![("A", "B"), ("A", "C"), ("B", "D"), ("C", "D")];
    let order = topological_sort(&["A", "B", "C", "D"], &edges).unwrap();
    assert!(order.iter().position(|&x| x == "A") < order.iter().position(|&x| x == "B"));
    assert!(order.iter().position(|&x| x == "A") < order.iter().position(|&x| x == "C"));
    assert!(order.iter().position(|&x| x == "B") < order.iter().position(|&x| x == "D"));
    assert!(order.iter().position(|&x| x == "C") < order.iter().position(|&x| x == "D"));
}

#[test]
fn topological_sort_cycle_detection() {
    let edges = vec![("A", "B"), ("B", "C"), ("C", "A")];
    let result = topological_sort(&["A", "B", "C"], &edges);
    assert!(result.is_err());
    let err = result.unwrap_err();
    assert!(err.contains("cycle"));
}

#[test]
fn tarjan_scc_finds_cycle_path() {
    let edges = vec![("A", "B"), ("B", "C"), ("C", "A"), ("D", "E")];
    let sccs = tarjan_scc(&["A", "B", "C", "D", "E"], &edges);
    assert_eq!(sccs.len(), 3);
    let cycle_scc = sccs.iter().find(|s| s.len() > 1).unwrap();
    assert!(cycle_scc.contains(&"A"));
    assert!(cycle_scc.contains(&"B"));
    assert!(cycle_scc.contains(&"C"));
}

#[test]
fn topological_sort_projection_reversal() {
    let edges = vec![("orders", "dic_stock")];
    let order = topological_sort(&["orders", "dic_stock"], &edges).unwrap();
    assert_eq!(order, vec!["orders", "dic_stock"]);
}

#[test]
fn the_message_shows_the_cycle() {
    let edges = vec![("A", "B"), ("B", "A")];
    let err = topological_sort(&["A", "B"], &edges).unwrap_err();
    assert_eq!(err, "cycle detected: \"A\" -> \"B\" -> \"A\"");
}

#[test]
fn a_self_reference_is_a_cycle() {
    let err = topological_sort(&["A"], &[("A", "A")]).unwrap_err();
    assert_eq!(err, "cycle detected: \"A\" -> \"A\"");
}

#[test]
fn unrelated_vertices_stand_in_the_order_in_which_they_are_listed() {
    let edges = vec![("z", "a"), ("c", "a")];
    let order = topological_sort(&["z", "b", "a", "c"], &edges).unwrap();
    assert_eq!(order, vec!["z", "b", "c", "a"]);
}

#[test]
fn a_named_cycle_meets_no_vertex_twice() {
    let edges = vec![("x", "a"), ("a", "b"), ("b", "c"), ("c", "b"), ("c", "a")];
    let err = topological_sort(&["x", "a", "b", "c"], &edges).unwrap_err();
    let text = err.strip_prefix("cycle detected: ").expect("a cycle");
    let mut names: Vec<&str> = text.split(" -> ").collect();
    assert_eq!(names.first(), names.last());
    names.pop();
    let mut once = names.clone();
    once.sort();
    once.dedup();
    assert_eq!(once.len(), names.len(), "{err}");
}
