use workspace_validator::dag::{dependency_order, validate_graph};

#[test]
fn deeply_nested_graphs_are_stack_safe() {
    let count = 10_000;
    let mut ids: Vec<String> = (0..count).map(|index| format!("n{index}")).collect();
    ids.sort();
    let mut dependencies: Vec<(String, Vec<String>)> = (0..count)
        .map(|index| {
            let values = if index == 0 { vec![] } else { vec![format!("n{}", index - 1)] };
            (format!("n{index}"), values)
        })
        .collect();
    dependencies.sort_by(|a, b| a.0.cmp(&b.0));
    validate_graph(&ids, &dependencies, "fixture").unwrap();
    assert_eq!(dependency_order(&format!("n{}", count - 1), &dependencies).len(), count);
}

#[test]
fn a_cycle_is_rejected() {
    let ids = vec!["a".to_string(), "b".to_string()];
    let dependencies = vec![("a".to_string(), vec!["b".to_string()]), ("b".to_string(), vec!["a".to_string()])];
    assert!(validate_graph(&ids, &dependencies, "fixture").is_err());
}

#[test]
fn dependencies_come_before_their_dependents() {
    let dependencies = vec![
        ("a".to_string(), vec!["b".to_string(), "c".to_string()]),
        ("b".to_string(), vec!["c".to_string()]),
        ("c".to_string(), vec![]),
    ];
    assert_eq!(dependency_order("a", &dependencies), ["c", "b", "a"]);
}
