use rsheet::resolve::{convert_variables, get_cell_value, Argument, Resolved};
use rsheet::store::CellStore;
use rsheet::value::{Fault, Value};

fn store(cells: &[(&str, Value)]) -> CellStore {
    let mut store = CellStore::new();
    for (address, value) in cells {
        store.set(address.to_string(), value.clone());
    }
    store
}

fn names(variables: &[&str]) -> Vec<String> {
    variables.iter().map(|v| v.to_string()).collect()
}

fn resolved(variables: &[&str], cells: &CellStore) -> Resolved {
    match convert_variables(&names(variables), cells) {
        Ok(resolved) => resolved,
        Err(fault) => panic!("{variables:?} resolve, but: {fault:?}"),
    }
}

fn fault(variables: &[&str], cells: &CellStore) -> Fault {
    match convert_variables(&names(variables), cells) {
        Ok(_) => panic!("{variables:?} do not resolve"),
        Err(fault) => fault,
    }
}

fn grid() -> CellStore {
    store(&[
        ("A1", Value::Int(1)),
        ("B1", Value::Int(2)),
        ("C1", Value::Int(3)),
        ("A2", Value::Int(4)),
        ("B2", Value::Text("five".to_string())),
        ("C2", Value::Int(6)),
    ])
}

#[test]
fn store_reads_back_the_last_write() {
    let mut cells = CellStore::new();
    assert_eq!(cells.get("A1"), Value::Empty);
    assert!(!cells.contains("A1"));
    cells.set("A1".to_string(), Value::Int(1));
    cells.set("B1".to_string(), Value::Text("b".to_string()));
    cells.set("A1".to_string(), Value::Int(3));
    assert_eq!(cells.get("A1"), Value::Int(3));
    assert_eq!(cells.get("B1"), Value::Text("b".to_string()));
    assert_eq!(cells.get("C1"), Value::Empty);
    assert!(cells.contains("A1"));
}

#[test]
fn cell_value_of_a_faulted_cell_is_the_dependency_fault() {
    let cells = store(&[
        ("A1", Value::Int(1)),
        ("B1", Value::Error("Dependency error".to_string())),
        ("C1", Value::Error("Circular dependency error".to_string())),
        ("D1", Value::Error("Function not found".to_string())),
    ]);
    assert_eq!(get_cell_value("A1", &cells), Ok(Value::Int(1)));
    assert_eq!(get_cell_value("Z9", &cells), Ok(Value::Empty));
    assert_eq!(get_cell_value("B1", &cells), Err(Fault::Dependency));
    assert_eq!(get_cell_value("C1", &cells), Err(Fault::Dependency));
    assert_eq!(get_cell_value("D1", &cells), Err(Fault::Dependency));
}

#[test]
fn no_variables_resolve_to_nothing() {
    let r = resolved(&[], &grid());
    assert!(r.arguments.is_empty());
    assert!(r.upstream.is_empty());
}

#[test]
fn scalar_resolves_to_the_cell() {
    let r = resolved(&["B2", "Z9"], &grid());
    assert_eq!(
        r.arguments,
        vec![Argument::Value(Value::Text("five".to_string())), Argument::Value(Value::Empty)]
    );
    assert_eq!(r.upstream, names(&["B2", "Z9"]));
}

#[test]
fn vector_resolves_left_to_right() {
    let r = resolved(&["A1_C1"], &grid());
    assert_eq!(
        r.arguments,
        vec![Argument::Vector(vec![Value::Int(1), Value::Int(2), Value::Int(3)])]
    );
    assert_eq!(r.upstream, names(&["A1", "B1", "C1"]));
}

#[test]
fn vector_with_reversed_corners_resolves_the_same() {
    let forward = resolved(&["A1_C1"], &grid());
    let backward = resolved(&["C1_A1"], &grid());
    assert_eq!(forward.arguments, backward.arguments);
    assert_eq!(forward.upstream, backward.upstream);
}

#[test]
fn vector_of_one_cell() {
    let r = resolved(&["B1_B1"], &grid());
    assert_eq!(r.arguments, vec![Argument::Vector(vec![Value::Int(2)])]);
    assert_eq!(r.upstream, names(&["B1"]));
}

#[test]
fn vector_past_column_z() {
    let r = resolved(&["Y3_AB3"], &grid());
    assert_eq!(r.upstream, names(&["Y3", "Z3", "AA3", "AB3"]));
    assert_eq!(r.arguments, vec![Argument::Vector(vec![Value::Empty; 4])]);
}

#[test]
fn vector_keeps_the_row_as_written() {
    let cells = store(&[("A01", Value::Int(1)), ("A1", Value::Int(9))]);
    let r = resolved(&["A01_B01"], &cells);
    assert_eq!(r.upstream, names(&["A01", "B01"]));
    assert_eq!(r.arguments, vec![Argument::Vector(vec![Value::Int(1), Value::Empty])]);
}

#[test]
fn matrix_resolves_row_by_row() {
    let r = resolved(&["A1_C2"], &grid());
    assert_eq!(
        r.arguments,
        vec![Argument::Matrix(vec![
            vec![Value::Int(1), Value::Int(2), Value::Int(3)],
            vec![Value::Int(4), Value::Text("five".to_string()), Value::Int(6)],
        ])]
    );
    assert_eq!(r.upstream, names(&["A1", "B1", "C1", "A2", "B2", "C2"]));
}

#[test]
fn matrix_with_any_corners_resolves_the_same() {
    let expected = resolved(&["A1_C2"], &grid());
    for token in ["C2_A1", "A2_C1", "C1_A2"] {
        let r = resolved(&[token], &grid());
        assert_eq!(r.arguments, expected.arguments, "{token}");
        assert_eq!(r.upstream, expected.upstream, "{token}");
    }
}

#[test]
fn matrix_writes_rows_without_leading_zeros() {
    let cells = store(&[("A1", Value::Int(1)), ("A2", Value::Int(2)), ("A01", Value::Int(9))]);
    let r = resolved(&["A01_A2"], &cells);
    assert_eq!(r.upstream, names(&["A1", "A2"]));
    assert_eq!(r.arguments, vec![Argument::Matrix(vec![vec![Value::Int(1)], vec![Value::Int(2)]])]);
}

#[test]
fn every_variable_has_its_argument_and_addresses_are_listed_once() {
    let r = resolved(&["B1", "A1_B1", "B1", "A1_B2"], &grid());
    assert_eq!(r.arguments.len(), 4);
    assert_eq!(r.arguments[0], Argument::Value(Value::Int(2)));
    assert_eq!(r.arguments[1], Argument::Vector(vec![Value::Int(1), Value::Int(2)]));
    assert_eq!(r.arguments[2], Argument::Value(Value::Int(2)));
    assert_eq!(r.upstream, names(&["B1", "A1", "A2", "B2"]));
}

#[test]
fn malformed_variable_fails_with_a_fault_that_names_it() {
    assert_eq!(fault(&["A1", "B1_", "C1"], &grid()), Fault::Format("B1_".to_string()));
    assert_eq!(fault(&["hello"], &grid()), Fault::Format("hello".to_string()));
    assert_eq!(
        Fault::Format("B1_".to_string()).message(),
        "Invalid cell address format: B1_"
    );
}

#[test]
fn faulted_cell_fails_with_the_dependency_fault() {
    let mut cells = grid();
    cells.set("B2".to_string(), Fault::Circular.value());
    assert_eq!(fault(&["B2"], &cells), Fault::Dependency);
    assert_eq!(fault(&["A2_C2"], &cells), Fault::Dependency);
    assert_eq!(fault(&["A1_C2"], &cells), Fault::Dependency);
    assert_eq!(fault(&["C3_A1"], &cells), Fault::Dependency);
    let r = resolved(&["A1_C1", "A2", "C2"], &cells);
    assert_eq!(r.arguments.len(), 3);
}

#[test]
fn first_variable_that_fails_decides() {
    let mut cells = grid();
    cells.set("A1".to_string(), Fault::Dependency.value());
    assert_eq!(fault(&["A1", "oops"], &cells), Fault::Dependency);
    assert_eq!(fault(&["oops", "A1"], &cells), Fault::Format("oops".to_string()));
}

#[test]
fn error_of_the_evaluator_fails_with_the_dependency_fault() {
    let cells = store(&[
        ("A1", Value::Int(1)),
        ("B1", Value::Error("x".to_string())),
        ("C1", Value::Int(3)),
    ]);
    assert_eq!(fault(&["B1"], &cells), Fault::Dependency);
    assert_eq!(fault(&["A1_C1"], &cells), Fault::Dependency);
    assert_eq!(fault(&["A1_C2"], &cells), Fault::Dependency);
    assert_eq!(resolved(&["A1", "C1"], &cells).arguments.len(), 2);
}

#[test]
fn error_in_an_earlier_variable_comes_before_a_malformed_one() {
    let cells = store(&[("A1", Value::Error("x".to_string()))]);
    assert_eq!(fault(&["A1", "a1"], &cells), Fault::Dependency);
    assert_eq!(fault(&["a1", "A1"], &cells), Fault::Format("a1".to_string()));
}

#[test]
fn faults_have_their_texts() {
    assert_eq!(Fault::Dependency.message(), "Dependency error");
    assert_eq!(Fault::Circular.message(), "Circular dependency error");
    assert_eq!(Fault::Dependency.value(), Value::Error("Dependency error".to_string()));
    assert_eq!(Fault::Circular.value(), Value::Error("Circular dependency error".to_string()));
    assert!(Fault::Dependency.value().is_fault());
    assert!(Fault::Circular.value().is_fault());
    assert!(!Fault::Format("x".to_string()).value().is_fault());
    assert!(!Value::Empty.is_fault());
    assert!(!Value::Int(0).is_fault());
    assert!(!Value::Text("Dependency error".to_string()).is_fault());
    assert!(!Value::Error("Function not found".to_string()).is_fault());
}

#[test]
fn errors_are_errors_whatever_their_text() {
    assert!(Value::Error("Function not found".to_string()).is_error());
    assert!(Fault::Dependency.value().is_error());
    assert!(Fault::Circular.value().is_error());
    assert!(Fault::Format("x".to_string()).value().is_error());
    assert!(!Value::Empty.is_error());
    assert!(!Value::Int(0).is_error());
    assert!(!Value::Text("Dependency error".to_string()).is_error());
}
