use rsheet::command::{
    execute_command, execute_get, parse_command, record_fault, record_set, Action, Command,
    Evaluation, Reply, Update,
};
use rsheet::resolve::Argument;
use rsheet::session::handle_message;
use rsheet::store::CellStore;
use rsheet::value::{Fault, Value};
use rsheet::words::{is_space_char, join_words, split_words};

fn refused(line: &str) -> String {
    match parse_command(line.to_string()) {
        Ok(command) => panic!("{line:?} is refused, but: {command:?}"),
        Err(reason) => reason,
    }
}

#[test]
fn get_names_one_cell() {
    match parse_command("get A1".to_string()) {
        Ok(Command::Get(address)) => assert_eq!(address, "A1"),
        other => panic!("{other:?}"),
    }
    match parse_command("  get \t ZZ10 \n".to_string()) {
        Ok(Command::Get(address)) => assert_eq!(address, "ZZ10"),
        other => panic!("{other:?}"),
    }
}

#[test]
fn set_names_a_cell_and_an_expression() {
    match parse_command("set A1 5".to_string()) {
        Ok(Command::Assign(address, expression)) => {
            assert_eq!(address, "A1");
            assert_eq!(expression, "5");
        }
        other => panic!("{other:?}"),
    }
    match parse_command("set  B2   A1 +\tsum( A1_C1 )  ".to_string()) {
        Ok(Command::Assign(address, expression)) => {
            assert_eq!(address, "B2");
            assert_eq!(expression, "A1 + sum( A1_C1 )");
        }
        other => panic!("{other:?}"),
    }
}

#[test]
fn empty_line_names_no_operation() {
    assert_eq!(refused(""), "No operation specified.");
    assert_eq!(refused("   \t  "), "No operation specified.");
}

#[test]
fn unknown_operation_is_named() {
    assert_eq!(refused("put A1 5"), "Invalid operation: put");
    assert_eq!(refused("GET A1"), "Invalid operation: GET");
    assert_eq!(refused("A1"), "Invalid operation: A1");
    assert_eq!(refused("getA1"), "Invalid operation: getA1");
}

#[test]
fn get_wants_exactly_one_address() {
    assert_eq!(refused("get"), "Invalid cell reference in get command");
    assert_eq!(refused("get a1"), "Invalid cell reference in get command");
    assert_eq!(refused("get A1 B1"), "Invalid cell reference in get command");
    assert_eq!(refused("get A1_B1"), "Invalid cell reference in get command");
    assert_eq!(refused("get 11"), "Invalid cell reference in get command");
}

#[test]
fn set_wants_an_address_and_an_expression() {
    assert_eq!(refused("set"), "No cell reference given in set command");
    assert_eq!(refused("set 5"), "Invalid cell reference in set command");
    assert_eq!(refused("set a1 5"), "Invalid cell reference in set command");
    assert_eq!(refused("set A1_B1 5"), "Invalid cell reference in set command");
    assert_eq!(refused("set A1"), "Must provide expression for set");
    assert_eq!(refused("set A1   "), "Must provide expression for set");
}

#[test]
fn words_are_split_at_any_white_space() {
    assert_eq!(split_words("a b"), vec!["a", "b"]);
    assert_eq!(split_words("  a\t\tb\r\nc  "), vec!["a", "b", "c"]);
    assert_eq!(split_words("a\u{a0}b\u{2003}c\u{3000}d"), vec!["a", "b", "c", "d"]);
    assert_eq!(split_words("a\u{200b}b"), vec!["a\u{200b}b"]);
    assert_eq!(split_words(""), Vec::<String>::new());
    assert_eq!(split_words(" \n "), Vec::<String>::new());
    assert_eq!(split_words("one"), vec!["one"]);
}

#[test]
fn white_space_is_what_the_standard_library_calls_so() {
    for code in 0..=0x3100u32 {
        if let Some(c) = char::from_u32(code) {
            assert_eq!(is_space_char(c), c.is_whitespace(), "{code:#x}");
        }
    }
}

#[test]
fn words_are_joined_by_single_spaces() {
    let words: Vec<String> = vec!["a".into(), "b".into(), "c".into()];
    assert_eq!(join_words(&words, 0), "a b c");
    assert_eq!(join_words(&words, 1), "b c");
    assert_eq!(join_words(&words, 2), "c");
    assert_eq!(join_words(&words, 3), "");
}

fn evaluation(
    address: &str,
    formula: &str,
    variables: &[&str],
    arguments: Vec<Argument>,
    upstream: &[&str],
) -> Evaluation {
    Evaluation {
        address: address.to_string(),
        formula: formula.to_string(),
        variables: variables.iter().map(|v| v.to_string()).collect(),
        arguments,
        upstream: upstream.iter().map(|v| v.to_string()).collect(),
    }
}

#[test]
fn get_answers_with_the_value() {
    let mut cells = CellStore::new();
    cells.set("A1".to_string(), Value::Text("x".to_string()));
    assert_eq!(
        execute_get("A1".to_string(), &cells),
        Reply::Value("A1".to_string(), Value::Text("x".to_string()))
    );
    assert_eq!(execute_get("B1".to_string(), &cells), Reply::Value("B1".to_string(), Value::Empty));
    assert_eq!(
        execute_command(Command::Get("B1".to_string()), &cells),
        Action::Reply(Reply::Value("B1".to_string(), Value::Empty))
    );
}

#[test]
fn get_of_a_faulted_cell_answers_with_the_fault() {
    let mut cells = CellStore::new();
    cells.set("A1".to_string(), Fault::Dependency.value());
    cells.set("B1".to_string(), Fault::Circular.value());
    cells.set("C1".to_string(), Value::Error("Unknown operator".to_string()));
    assert_eq!(execute_get("A1".to_string(), &cells), Reply::Error("Dependency error".to_string()));
    assert_eq!(
        execute_get("B1".to_string(), &cells),
        Reply::Error("Circular dependency error".to_string())
    );
    assert_eq!(
        execute_get("C1".to_string(), &cells),
        Reply::Value("C1".to_string(), Value::Error("Unknown operator".to_string()))
    );
}

#[test]
fn set_that_resolves_asks_for_the_evaluation() {
    let mut cells = CellStore::new();
    cells.set("A1".to_string(), Value::Int(20));
    cells.set("A2".to_string(), Value::Int(2));
    let command = Command::Assign("B1".to_string(), "A1 * 2 + sum(A1_A2)".to_string());
    assert_eq!(
        execute_command(command, &cells),
        Action::Evaluate(evaluation(
            "B1",
            "A1 * 2 + sum(A1_A2)",
            &["A1", "A1_A2"],
            vec![
                Argument::Value(Value::Int(20)),
                Argument::Matrix(vec![vec![Value::Int(20)], vec![Value::Int(2)]]),
            ],
            &["A1", "A2"],
        ))
    );
    assert_eq!(cells.get("B1"), Value::Empty);
}

#[test]
fn variables_of_a_formula_are_listed_in_its_order() {
    let cells = CellStore::new();
    let command = Command::Assign("B1".to_string(), "A1 + sum(A2_B3) + A1".to_string());
    match execute_command(command, &cells) {
        Action::Evaluate(evaluation) => {
            assert_eq!(evaluation.variables, vec!["A1", "A2_B3", "A1"]);
            assert_eq!(evaluation.upstream, vec!["A1", "A2", "B2", "A3", "B3"]);
        }
        other => panic!("{other:?}"),
    }
}

#[test]
fn value_of_a_set_is_written_and_the_worker_is_told() {
    let mut cells = CellStore::new();
    let mut tx: Vec<Update> = Vec::new();
    let first = evaluation("B1", "A1 * 2", &["A1"], vec![Argument::Value(Value::Int(2))], &["A1"]);
    record_set(&mut cells, &mut tx, first, Value::Int(4));
    let second = evaluation("A1", "3", &[], vec![], &[]);
    record_set(&mut cells, &mut tx, second, Value::Int(3));
    assert_eq!(cells.get("B1"), Value::Int(4));
    assert_eq!(cells.get("A1"), Value::Int(3));
    assert_eq!(
        tx,
        vec![
            Update {
                address: "B1".to_string(),
                formula: "A1 * 2".to_string(),
                upstream: vec!["A1".to_string()],
            },
            Update { address: "A1".to_string(), formula: "3".to_string(), upstream: vec![] },
        ]
    );
}

#[test]
fn set_that_reads_a_faulted_cell_is_to_write_the_fault() {
    let mut cells = CellStore::new();
    cells.set("A1".to_string(), Fault::Circular.value());
    cells.set("B1".to_string(), Value::Int(1));
    let command = Command::Assign("B1".to_string(), "A1 + 1".to_string());
    let action = execute_command(command, &cells);
    assert_eq!(action, Action::Fault("B1".to_string(), Fault::Dependency));
    assert_eq!(cells.get("B1"), Value::Int(1));
    assert_eq!(
        record_fault(&mut cells, "B1".to_string(), &Fault::Dependency),
        Reply::Error("Dependency error".to_string())
    );
    assert_eq!(cells.get("B1"), Fault::Dependency.value());
}

#[test]
fn set_that_reads_an_error_of_the_evaluator_is_to_write_the_fault() {
    let mut cells = CellStore::new();
    cells.set("A1".to_string(), Value::Error("x".to_string()));
    let command = Command::Assign("B1".to_string(), "A1 + 1".to_string());
    assert_eq!(
        execute_command(command, &cells),
        Action::Fault("B1".to_string(), Fault::Dependency)
    );
}

#[test]
fn set_with_a_range_beyond_the_limits_changes_nothing() {
    let mut cells = CellStore::new();
    cells.set("B1".to_string(), Value::Int(1));
    let command = Command::Assign("B1".to_string(), "sum(A1_B4294967296)".to_string());
    assert_eq!(
        execute_command(command, &cells),
        Action::Reply(Reply::Error("Invalid cell address format: A1_B4294967296".to_string()))
    );
    assert_eq!(cells.get("B1"), Value::Int(1));
}

#[test]
fn nothing_does_nothing() {
    let cells = CellStore::new();
    assert_eq!(execute_command(Command::Nothing, &cells), Action::Nothing);
}

#[test]
fn session_decides_what_is_to_be_done_for_a_line() {
    let mut cells = CellStore::new();
    cells.set("A1".to_string(), Value::Int(6));
    assert_eq!(
        handle_message("get A1".to_string(), &cells),
        Action::Reply(Reply::Value("A1".to_string(), Value::Int(6)))
    );
    assert_eq!(
        handle_message("set B1 A1".to_string(), &cells),
        Action::Evaluate(evaluation("B1", "A1", &["A1"], vec![Argument::Value(Value::Int(6))], &["A1"]))
    );
    assert_eq!(
        handle_message("frobnicate".to_string(), &cells),
        Action::Reply(Reply::Error("Invalid operation: frobnicate".to_string()))
    );
    assert_eq!(
        handle_message("".to_string(), &cells),
        Action::Reply(Reply::Error("No operation specified.".to_string()))
    );
    assert_eq!(
        handle_message("get A1 A2".to_string(), &cells),
        Action::Reply(Reply::Error("Invalid cell reference in get command".to_string()))
    );
}

#[test]
fn formula_that_is_no_expression_has_no_variables() {
    let cells = CellStore::new();
    assert_eq!(
        handle_message("set A1 1 +".to_string(), &cells),
        Action::Evaluate(evaluation("A1", "1 +", &[], vec![], &[]))
    );
}
