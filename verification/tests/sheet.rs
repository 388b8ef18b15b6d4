use std::collections::HashMap;

use rsheet::command::{record_fault, record_set, Action, Evaluation, Reply, Update};
use rsheet::graph::DependencyGraph;
use rsheet::resolve::Argument;
use rsheet::session::handle_message;
use rsheet::store::CellStore;
use rsheet::value::Value;
use rsheet::worker::{dfs_update_dependencies, handle_dependency_update, record_recomputed, Write};
use rsheet_lib::cell_value::CellValue;
use rsheet_lib::command_runner::{CellArgument, CommandRunner};

/// A spreadsheet served by one session and one worker, one line at a time.
struct Sheet {
    cells: CellStore,
    graph: DependencyGraph,
    journals: Vec<Vec<Write>>,
}

fn new_sheet() -> Sheet {
    Sheet { cells: CellStore::new(), graph: DependencyGraph::new(), journals: Vec::new() }
}

fn outside_value(value: &Value) -> CellValue {
    match value {
        Value::Empty => CellValue::None,
        Value::Int(number) => CellValue::Int(*number),
        Value::Text(text) => CellValue::String(text.clone()),
        Value::Error(message) => CellValue::Error(message.clone()),
    }
}

fn outside_argument(argument: &Argument) -> CellArgument {
    match argument {
        Argument::Value(value) => CellArgument::Value(outside_value(value)),
        Argument::Vector(row) => CellArgument::Vector(row.iter().map(outside_value).collect()),
        Argument::Matrix(rows) => CellArgument::Matrix(
            rows.iter().map(|row| row.iter().map(outside_value).collect()).collect(),
        ),
    }
}

/// Evaluates a formula as the server does.
fn evaluate(evaluation: &Evaluation) -> Value {
    let variables: HashMap<String, CellArgument> = evaluation
        .variables
        .iter()
        .cloned()
        .zip(evaluation.arguments.iter().map(outside_argument))
        .collect();
    match CommandRunner::new(&evaluation.formula).run(&variables) {
        CellValue::None => Value::Empty,
        CellValue::Int(number) => Value::Int(number),
        CellValue::String(text) => Value::Text(text),
        CellValue::Error(message) => Value::Error(message),
    }
}

/// Handles one change as the worker does, and returns the journal.
fn settle(cells: &mut CellStore, graph: &mut DependencyGraph, update: &Update) -> Vec<Write> {
    let mut walk = handle_dependency_update(cells, graph, update);
    while let Some(evaluation) = dfs_update_dependencies(&mut walk, cells, graph) {
        let value = evaluate(&evaluation);
        record_recomputed(&mut walk, cells, graph, &evaluation.address, value);
    }
    assert!(walk.frames.is_empty());
    walk.journal
}

/// Handles one line as a session does, the worker after it, and returns the reply.
fn run(sheet: &mut Sheet, line: &str) -> Option<Reply> {
    match handle_message(line.to_string(), &sheet.cells) {
        Action::Nothing => None,
        Action::Reply(reply) => Some(reply),
        Action::Fault(address, fault) => Some(record_fault(&mut sheet.cells, address, &fault)),
        Action::Evaluate(evaluation) => {
            let value = evaluate(&evaluation);
            let mut tx: Vec<Update> = Vec::new();
            record_set(&mut sheet.cells, &mut tx, evaluation, value);
            for update in tx {
                let journal = settle(&mut sheet.cells, &mut sheet.graph, &update);
                sheet.journals.push(journal);
            }
            None
        }
    }
}

fn value_of(sheet: &mut Sheet, address: &str) -> Option<Reply> {
    run(sheet, &format!("get {address}"))
}

fn holds(address: &str, value: Value) -> Option<Reply> {
    Some(Reply::Value(address.to_string(), value))
}

fn error(text: &str) -> Option<Reply> {
    Some(Reply::Error(text.to_string()))
}

#[test]
fn get_of_unwritten_cell_is_empty() {
    let mut sheet = new_sheet();
    assert_eq!(value_of(&mut sheet, "A1"), holds("A1", Value::Empty));
    assert_eq!(value_of(&mut sheet, "ZZ99"), holds("ZZ99", Value::Empty));
}

#[test]
fn set_literal_then_get_returns_it() {
    let mut sheet = new_sheet();
    assert_eq!(run(&mut sheet, "set A1 5"), None);
    assert_eq!(value_of(&mut sheet, "A1"), holds("A1", Value::Int(5)));
    assert_eq!(run(&mut sheet, "set A2 \"hello\""), None);
    assert_eq!(value_of(&mut sheet, "A2"), holds("A2", Value::Text("hello".to_string())));
}

#[test]
fn dependent_follows_its_source() {
    let mut sheet = new_sheet();
    assert_eq!(run(&mut sheet, "set A1 5"), None);
    assert_eq!(run(&mut sheet, "set B1 A1 + 1"), None);
    assert_eq!(value_of(&mut sheet, "B1"), holds("B1", Value::Int(6)));
    assert_eq!(run(&mut sheet, "set A1 10"), None);
    assert_eq!(value_of(&mut sheet, "B1"), holds("B1", Value::Int(11)));
    assert_eq!(
        sheet.journals.last().unwrap(),
        &vec![Write::Evaluated("B1".to_string(), Value::Int(11))]
    );
}

#[test]
fn change_reaches_cells_two_levels_down() {
    let mut sheet = new_sheet();
    assert_eq!(run(&mut sheet, "set A1 1"), None);
    assert_eq!(run(&mut sheet, "set B1 A1 * 2"), None);
    assert_eq!(run(&mut sheet, "set C1 B1 + A1"), None);
    assert_eq!(value_of(&mut sheet, "C1"), holds("C1", Value::Int(3)));
    assert_eq!(run(&mut sheet, "set A1 4"), None);
    assert_eq!(value_of(&mut sheet, "B1"), holds("B1", Value::Int(8)));
    assert_eq!(value_of(&mut sheet, "C1"), holds("C1", Value::Int(12)));
}

#[test]
fn vector_reads_left_to_right_whichever_corner_comes_first() {
    let mut sheet = new_sheet();
    assert_eq!(run(&mut sheet, "set A1 1"), None);
    assert_eq!(run(&mut sheet, "set B1 2"), None);
    assert_eq!(run(&mut sheet, "set C1 3"), None);
    assert_eq!(run(&mut sheet, "set D1 sum(A1_C1)"), None);
    assert_eq!(run(&mut sheet, "set D2 sum(C1_A1)"), None);
    assert_eq!(value_of(&mut sheet, "D1"), holds("D1", Value::Int(6)));
    assert_eq!(value_of(&mut sheet, "D2"), holds("D2", Value::Int(6)));
    assert_eq!(run(&mut sheet, "set E1 A1_C1[0] * 100 + A1_C1[1] * 10 + A1_C1[2]"), None);
    assert_eq!(run(&mut sheet, "set E2 C1_A1[0] * 100 + C1_A1[1] * 10 + C1_A1[2]"), None);
    assert_eq!(value_of(&mut sheet, "E1"), holds("E1", Value::Int(123)));
    assert_eq!(value_of(&mut sheet, "E2"), holds("E2", Value::Int(123)));
}

#[test]
fn cycle_marks_both_cells() {
    let mut sheet = new_sheet();
    assert_eq!(run(&mut sheet, "set B1 1"), None);
    assert_eq!(run(&mut sheet, "set A1 B1 + 1"), None);
    assert_eq!(run(&mut sheet, "set B1 A1 + 1"), None);
    assert_eq!(value_of(&mut sheet, "A1"), error("Circular dependency error"));
    assert_eq!(value_of(&mut sheet, "B1"), error("Circular dependency error"));
    assert_eq!(
        sheet.journals.last().unwrap(),
        &vec![Write::Marked("B1".to_string()), Write::Marked("A1".to_string())]
    );
}

#[test]
fn cycle_of_plain_references_on_empty_cells_marks_both_cells() {
    let mut sheet = new_sheet();
    assert_eq!(run(&mut sheet, "set A1 B1"), None);
    assert_eq!(run(&mut sheet, "set B1 A1"), None);
    assert_eq!(value_of(&mut sheet, "A1"), error("Circular dependency error"));
    assert_eq!(value_of(&mut sheet, "B1"), error("Circular dependency error"));
}

#[test]
fn sum_with_an_empty_cell_is_an_error_of_the_evaluator_and_stops_the_next_set() {
    let mut sheet = new_sheet();
    assert_eq!(run(&mut sheet, "set A1 B1 + 1"), None);
    assert!(matches!(value_of(&mut sheet, "A1"), Some(Reply::Value(_, Value::Error(_)))));
    assert_eq!(run(&mut sheet, "set B1 A1 + 1"), error("Dependency error"));
    assert_eq!(value_of(&mut sheet, "B1"), error("Dependency error"));
    assert!(matches!(value_of(&mut sheet, "A1"), Some(Reply::Value(_, Value::Error(_)))));
}

#[test]
fn cell_that_reads_a_faulted_cell_takes_the_dependency_fault() {
    let mut sheet = new_sheet();
    assert_eq!(run(&mut sheet, "set B1 5"), None);
    assert_eq!(run(&mut sheet, "set A1 B1 + 1"), None);
    assert_eq!(run(&mut sheet, "set B1 A1 + 1"), None);
    assert_eq!(value_of(&mut sheet, "A1"), error("Circular dependency error"));
    assert_eq!(run(&mut sheet, "set D1 A1 + 1"), error("Dependency error"));
    assert_eq!(value_of(&mut sheet, "D1"), error("Dependency error"));
    assert_eq!(run(&mut sheet, "set E1 D1 + 1"), error("Dependency error"));
    assert_eq!(value_of(&mut sheet, "E1"), error("Dependency error"));
}

#[test]
fn recomputed_cell_takes_the_dependency_fault_and_keeps_no_stale_value() {
    let mut sheet = new_sheet();
    assert_eq!(run(&mut sheet, "set X1 1"), None);
    assert_eq!(run(&mut sheet, "set A1 X1"), None);
    assert_eq!(run(&mut sheet, "set C1 7"), None);
    assert_eq!(run(&mut sheet, "set B1 A1 + C1"), None);
    assert_eq!(value_of(&mut sheet, "B1"), holds("B1", Value::Int(8)));
    // A1 now reads a faulted cell: it takes the dependency fault, the worker is not told.
    assert_eq!(run(&mut sheet, "set Y1 Z1"), None);
    assert_eq!(run(&mut sheet, "set Z1 Y1"), None);
    assert_eq!(run(&mut sheet, "set A1 Y1"), error("Dependency error"));
    assert_eq!(value_of(&mut sheet, "B1"), holds("B1", Value::Int(8)));
    // B1 is recomputed because C1 changes, and reads A1.
    assert_eq!(run(&mut sheet, "set C1 8"), None);
    assert_eq!(value_of(&mut sheet, "B1"), error("Dependency error"));
    assert_eq!(
        sheet.journals.last().unwrap(),
        &vec![Write::Faulted("B1".to_string(), rsheet::value::Fault::Dependency)]
    );
}

#[test]
fn cell_that_reads_an_error_of_the_evaluator_takes_the_dependency_fault_when_recomputed() {
    let mut sheet = new_sheet();
    assert_eq!(run(&mut sheet, "set A1 1"), None);
    assert_eq!(run(&mut sheet, "set C1 A1 + 1"), None);
    assert_eq!(run(&mut sheet, "set D1 C1 + 1"), None);
    assert_eq!(value_of(&mut sheet, "D1"), holds("D1", Value::Int(3)));
    // A1 becomes a text: C1 is an error of the evaluator, D1 reads it.
    assert_eq!(run(&mut sheet, "set A1 \"one\" - 1"), None);
    assert!(matches!(value_of(&mut sheet, "A1"), Some(Reply::Value(_, Value::Error(_)))));
    assert_eq!(value_of(&mut sheet, "C1"), error("Dependency error"));
    assert_eq!(value_of(&mut sheet, "D1"), holds("D1", Value::Int(3)));
}

#[test]
fn removed_reference_stops_propagation() {
    let mut sheet = new_sheet();
    assert_eq!(run(&mut sheet, "set A1 1"), None);
    assert_eq!(run(&mut sheet, "set B1 A1"), None);
    assert_eq!(value_of(&mut sheet, "B1"), holds("B1", Value::Int(1)));
    assert_eq!(run(&mut sheet, "set B1 5"), None);
    assert_eq!(run(&mut sheet, "set A1 2"), None);
    assert_eq!(value_of(&mut sheet, "B1"), holds("B1", Value::Int(5)));
    assert_eq!(sheet.journals.last().unwrap(), &Vec::<Write>::new());
}

#[test]
fn breaking_a_cycle_clears_the_faults() {
    let mut sheet = new_sheet();
    assert_eq!(run(&mut sheet, "set B1 1"), None);
    assert_eq!(run(&mut sheet, "set A1 B1 + 1"), None);
    assert_eq!(run(&mut sheet, "set B1 A1 + 1"), None);
    assert_eq!(value_of(&mut sheet, "B1"), error("Circular dependency error"));
    assert_eq!(run(&mut sheet, "set A1 5"), None);
    assert_eq!(value_of(&mut sheet, "A1"), holds("A1", Value::Int(5)));
    assert_eq!(value_of(&mut sheet, "B1"), holds("B1", Value::Int(6)));
}

#[test]
fn sets_to_unrelated_cells_both_take_effect_in_either_order() {
    let mut first = new_sheet();
    assert_eq!(run(&mut first, "set A1 1"), None);
    assert_eq!(run(&mut first, "set B7 2"), None);
    let mut second = new_sheet();
    assert_eq!(run(&mut second, "set B7 2"), None);
    assert_eq!(run(&mut second, "set A1 1"), None);
    for sheet in [&mut first, &mut second] {
        assert_eq!(value_of(sheet, "A1"), holds("A1", Value::Int(1)));
        assert_eq!(value_of(sheet, "B7"), holds("B7", Value::Int(2)));
    }
}

#[test]
fn lines_that_are_no_commands_are_answered_with_the_reason() {
    let mut sheet = new_sheet();
    assert_eq!(run(&mut sheet, "frobnicate"), error("Invalid operation: frobnicate"));
    assert_eq!(run(&mut sheet, ""), error("No operation specified."));
    assert_eq!(run(&mut sheet, "get A1 A2"), error("Invalid cell reference in get command"));
    assert!(sheet.journals.is_empty());
}
