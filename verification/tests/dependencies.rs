use std::collections::HashMap;

use rsheet::command::{Evaluation, Update};
use rsheet::cycle::detect_cycle;
use rsheet::graph::{remove_address, DependencyGraph, DependencyNode};
use rsheet::resolve::Argument;
use rsheet::store::CellStore;
use rsheet::value::{Fault, Value};
use rsheet::worker::{
    dfs_update_dependencies, handle_dependency_update, mark_cycle, record_recomputed, Frame,
    Propagation, Write,
};
use rsheet_lib::cell_value::CellValue;
use rsheet_lib::command_runner::{CellArgument, CommandRunner};

fn outside_value(value: &Value) -> CellValue {
    match value {
        Value::Empty => CellValue::None,
        Value::Int(number) => CellValue::Int(*number),
        Value::Text(text) => CellValue::String(text.clone()),
        Value::Error(message) => CellValue::Error(message.clone()),
    }
}

fn outside_argument(argument: &Argument) -> CellArgument {
    match argument {
        Argument::Value(value) => CellArgument::Value(outside_value(value)),
        Argument::Vector(row) => CellArgument::Vector(row.iter().map(outside_value).collect()),
        Argument::Matrix(rows) => CellArgument::Matrix(
            rows.iter().map(|row| row.iter().map(outside_value).collect()).collect(),
        ),
    }
}

/// Evaluates a formula as the server does.
fn evaluate(evaluation: &Evaluation) -> Value {
    let variables: HashMap<String, CellArgument> = evaluation
        .variables
        .iter()
        .cloned()
        .zip(evaluation.arguments.iter().map(outside_argument))
        .collect();
    match CommandRunner::new(&evaluation.formula).run(&variables) {
        CellValue::None => Value::Empty,
        CellValue::Int(number) => Value::Int(number),
        CellValue::String(text) => Value::Text(text),
        CellValue::Error(message) => Value::Error(message),
    }
}

/// Handles one change as the worker does, and returns the journal.
fn settle(cells: &mut CellStore, graph: &mut DependencyGraph, update: &Update) -> Vec<Write> {
    let mut walk = handle_dependency_update(cells, graph, update);
    while let Some(evaluation) = dfs_update_dependencies(&mut walk, cells, graph) {
        let value = evaluate(&evaluation);
        record_recomputed(&mut walk, cells, graph, &evaluation.address, value);
    }
    assert!(walk.frames.is_empty());
    walk.journal
}


fn names(list: &[&str]) -> Vec<String> {
    list.iter().map(|v| v.to_string()).collect()
}

/// The nodes of the graph as (address, formula, dependents).
fn nodes(graph: &DependencyGraph) -> Vec<(String, String, Vec<String>)> {
    graph
        .nodes
        .iter()
        .map(|n: &DependencyNode| (n.address.clone(), n.formula.clone(), n.neighbors.clone()))
        .collect()
}

fn node(address: &str, formula: &str, neighbors: &[&str]) -> (String, String, Vec<String>) {
    (address.to_string(), formula.to_string(), names(neighbors))
}

/// A graph with an edge from the first to the second of every pair.
fn graph_of(edges: &[(&str, &str)]) -> DependencyGraph {
    let mut graph = DependencyGraph::new();
    for (from, to) in edges {
        graph.set_formula(to, String::new());
        graph.add_edge(from, to);
    }
    graph
}

fn cycle_from(graph: &DependencyGraph, address: &str) -> (bool, Vec<String>, Vec<String>) {
    let mut rec_stack = Vec::new();
    let mut visited = Vec::new();
    let found = detect_cycle(graph, address, &mut rec_stack, &mut visited);
    (found, rec_stack, visited)
}

fn update(address: &str, formula: &str, upstream: &[&str]) -> Update {
    Update { address: address.to_string(), formula: formula.to_string(), upstream: names(upstream) }
}

#[test]
fn new_graph_has_no_nodes() {
    let graph = DependencyGraph::new();
    assert!(graph.nodes.is_empty());
    assert_eq!(graph.find("A1"), None);
}

#[test]
fn setting_a_formula_makes_or_changes_the_node() {
    let mut graph = DependencyGraph::new();
    graph.set_formula("A1", "1".to_string());
    graph.set_formula("B1", "A1".to_string());
    graph.add_edge("A1", "B1");
    graph.set_formula("A1", "2".to_string());
    assert_eq!(nodes(&graph), vec![node("A1", "2", &["B1"]), node("B1", "A1", &[])]);
    assert_eq!(graph.find("A1"), Some(0));
    assert_eq!(graph.find("B1"), Some(1));
    assert_eq!(graph.find("C1"), None);
}

#[test]
fn adding_an_edge_twice_adds_it_once() {
    let mut graph = DependencyGraph::new();
    graph.add_edge("A1", "B1");
    graph.add_edge("A1", "C1");
    graph.add_edge("A1", "B1");
    assert_eq!(nodes(&graph), vec![node("A1", "", &["B1", "C1"])]);
}

#[test]
fn update_makes_nodes_for_the_cell_and_its_sources() {
    let mut graph = DependencyGraph::new();
    graph.update("C1", "A1 + B1".to_string(), &names(&["A1", "B1"]));
    assert_eq!(
        nodes(&graph),
        vec![node("C1", "A1 + B1", &[]), node("A1", "", &["C1"]), node("B1", "", &["C1"])]
    );
}

#[test]
fn update_keeps_the_dependents_of_the_cell() {
    let mut graph = DependencyGraph::new();
    graph.update("B1", "A1".to_string(), &names(&["A1"]));
    graph.update("A1", "5".to_string(), &names(&[]));
    assert_eq!(nodes(&graph), vec![node("B1", "A1", &[]), node("A1", "5", &["B1"])]);
}

#[test]
fn update_removes_stale_edges() {
    let mut graph = DependencyGraph::new();
    graph.update("C1", "A1 + B1".to_string(), &names(&["A1", "B1"]));
    graph.update("D1", "A1".to_string(), &names(&["A1"]));
    graph.update("C1", "B1 + E1".to_string(), &names(&["B1", "E1"]));
    assert_eq!(
        nodes(&graph),
        vec![
            node("C1", "B1 + E1", &[]),
            node("A1", "", &["D1"]),
            node("B1", "", &["C1"]),
            node("D1", "A1", &[]),
            node("E1", "", &["C1"]),
        ]
    );
    graph.update("C1", "1".to_string(), &names(&[]));
    assert_eq!(
        nodes(&graph),
        vec![
            node("C1", "1", &[]),
            node("A1", "", &["D1"]),
            node("B1", "", &[]),
            node("D1", "A1", &[]),
            node("E1", "", &[]),
        ]
    );
}

#[test]
fn removing_an_address_keeps_the_others_in_order() {
    assert_eq!(remove_address(&names(&["A1", "B1", "C1"]), "B1"), names(&["A1", "C1"]));
    assert_eq!(remove_address(&names(&["A1", "B1"]), "Z1"), names(&["A1", "B1"]));
    assert_eq!(remove_address(&names(&[]), "Z1"), names(&[]));
}

#[test]
fn chain_has_no_cycle() {
    let graph = graph_of(&[("A1", "B1"), ("B1", "C1"), ("C1", "D1")]);
    let (found, stack, visited) = cycle_from(&graph, "A1");
    assert!(!found);
    assert!(stack.is_empty());
    assert_eq!(visited, names(&["A1", "B1", "C1", "D1"]));
}

#[test]
fn diamond_has_no_cycle() {
    let graph = graph_of(&[("A1", "B1"), ("A1", "C1"), ("B1", "D1"), ("C1", "D1")]);
    let (found, stack, visited) = cycle_from(&graph, "A1");
    assert!(!found);
    assert!(stack.is_empty());
    assert_eq!(visited, names(&["A1", "B1", "D1", "C1"]));
}

#[test]
fn cell_that_reads_itself_is_a_cycle() {
    let graph = graph_of(&[("A1", "A1")]);
    let (found, stack, _) = cycle_from(&graph, "A1");
    assert!(found);
    assert_eq!(stack, names(&["A1"]));
}

#[test]
fn cycle_of_two_is_found_from_either_cell() {
    let graph = graph_of(&[("A1", "B1"), ("B1", "A1")]);
    assert_eq!(cycle_from(&graph, "A1").0, true);
    assert_eq!(cycle_from(&graph, "A1").1, names(&["A1", "B1"]));
    assert_eq!(cycle_from(&graph, "B1").1, names(&["B1", "A1"]));
}

#[test]
fn path_to_a_cycle_is_on_the_stack() {
    let graph = graph_of(&[("A1", "X1"), ("A1", "B1"), ("B1", "C1"), ("C1", "D1"), ("D1", "C1")]);
    let (found, stack, visited) = cycle_from(&graph, "A1");
    assert!(found);
    assert_eq!(stack, names(&["A1", "B1", "C1", "D1"]));
    assert_eq!(visited, names(&["A1", "X1", "B1", "C1", "D1"]));
}

#[test]
fn long_cycle_is_found_at_full_depth() {
    let graph = graph_of(&[("A1", "B1"), ("B1", "C1"), ("C1", "D1"), ("D1", "E1"), ("E1", "A1")]);
    let (found, stack, _) = cycle_from(&graph, "C1");
    assert!(found);
    assert_eq!(stack, names(&["C1", "D1", "E1", "A1", "B1"]));
}

#[test]
fn cell_without_a_node_has_no_cycle() {
    let graph = graph_of(&[("A1", "B1")]);
    let (found, stack, visited) = cycle_from(&graph, "Q7");
    assert!(!found);
    assert!(stack.is_empty());
    assert_eq!(visited, names(&["Q7"]));
}

/// Walks the cells from the given ones on, no deeper than `depth` below them.
fn walk_from(
    cells: &mut CellStore,
    graph: &DependencyGraph,
    addresses: &[&str],
    marked: &[&str],
    depth: usize,
) -> Vec<Write> {
    let frame = Frame { addresses: names(addresses), next: 0, depth };
    let mut walk =
        Propagation { frames: vec![frame], marked: names(marked), journal: Vec::new(), below: 0 };
    while let Some(evaluation) = dfs_update_dependencies(&mut walk, cells, graph) {
        let value = evaluate(&evaluation);
        record_recomputed(&mut walk, cells, graph, &evaluation.address, value);
    }
    walk.journal
}

#[test]
fn marking_writes_the_circular_fault_to_each_cell() {
    let mut cells = CellStore::new();
    cells.set("A1".to_string(), Value::Int(1));
    let mut journal = Vec::new();
    mark_cycle(&mut cells, &names(&["A1", "B1"]), &mut journal);
    assert_eq!(cells.get("A1"), Fault::Circular.value());
    assert_eq!(cells.get("B1"), Fault::Circular.value());
    assert_eq!(journal, vec![Write::Marked("A1".to_string()), Write::Marked("B1".to_string())]);
}

fn chain() -> (CellStore, DependencyGraph) {
    let mut cells = CellStore::new();
    let mut graph = DependencyGraph::new();
    graph.update("A1", "1".to_string(), &names(&[]));
    graph.update("B1", "A1 + 1".to_string(), &names(&["A1"]));
    graph.update("C1", "B1 + 1".to_string(), &names(&["B1"]));
    graph.update("D1", "C1 + B1".to_string(), &names(&["C1", "B1"]));
    cells.set("A1".to_string(), Value::Int(10));
    (cells, graph)
}

#[test]
fn update_starts_the_walk_at_the_dependents_of_the_cell() {
    let (mut cells, mut graph) = chain();
    let walk = handle_dependency_update(&mut cells, &mut graph, &update("B1", "A1 + 2", &["A1"]));
    assert!(walk.marked.is_empty());
    assert!(walk.journal.is_empty());
    assert_eq!(walk.frames.len(), 1);
    assert_eq!(walk.frames[0].addresses, names(&["C1", "D1"]));
    assert_eq!((walk.frames[0].next, walk.frames[0].depth), (0, 4));
    assert_eq!(graph.nodes[graph.find("B1").unwrap()].formula, "A1 + 2");
}

#[test]
fn step_hands_out_the_formula_with_its_arguments() {
    let (mut cells, graph) = chain();
    let frame = Frame { addresses: names(&["B1"]), next: 0, depth: 5 };
    let mut walk =
        Propagation { frames: vec![frame], marked: Vec::new(), journal: Vec::new(), below: 0 };
    let job = dfs_update_dependencies(&mut walk, &mut cells, &graph).unwrap();
    assert_eq!(
        job,
        Evaluation {
            address: "B1".to_string(),
            formula: "A1 + 1".to_string(),
            variables: names(&["A1"]),
            arguments: vec![Argument::Value(Value::Int(10))],
            upstream: names(&["A1"]),
        }
    );
    assert_eq!(walk.below, 4);
    assert!(walk.journal.is_empty());
    assert_eq!(cells.get("B1"), Value::Empty);
    record_recomputed(&mut walk, &mut cells, &graph, "B1", Value::Int(77));
    assert_eq!(cells.get("B1"), Value::Int(77));
    assert_eq!(walk.journal, vec![Write::Evaluated("B1".to_string(), Value::Int(77))]);
    assert_eq!(walk.frames.len(), 2);
    assert_eq!(walk.frames[1].addresses, names(&["C1", "D1"]));
    assert_eq!((walk.frames[1].next, walk.frames[1].depth), (0, 4));
    let job = dfs_update_dependencies(&mut walk, &mut cells, &graph).unwrap();
    assert_eq!(job.address, "C1");
    assert_eq!(job.arguments, vec![Argument::Value(Value::Int(77))]);
}

#[test]
fn recomputation_goes_depth_first_in_the_order_of_the_dependents() {
    let (mut cells, graph) = chain();
    let journal = walk_from(&mut cells, &graph, &["B1"], &[], 10);
    // D1 is reached through C1 before it is reached from B1: it is first
    // computed from the new C1 and the new B1, and then again.
    assert_eq!(
        journal,
        vec![
            Write::Evaluated("B1".to_string(), Value::Int(11)),
            Write::Evaluated("C1".to_string(), Value::Int(12)),
            Write::Evaluated("D1".to_string(), Value::Int(23)),
            Write::Evaluated("D1".to_string(), Value::Int(23)),
        ]
    );
    assert_eq!(cells.get("D1"), Value::Int(23));
}

#[test]
fn recomputation_goes_no_deeper_than_allowed() {
    let (mut cells, graph) = chain();
    assert_eq!(walk_from(&mut cells, &graph, &["B1"], &[], 0), vec![]);
    assert_eq!(
        walk_from(&mut cells, &graph, &["B1"], &[], 1),
        vec![Write::Evaluated("B1".to_string(), Value::Int(11))]
    );
    assert_eq!(
        walk_from(&mut cells, &graph, &["B1"], &[], 2),
        vec![
            Write::Evaluated("B1".to_string(), Value::Int(11)),
            Write::Evaluated("C1".to_string(), Value::Int(12)),
            Write::Evaluated("D1".to_string(), Value::Int(23)),
        ]
    );
}

#[test]
fn recomputation_stops_at_a_fault_and_leaves_marked_cells() {
    let (mut cells, graph) = chain();
    cells.set("A1".to_string(), Fault::Circular.value());
    cells.set("C1".to_string(), Value::Int(5));
    assert_eq!(
        walk_from(&mut cells, &graph, &["B1"], &[], 10),
        vec![Write::Faulted("B1".to_string(), Fault::Dependency)]
    );
    assert_eq!(cells.get("C1"), Value::Int(5));
    assert_eq!(walk_from(&mut cells, &graph, &["B1"], &["B1"], 10), vec![]);
}

#[test]
fn branch_that_faults_does_not_stop_the_other_branches() {
    let mut cells = CellStore::new();
    let mut graph = DependencyGraph::new();
    cells.set("A1".to_string(), Value::Int(1));
    cells.set("X1".to_string(), Fault::Dependency.value());
    graph.update("B1", "A1 + X1".to_string(), &names(&["A1", "X1"]));
    graph.update("B2", "B1".to_string(), &names(&["B1"]));
    graph.update("C1", "A1 + 1".to_string(), &names(&["A1"]));
    graph.update("C2", "C1 + 1".to_string(), &names(&["C1"]));
    let journal = settle(&mut cells, &mut graph, &update("A1", "1", &[]));
    assert_eq!(
        journal,
        vec![
            Write::Faulted("B1".to_string(), Fault::Dependency),
            Write::Evaluated("C1".to_string(), Value::Int(2)),
            Write::Evaluated("C2".to_string(), Value::Int(3)),
        ]
    );
    assert_eq!(cells.get("B2"), Value::Empty);
}

#[test]
fn cell_beside_a_cycle_takes_the_dependency_fault() {
    let mut cells = CellStore::new();
    let mut graph = DependencyGraph::new();
    cells.set("A1".to_string(), Value::Int(1));
    cells.set("B1".to_string(), Value::Int(2));
    cells.set("C1".to_string(), Value::Int(3));
    settle(&mut cells, &mut graph, &update("A1", "B1", &["B1"]));
    settle(&mut cells, &mut graph, &update("C1", "B1 + 1", &["B1"]));
    let journal = settle(&mut cells, &mut graph, &update("B1", "A1", &["A1"]));
    assert_eq!(
        journal,
        vec![
            Write::Marked("B1".to_string()),
            Write::Marked("A1".to_string()),
            Write::Faulted("C1".to_string(), Fault::Dependency),
        ]
    );
    assert_eq!(cells.get("A1"), Fault::Circular.value());
    assert_eq!(cells.get("B1"), Fault::Circular.value());
    assert_eq!(cells.get("C1"), Fault::Dependency.value());
}

#[test]
fn updates_are_handled_one_after_the_other() {
    let mut cells = CellStore::new();
    let mut graph = DependencyGraph::new();
    cells.set("A1".to_string(), Value::Int(7));
    let queue = vec![
        update("B1", "A1 + 1", &["A1"]),
        update("C1", "B1 * 2", &["B1"]),
        update("A1", "7", &[]),
        update("B1", "3", &[]),
    ];
    let journals: Vec<Vec<Write>> =
        queue.iter().map(|update| settle(&mut cells, &mut graph, update)).collect();
    assert_eq!(
        journals,
        vec![
            vec![],
            vec![],
            vec![
                Write::Evaluated("B1".to_string(), Value::Int(8)),
                Write::Evaluated("C1".to_string(), Value::Int(16)),
            ],
            vec![Write::Evaluated("C1".to_string(), Value::Int(16))],
        ]
    );
    assert_eq!(
        nodes(&graph),
        vec![node("B1", "3", &["C1"]), node("A1", "7", &[]), node("C1", "B1 * 2", &[])]
    );
}

#[test]
fn formula_with_a_malformed_range_is_journalled_as_a_format_fault() {
    let mut cells = CellStore::new();
    let mut graph = DependencyGraph::new();
    graph.update("B1", "A1 + sum(A1_B4294967296)".to_string(), &names(&["A1"]));
    let journal = settle(&mut cells, &mut graph, &update("A1", "1", &[]));
    assert_eq!(
        journal,
        vec![Write::Faulted("B1".to_string(), Fault::Format("A1_B4294967296".to_string()))]
    );
    assert_eq!(
        cells.get("B1"),
        Value::Error("Invalid cell address format: A1_B4294967296".to_string())
    );
}
