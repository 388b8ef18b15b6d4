//! Cycle detection: a depth-first walk over the edges from a cell to its
//! dependents, which keeps the cells of the path that it is on.

use vstd::prelude::*;
use crate::graph::{dependents, remove_address, without, DependencyGraph, Graph};
use crate::resolve::{add_address, holds_address, with_address};
use crate::text::texts_view;

verus! {

/// How a walk ended.
pub struct Search {
    /// A cell of the path was reached again: there is a cycle.
    pub found: bool,
    /// The cells of the path, the start first. Where a cycle was found, the
    /// path is the one on which it was found.
    pub stack: Seq<Seq<char>>,
    /// The cells that the walk has entered.
    pub visited: Seq<Seq<char>>,
}

/// The walk from one cell. A cell that was entered before is not entered
/// again. Otherwise the cell is entered and joins the path, and its
/// dependents are walked in their order; if none of them leads to a cycle,
/// the cell leaves the path.
pub open spec fn search(
    g: Graph,
    address: Seq<char>,
    stack: Seq<Seq<char>>,
    visited: Seq<Seq<char>>,
    depth: nat,
) -> Search
    decreases depth, 1nat, 0nat,
{
    if visited.contains(address) {
        Search { found: false, stack: without(stack, address), visited }
    } else {
        let inner = search_neighbors(
            g,
            dependents(g, address),
            with_address(stack, address),
            with_address(visited, address),
            depth,
        );
        if inner.found {
            inner
        } else {
            Search { found: false, stack: without(inner.stack, address), visited: inner.visited }
        }
    }
}

/// The walk over the dependents of a cell, in their order. A dependent that
/// was not entered before is walked from, as long as the walk may go
/// deeper; then a dependent that is on the path closes a cycle.
pub open spec fn search_neighbors(
    g: Graph,
    neighbors: Seq<Seq<char>>,
    stack: Seq<Seq<char>>,
    visited: Seq<Seq<char>>,
    depth: nat,
) -> Search
    decreases depth, 0nat, neighbors.len(),
{
    if neighbors.len() == 0 {
        Search { found: false, stack, visited }
    } else {
        let next = neighbors[0];
        let inner = if !visited.contains(next) && depth > 0 {
            search(g, next, stack, visited, (depth - 1) as nat)
        } else {
            Search { found: false, stack, visited }
        };
        if inner.found {
            inner
        } else if inner.stack.contains(next) {
            Search { found: true, stack: inner.stack, visited: inner.visited }
        } else {
            search_neighbors(g, neighbors.drop_first(), inner.stack, inner.visited, depth)
        }
    }
}

/// The walk from one cell, no deeper than `depth` cells below it.
fn visit(
    graph: &DependencyGraph,
    address: &str,
    rec_stack: &mut Vec<String>,
    visited: &mut Vec<String>,
    depth: usize,
) -> (found: bool)
    ensures
        ({
            let s = search(
                graph@,
                address@,
                texts_view(old(rec_stack)@),
                texts_view(old(visited)@),
                depth as nat,
            );
            &&& found == s.found
            &&& texts_view(final(rec_stack)@) == s.stack
            &&& texts_view(final(visited)@) == s.visited
        }),
    decreases depth,
{
    if !holds_address(visited, address) {
        add_address(visited, address.to_string());
        add_address(rec_stack, address.to_string());
        match graph.find(address) {
            Some(p) => {
                let node = &graph.nodes[p];
                let ghost all = dependents(graph@, address@);
                let ghost stack_before = texts_view(rec_stack@);
                let ghost visited_before = texts_view(visited@);
                assert(all == texts_view(node.neighbors@));
                assert(all.skip(0) =~= all);
                let mut k: usize = 0;
                while k < node.neighbors.len()
                    invariant
                        k <= node.neighbors.len(),
                        all == texts_view(node.neighbors@),
                        all == dependents(graph@, address@),
                        !texts_view(old(visited)@).contains(address@),
                        stack_before == with_address(texts_view(old(rec_stack)@), address@),
                        visited_before == with_address(texts_view(old(visited)@), address@),
                        search_neighbors(
                            graph@,
                            all.skip(k as int),
                            texts_view(rec_stack@),
                            texts_view(visited@),
                            depth as nat,
                        ) == search_neighbors(
                            graph@,
                            all,
                            stack_before,
                            visited_before,
                            depth as nat,
                        ),
                    decreases node.neighbors.len() - k,
                {
                    let next = node.neighbors[k].as_str();
                    proof {
                        assert(all.skip(k as int)[0] == next@);
                        assert(all.skip(k as int).drop_first() == all.skip(k + 1));
                    }
                    if !holds_address(visited, next) && depth > 0 {
                        if visit(graph, next, rec_stack, visited, depth - 1) {
                            return true;
                        }
                    }
                    if holds_address(rec_stack, next) {
                        return true;
                    }
                    k += 1;
                }
                assert(all.skip(k as int) =~= Seq::<Seq<char>>::empty());
            },
            None => {},
        }
    }
    let kept = remove_address(rec_stack, address);
    *rec_stack = kept;
    false
}

/// Walks the graph from the cell at `address` along the edges to
/// dependents, depth first, and tells whether the walk came back to a cell
/// of the path that it was on. `rec_stack` holds the path and `visited` the
/// cells entered; both are normally empty at the start. Where a cycle is
/// found, `rec_stack` is left holding the path on which it was found.
pub fn detect_cycle(
    graph: &DependencyGraph,
    address: &str,
    rec_stack: &mut Vec<String>,
    visited: &mut Vec<String>,
) -> (found: bool)
    ensures
        ({
            let s = search(
                graph@,
                address@,
                texts_view(old(rec_stack)@),
                texts_view(old(visited)@),
                graph@.len(),
            );
            &&& found == s.found
            &&& texts_view(final(rec_stack)@) == s.stack
            &&& texts_view(final(visited)@) == s.visited
        }),
{
    visit(graph, address, rec_stack, visited, graph.nodes.len())
}

} // verus!
