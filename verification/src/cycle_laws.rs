//! What cycle detection finds: where it reports a cycle, the cells that it
//! leaves on the path form a path from the start that closes on itself.

use vstd::prelude::*;
use crate::cycle::{search, search_neighbors, Search};
use crate::graph::{dependents, has_node, lemma_position, position, well_formed, without, Graph};
use crate::graph_laws::{
    downstream, lemma_has_node, lemma_without, path,
};
use crate::resolve::with_address;


verus! {

/// The walk is in order: no cell is on the path twice, and every cell of
/// the path was entered.
pub open spec fn orderly(stack: Seq<Seq<char>>, visited: Seq<Seq<char>>) -> bool {
    &&& stack.no_duplicates()
    &&& forall|i: int| 0 <= i < stack.len() ==> visited.contains(#[trigger] stack[i])
}

/// The last cell of the path has a dependent on the path: the path closes
/// on itself.
pub open spec fn closes(g: Graph, stack: Seq<Seq<char>>) -> bool {
    &&& stack.len() > 0
    &&& exists|j: int|
        0 <= j < stack.len() && dependents(g, stack.last()).contains(#[trigger] stack[j])
}

/// The path starts with the cells of the earlier one.
pub open spec fn continues(later: Seq<Seq<char>>, earlier: Seq<Seq<char>>) -> bool {
    earlier.len() <= later.len() && forall|i: int|
        0 <= i < earlier.len() ==> #[trigger] later[i] == earlier[i]
}

/// What a walk that is in order gives.
pub open spec fn sound(
    g: Graph,
    stack: Seq<Seq<char>>,
    visited: Seq<Seq<char>>,
    s: Search,
) -> bool {
    &&& orderly(s.stack, s.visited)
    &&& forall|x: Seq<char>| visited.contains(x) ==> s.visited.contains(x)
    &&& s.found ==> path(g, s.stack) && closes(g, s.stack) && continues(s.stack, stack)
    &&& !s.found ==> s.stack == stack
}

/// A path with a dependent of its last cell added is a path.
proof fn lemma_path_grows(g: Graph, stack: Seq<Seq<char>>, address: Seq<char>)
    requires
        path(g, stack),
        stack.len() > 0 ==> dependents(g, stack.last()).contains(address),
    ensures
        path(g, stack.push(address)),
{
    let grown = stack.push(address);
    assert forall|i: int| 0 <= i < grown.len() - 1 implies dependents(g, grown[i]).contains(
        #[trigger] grown[i + 1],
    ) by {
        if i < stack.len() - 1 {
            assert(grown[i] == stack[i]);
            assert(grown[i + 1] == stack[i + 1]);
            assert(dependents(g, stack[i]).contains(stack[i + 1]));
        } else {
            assert(grown[i] == stack.last());
            assert(grown[i + 1] == address);
        }
    }
}

/// The walk from a cell that was not entered, which continues a path in
/// order, leaves the path as it was unless it finds a cycle, and then
/// leaves a path that closes on itself.
pub proof fn lemma_search(
    g: Graph,
    address: Seq<char>,
    stack: Seq<Seq<char>>,
    visited: Seq<Seq<char>>,
    depth: nat,
)
    requires
        orderly(stack, visited),
        path(g, stack),
        !visited.contains(address),
        stack.len() > 0 ==> dependents(g, stack.last()).contains(address),
    ensures
        sound(g, stack, visited, search(g, address, stack, visited, depth)),
        search(g, address, stack, visited, depth).found ==> continues(
            search(g, address, stack, visited, depth).stack,
            stack.push(address),
        ),
    decreases depth, 1nat, 0nat,
{
    if stack.contains(address) {
        let k = choose|k: int| 0 <= k < stack.len() && stack[k] == address;
        assert(visited.contains(stack[k]));
    }
    let grown = stack.push(address);
    let entered = visited.push(address);
    assert(with_address(stack, address) == grown);
    assert(with_address(visited, address) == entered);
    lemma_path_grows(g, stack, address);
    assert(entered[visited.len() as int] == address);
    assert forall|x: Seq<char>| visited.contains(x) implies entered.contains(x) by {
        let k = choose|k: int| 0 <= k < visited.len() && visited[k] == x;
        assert(entered[k] == x);
    }
    assert forall|i: int| 0 <= i < grown.len() implies entered.contains(#[trigger] grown[i]) by {
        if i < stack.len() {
            assert(grown[i] == stack[i]);
            assert(visited.contains(stack[i]));
        }
    }
    assert(grown.last() == address);
    let next = dependents(g, address);
    lemma_search_neighbors(g, next, grown, entered, depth);
    let inner = search_neighbors(g, next, grown, entered, depth);
    if inner.found {
        assert forall|i: int| 0 <= i < stack.len() implies #[trigger] inner.stack[i] == stack[i] by {
            assert(inner.stack[i] == grown[i]);
        }
    } else {
        lemma_without(stack, address);
        assert(grown.drop_last() =~= stack);
        assert(without(grown, address) == stack);
    }
}

/// The walk over dependents of the last cell of a path in order leaves the
/// path as it was unless it finds a cycle, and then leaves a path that
/// closes on itself.
pub proof fn lemma_search_neighbors(
    g: Graph,
    neighbors: Seq<Seq<char>>,
    stack: Seq<Seq<char>>,
    visited: Seq<Seq<char>>,
    depth: nat,
)
    requires
        orderly(stack, visited),
        path(g, stack),
        stack.len() > 0,
        forall|k: int|
            0 <= k < neighbors.len() ==> dependents(g, stack.last()).contains(
                #[trigger] neighbors[k],
            ),
    ensures
        sound(g, stack, visited, search_neighbors(g, neighbors, stack, visited, depth)),
    decreases depth, 0nat, neighbors.len(),
{
    if neighbors.len() > 0 {
        let next = neighbors[0];
        let rest = neighbors.drop_first();
        assert(dependents(g, stack.last()).contains(neighbors[0]));
        assert forall|k: int| 0 <= k < rest.len() implies dependents(g, stack.last()).contains(
            #[trigger] rest[k],
        ) by {
            assert(rest[k] == neighbors[k + 1]);
        }
        if !visited.contains(next) && depth > 0 {
            lemma_search(g, next, stack, visited, (depth - 1) as nat);
        }
        let inner = if !visited.contains(next) && depth > 0 {
            search(g, next, stack, visited, (depth - 1) as nat)
        } else {
            Search { found: false, stack, visited }
        };
        if inner.found {
        } else if inner.stack.contains(next) {
            let j = choose|j: int| 0 <= j < stack.len() && stack[j] == next;
            assert(dependents(g, stack.last()).contains(stack[j]));
        } else {
            lemma_search_neighbors(g, rest, stack, inner.visited, depth);
        }
    }
}

/// Every cell of a path is downstream of its first cell.
pub proof fn lemma_path_is_downstream(g: Graph, cells: Seq<Seq<char>>, i: int)
    requires
        path(g, cells),
        0 <= i < cells.len(),
    ensures
        downstream(g, cells[0], cells[i]),
{
    let head = cells.take(i + 1);
    assert forall|k: int| 0 <= k < head.len() - 1 implies dependents(g, head[k]).contains(
        #[trigger] head[k + 1],
    ) by {
        assert(head[k] == cells[k]);
        assert(head[k + 1] == cells[k + 1]);
        assert(dependents(g, cells[k]).contains(cells[k + 1]));
    }
    assert(head.len() > 0 && path(g, head) && head[0] == cells[0] && head.last() == cells[i]);
}

/// Cycle detection reports only cycles that are there. Where the walk from
/// a cell, started with nothing on the path and nothing entered, reports a
/// cycle, the cells that it leaves on the path are a path from that cell,
/// no cell twice, and the last of them has a dependent among them. Where it
/// reports none, it leaves the path empty.
pub proof fn lemma_detected_cycle(g: Graph, address: Seq<char>, depth: nat)
    ensures
        ({
            let s = search(g, address, Seq::empty(), Seq::empty(), depth);
            &&& s.found ==> {
                &&& s.stack.len() > 0
                &&& s.stack[0] == address
                &&& s.stack.no_duplicates()
                &&& path(g, s.stack)
                &&& closes(g, s.stack)
                &&& forall|i: int| 0 <= i < s.stack.len() ==> downstream(g, address, #[trigger] s.stack[i])
            }
            &&& !s.found ==> s.stack.len() == 0
        }),
{
    let nothing = Seq::<Seq<char>>::empty();
    assert(path(g, nothing));
    assert(!nothing.contains(address));
    lemma_search(g, address, nothing, nothing, depth);
    let s = search(g, address, nothing, nothing, depth);
    if s.found {
        assert(nothing.push(address)[0] == address);
        assert forall|i: int| 0 <= i < s.stack.len() implies downstream(
            g,
            address,
            #[trigger] s.stack[i],
        ) by {
            lemma_path_is_downstream(g, s.stack, i);
        }
    }
}

/// The cell is on a cycle: a path of at least one edge leads from it back
/// to it.
pub open spec fn on_cycle(g: Graph, address: Seq<char>) -> bool {
    exists|cells: Seq<Seq<char>>|
        #![trigger path(g, cells)]
        cells.len() >= 2 && path(g, cells) && cells[0] == address && cells.last() == address
}

/// The walk is done with the cell: it was entered and has left the path.
pub open spec fn finished(stack: Seq<Seq<char>>, visited: Seq<Seq<char>>, x: Seq<char>) -> bool {
    visited.contains(x) && !stack.contains(x)
}

/// The walk is done with every dependent of the cell.
pub open spec fn dependents_finished(
    g: Graph,
    stack: Seq<Seq<char>>,
    visited: Seq<Seq<char>>,
    x: Seq<char>,
) -> bool {
    forall|k: int|
        0 <= k < dependents(g, x).len() ==> finished(stack, visited, #[trigger] dependents(g, x)[k])
}

/// Every cell that the walk is done with is on no cycle, and the walk is
/// done with its dependents too.
pub open spec fn settled(g: Graph, stack: Seq<Seq<char>>, visited: Seq<Seq<char>>) -> bool {
    forall|x: Seq<char>| #[trigger]
        finished(stack, visited, x) ==> !on_cycle(g, x) && dependents_finished(g, stack, visited, x)
}

/// Every cell of the list has a node.
pub open spec fn all_nodes(g: Graph, cells: Seq<Seq<char>>) -> bool {
    forall|i: int| 0 <= i < cells.len() ==> has_node(g, #[trigger] cells[i])
}

/// A list loses at most one place when an address that it holds once at
/// most is taken from it.
proof fn lemma_without_length(list: Seq<Seq<char>>, address: Seq<char>)
    requires
        list.no_duplicates(),
    ensures
        without(list, address).len() >= list.len() - 1,
    decreases list.len(),
{
    if list.len() > 0 {
        let shorter = list.drop_last();
        lemma_without(shorter, address);
        if list.last() == address {
            assert(!shorter.contains(address)) by {
                if shorter.contains(address) {
                    let k = choose|k: int| 0 <= k < shorter.len() && shorter[k] == address;
                    assert(list[k] == list[list.len() - 1]);
                }
            }
        } else {
            lemma_without_length(shorter, address);
        }
    }
}

/// Cells that differ and have a node each are no more than there are
/// nodes.
pub proof fn lemma_no_more_than_nodes(g: Graph, cells: Seq<Seq<char>>)
    requires
        well_formed(g),
        cells.no_duplicates(),
        all_nodes(g, cells),
    ensures
        cells.len() <= g.len(),
{
    lemma_no_more_than_addresses(g, cells);
}

/// No two nodes have the same address.
pub open spec fn well_formed_addresses(g: Graph) -> bool {
    forall|i: int, j: int|
        0 <= i < j < g.len() ==> (#[trigger] g[i]).address != (#[trigger] g[j]).address
}

/// Cells that differ and have a node each are no more than there are
/// nodes, in a graph whose nodes have different addresses.
proof fn lemma_no_more_than_addresses(g: Graph, cells: Seq<Seq<char>>)
    requires
        well_formed_addresses(g),
        cells.no_duplicates(),
        all_nodes(g, cells),
    ensures
        cells.len() <= g.len(),
    decreases g.len(),
{
    if g.len() == 0 {
        if cells.len() > 0 {
            assert(has_node(g, cells[0]));
        }
    } else {
        let last = g.last().address;
        let fewer = g.drop_last();
        let others = without(cells, last);
        lemma_without(cells, last);
        lemma_without_length(cells, last);
        assert forall|i: int| 0 <= i < others.len() implies has_node(fewer, #[trigger] others[i]) by {
            let x = others[i];
            assert(others.contains(x));
            assert(cells.contains(x) && x != last);
            let k = choose|k: int| 0 <= k < cells.len() && cells[k] == x;
            assert(has_node(g, cells[k]));
            lemma_has_node(g, x);
            let j = choose|j: int| 0 <= j < g.len() && (#[trigger] g[j]).address == x;
            assert(j < g.len() - 1);
            assert(fewer[j].address == x);
            lemma_has_node(fewer, x);
        }
        assert forall|i: int, j: int| 0 <= i < j < fewer.len() implies (#[trigger] fewer[i]).address
            != (#[trigger] fewer[j]).address by {
            assert(g[i].address != g[j].address);
        }
        lemma_no_more_than_addresses(fewer, others);
    }
}

/// A path that starts at a cell that the walk is done with stays among
/// the cells that the walk is done with.
proof fn lemma_path_stays(
    g: Graph,
    stack: Seq<Seq<char>>,
    visited: Seq<Seq<char>>,
    cells: Seq<Seq<char>>,
    i: int,
)
    requires
        settled(g, stack, visited),
        path(g, cells),
        0 <= i < cells.len(),
        finished(stack, visited, cells[0]),
    ensures
        finished(stack, visited, cells[i]),
    decreases i,
{
    if i > 0 {
        lemma_path_stays(g, stack, visited, cells, i - 1);
        let from = cells[i - 1];
        assert(finished(stack, visited, from));
        assert(dependents_finished(g, stack, visited, from));
        assert(dependents(g, cells[i - 1]).contains(cells[i - 1 + 1]));
        let k = choose|k: int| 0 <= k < dependents(g, from).len() && dependents(g, from)[k] == cells[i];
        assert(finished(stack, visited, dependents(g, from)[k]));
    }
}

/// The dependents of a cell have nodes.
proof fn lemma_dependents_have_nodes(g: Graph, address: Seq<char>)
    requires
        well_formed(g),
    ensures
        all_nodes(g, dependents(g, address)),
{
    lemma_position(g, address);
    if has_node(g, address) {
        let p = position(g, address) as int;
        assert forall|k: int| 0 <= k < dependents(g, address).len() implies has_node(
            g,
            #[trigger] dependents(g, address)[k],
        ) by {
            assert(has_node(g, g[p].neighbors[k]));
        }
    }
}

/// What a list with one more cell at its end holds.
proof fn lemma_pushed_holds(list: Seq<Seq<char>>, address: Seq<char>)
    ensures
        forall|x: Seq<char>| list.push(address).contains(x) <==> list.contains(x) || x == address,
{
    let grown = list.push(address);
    assert forall|x: Seq<char>| grown.contains(x) <==> list.contains(x) || x == address by {
        if grown.contains(x) {
            let k = choose|k: int| 0 <= k < grown.len() && grown[k] == x;
            if k < list.len() {
                assert(list[k] == x);
            }
        }
        if list.contains(x) {
            let k = choose|k: int| 0 <= k < list.len() && list[k] == x;
            assert(grown[k] == x);
        }
        assert(grown[list.len() as int] == address);
    }
}

/// The walk from a cell misses no cycle: where it reports none, it is done
/// with the cell, and every cell that it is done with is on no cycle.
pub proof fn lemma_search_complete(
    g: Graph,
    address: Seq<char>,
    stack: Seq<Seq<char>>,
    visited: Seq<Seq<char>>,
    depth: nat,
)
    requires
        well_formed(g),
        has_node(g, address),
        orderly(stack, visited),
        path(g, stack),
        all_nodes(g, stack),
        !visited.contains(address),
        stack.len() > 0 ==> dependents(g, stack.last()).contains(address),
        depth + stack.len() == g.len(),
        settled(g, stack, visited),
    ensures
        ({
            let s = search(g, address, stack, visited, depth);
            !s.found ==> settled(g, stack, s.visited) && finished(stack, s.visited, address)
        }),
    decreases depth, 1nat, 0nat,
{
    let s = search(g, address, stack, visited, depth);
    lemma_search(g, address, stack, visited, depth);
    if stack.contains(address) {
        let k = choose|k: int| 0 <= k < stack.len() && stack[k] == address;
        assert(visited.contains(stack[k]));
    }
    let grown = stack.push(address);
    let entered = visited.push(address);
    assert(with_address(stack, address) == grown);
    assert(with_address(visited, address) == entered);
    lemma_pushed_holds(stack, address);
    lemma_pushed_holds(visited, address);
    lemma_path_grows(g, stack, address);
    assert forall|i: int| 0 <= i < grown.len() implies entered.contains(#[trigger] grown[i]) by {
        if i < stack.len() {
            assert(grown[i] == stack[i]);
            assert(visited.contains(stack[i]));
        }
    }
    assert forall|i: int| 0 <= i < grown.len() implies has_node(g, #[trigger] grown[i]) by {
        if i < stack.len() {
            assert(grown[i] == stack[i]);
            assert(has_node(g, stack[i]));
        }
    }
    assert(grown.last() == address);
    assert forall|x: Seq<char>| #[trigger] finished(grown, entered, x) implies !on_cycle(g, x)
        && dependents_finished(g, grown, entered, x) by {
        assert(finished(stack, visited, x));
        assert(dependents_finished(g, stack, visited, x));
        assert forall|k: int| 0 <= k < dependents(g, x).len() implies finished(
            grown,
            entered,
            #[trigger] dependents(g, x)[k],
        ) by {
            assert(finished(stack, visited, dependents(g, x)[k]));
        }
    }
    let next = dependents(g, address);
    assert(next.skip(0) =~= next);
    lemma_search_neighbors(g, next, grown, entered, depth);
    lemma_search_neighbors_complete(g, next, 0, grown, entered, depth);
    let inner = search_neighbors(g, next, grown, entered, depth);
    if !inner.found {
        let seen = inner.visited;
        lemma_without(stack, address);
        assert(grown.drop_last() =~= stack);
        assert(s.stack == stack && s.visited == seen);
        assert(entered.contains(address));
        assert(seen.contains(address));
        assert forall|x: Seq<char>| #[trigger] finished(stack, seen, x) implies !on_cycle(g, x)
            && dependents_finished(g, stack, seen, x) by {
            if x == address {
                assert forall|k: int| 0 <= k < next.len() implies finished(
                    stack,
                    seen,
                    #[trigger] next[k],
                ) by {
                    assert(finished(grown, seen, next[k]));
                }
                if on_cycle(g, address) {
                    let cells = choose|cells: Seq<Seq<char>>|
                        #![trigger path(g, cells)]
                        cells.len() >= 2 && path(g, cells) && cells[0] == address && cells.last()
                            == address;
                    let tail = cells.skip(1);
                    assert forall|i: int| 0 <= i < tail.len() - 1 implies dependents(
                        g,
                        tail[i],
                    ).contains(#[trigger] tail[i + 1]) by {
                        assert(tail[i] == cells[i + 1]);
                        assert(tail[i + 1] == cells[i + 1 + 1]);
                        assert(dependents(g, cells[i + 1]).contains(cells[i + 1 + 1]));
                    }
                    let start: int = 0;
                    assert(dependents(g, cells[start]).contains(cells[start + 1]));
                    let k = choose|k: int| 0 <= k < next.len() && next[k] == cells[1];
                    assert(finished(grown, seen, next[k]));
                    assert(tail[0] == cells[1]);
                    lemma_path_stays(g, grown, seen, tail, tail.len() - 1);
                    assert(tail[tail.len() - 1] == address);
                }
            } else {
                assert(finished(grown, seen, x));
                assert(dependents_finished(g, grown, seen, x));
                assert forall|k: int| 0 <= k < dependents(g, x).len() implies finished(
                    stack,
                    seen,
                    #[trigger] dependents(g, x)[k],
                ) by {
                    assert(finished(grown, seen, dependents(g, x)[k]));
                }
            }
        }
    }
}

/// The walk over the dependents of the last cell of the path misses no
/// cycle: where it reports none, it is done with all of them, and every
/// cell that it is done with is on no cycle.
pub proof fn lemma_search_neighbors_complete(
    g: Graph,
    all: Seq<Seq<char>>,
    k: int,
    stack: Seq<Seq<char>>,
    visited: Seq<Seq<char>>,
    depth: nat,
)
    requires
        well_formed(g),
        stack.len() > 0,
        all == dependents(g, stack.last()),
        0 <= k <= all.len(),
        orderly(stack, visited),
        path(g, stack),
        all_nodes(g, stack),
        depth + stack.len() == g.len() + 1,
        settled(g, stack, visited),
        forall|j: int| 0 <= j < k ==> finished(stack, visited, #[trigger] all[j]),
    ensures
        ({
            let s = search_neighbors(g, all.skip(k), stack, visited, depth);
            !s.found ==> settled(g, stack, s.visited) && forall|j: int|
                0 <= j < all.len() ==> finished(stack, s.visited, #[trigger] all[j])
        }),
    decreases depth, 0nat, all.len() - k,
{
    let here = all.skip(k);
    if k < all.len() {
        let next = all[k];
        assert(here[0] == next);
        assert(here.drop_first() =~= all.skip(k + 1));
        lemma_dependents_have_nodes(g, stack.last());
        assert(has_node(g, all[k]));
        assert(dependents(g, stack.last()).contains(all[k]));
        if !visited.contains(next) {
            if stack.contains(next) {
                let i = choose|i: int| 0 <= i < stack.len() && stack[i] == next;
                assert(visited.contains(stack[i]));
            }
            let longer = stack.push(next);
            assert forall|i: int| 0 <= i < longer.len() implies has_node(g, #[trigger] longer[i]) by {
                if i < stack.len() {
                    assert(longer[i] == stack[i]);
                    assert(has_node(g, stack[i]));
                }
            }
            lemma_no_more_than_nodes(g, longer);
            assert(depth > 0);
            lemma_search(g, next, stack, visited, (depth - 1) as nat);
            lemma_search_complete(g, next, stack, visited, (depth - 1) as nat);
            let inner = search(g, next, stack, visited, (depth - 1) as nat);
            if !inner.found {
                assert(inner.stack == stack);
                assert forall|j: int| 0 <= j < k + 1 implies finished(
                    stack,
                    inner.visited,
                    #[trigger] all[j],
                ) by {
                    if j < k {
                        assert(finished(stack, visited, all[j]));
                    }
                }
                lemma_search_neighbors_complete(g, all, k + 1, stack, inner.visited, depth);
            }
        } else if !stack.contains(next) {
            assert forall|j: int| 0 <= j < k + 1 implies finished(stack, visited, #[trigger] all[j]) by {
                if j < k {
                    assert(finished(stack, visited, all[j]));
                }
            }
            lemma_search_neighbors_complete(g, all, k + 1, stack, visited, depth);
        }
    }
}

/// A cell downstream of the given one is on a cycle.
pub open spec fn cycle_downstream(g: Graph, address: Seq<char>) -> bool {
    exists|x: Seq<char>| downstream(g, address, x) && #[trigger] on_cycle(g, x)
}

/// A path that closes on itself holds a cell that is on a cycle.
proof fn lemma_closed_path_is_cycle(g: Graph, stack: Seq<Seq<char>>)
    requires
        path(g, stack),
        closes(g, stack),
    ensures
        exists|j: int| 0 <= j < stack.len() && on_cycle(g, #[trigger] stack[j]),
{
    let j = choose|j: int|
        0 <= j < stack.len() && dependents(g, stack.last()).contains(#[trigger] stack[j]);
    let target = stack[j];
    let cells = stack.skip(j).push(target);
    assert forall|i: int| 0 <= i < cells.len() - 1 implies dependents(g, cells[i]).contains(
        #[trigger] cells[i + 1],
    ) by {
        assert(cells[i] == stack[j + i]);
        if i < cells.len() - 2 {
            assert(cells[i + 1] == stack[j + i + 1]);
            assert(dependents(g, stack[j + i]).contains(stack[j + i + 1]));
        } else {
            assert(cells[i] == stack.last());
            assert(cells[i + 1] == target);
        }
    }
    assert(cells.len() >= 2 && path(g, cells) && cells[0] == target && cells.last() == target);
    assert(on_cycle(g, stack[j]));
}

/// Cycle detection is exact. In a well-formed graph the walk from a cell,
/// started with nothing on the path and nothing entered and allowed to go
/// as deep as the graph has nodes, reports a cycle exactly when some cell
/// downstream of the cell is on a cycle.
pub proof fn lemma_detection_is_exact(g: Graph, address: Seq<char>)
    requires
        well_formed(g),
    ensures
        search(g, address, Seq::empty(), Seq::empty(), g.len()).found <==> cycle_downstream(
            g,
            address,
        ),
{
    let nothing = Seq::<Seq<char>>::empty();
    let s = search(g, address, nothing, nothing, g.len());
    lemma_detected_cycle(g, address, g.len());
    if s.found {
        lemma_closed_path_is_cycle(g, s.stack);
        let j = choose|j: int| 0 <= j < s.stack.len() && on_cycle(g, #[trigger] s.stack[j]);
        assert(downstream(g, address, s.stack[j]));
        assert(cycle_downstream(g, address));
    } else {
        assert(path(g, nothing));
        assert(!nothing.contains(address));
        if has_node(g, address) {
            assert forall|x: Seq<char>| #[trigger] finished(nothing, nothing, x) implies !on_cycle(
                g,
                x,
            ) && dependents_finished(g, nothing, nothing, x) by {
                assert(!nothing.contains(x));
            }
            lemma_search_complete(g, address, nothing, nothing, g.len());
        }
        assert forall|x: Seq<char>| downstream(g, address, x) implies !(#[trigger] on_cycle(g, x)) by {
            let cells = choose|cells: Seq<Seq<char>>|
                #![trigger path(g, cells)]
                cells.len() > 0 && path(g, cells) && cells[0] == address && cells.last() == x;
            if has_node(g, address) {
                lemma_path_stays(g, nothing, s.visited, cells, cells.len() - 1);
            } else {
                assert(dependents(g, address) =~= nothing);
                let start: int = 0;
                if cells.len() >= 2 {
                    assert(dependents(g, cells[start]).contains(cells[start + 1]));
                }
                if on_cycle(g, x) {
                    let round = choose|round: Seq<Seq<char>>|
                        #![trigger path(g, round)]
                        round.len() >= 2 && path(g, round) && round[0] == x && round.last() == x;
                    assert(dependents(g, round[start]).contains(round[start + 1]));
                }
            }
        }
    }
}

} // verus!
