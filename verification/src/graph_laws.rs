//! What the operations on the dependency graph mean for the questions that
//! are asked of a graph: which cells have a node, what a cell's formula is,
//! and which cells depend on it.

use vstd::prelude::*;
use crate::graph::{
    dependents, formula_of, has_node, lemma_position, lemma_position_is, position, pruned,
    updated, well_formed, with_edge, with_edges, with_formula, without, Graph, NodeView,
};
use crate::resolve::with_address;

verus! {

/// An address has a node exactly when some node carries it.
pub proof fn lemma_has_node(g: Graph, address: Seq<char>)
    ensures
        has_node(g, address) <==> exists|i: int|
            0 <= i < g.len() && (#[trigger] g[i]).address == address,
{
    lemma_position(g, address);
    if has_node(g, address) {
        assert(g[position(g, address) as int].address == address);
    }
    if exists|i: int| 0 <= i < g.len() && (#[trigger] g[i]).address == address {
        let i = choose|i: int| 0 <= i < g.len() && (#[trigger] g[i]).address == address;
        if position(g, address) > i {
            assert(g[i].address != address);
        }
    }
}

/// The list with an address added holds what it held, and the address.
pub proof fn lemma_with_address(list: Seq<Seq<char>>, address: Seq<char>)
    ensures
        forall|x: Seq<char>|
            with_address(list, address).contains(x) <==> list.contains(x) || x == address,
        list.no_duplicates() ==> with_address(list, address).no_duplicates(),
{
    let grown = with_address(list, address);
    assert forall|x: Seq<char>| grown.contains(x) <==> list.contains(x) || x == address by {
        if !list.contains(address) {
            if grown.contains(x) {
                let k = choose|k: int| 0 <= k < grown.len() && grown[k] == x;
                if k < list.len() {
                    assert(list[k] == x);
                }
            }
            if list.contains(x) {
                let k = choose|k: int| 0 <= k < list.len() && list[k] == x;
                assert(grown[k] == x);
            }
            assert(grown[list.len() as int] == address);
        }
    }
}

/// The list without an address holds what it held but the address, and
/// nothing twice that it did not hold twice.
pub proof fn lemma_without(list: Seq<Seq<char>>, address: Seq<char>)
    ensures
        forall|x: Seq<char>| without(list, address).contains(x) <==> list.contains(x) && x != address,
        list.no_duplicates() ==> without(list, address).no_duplicates(),
        !list.contains(address) ==> without(list, address) == list,
    decreases list.len(),
{
    if list.len() > 0 {
        let shorter = list.drop_last();
        let last = list.last();
        lemma_without(shorter, address);
        let kept = without(shorter, address);
        let result = without(list, address);
        assert forall|x: Seq<char>| result.contains(x) <==> list.contains(x) && x != address by {
            if list.contains(x) {
                let k = choose|k: int| 0 <= k < list.len() && list[k] == x;
                if k < shorter.len() {
                    assert(shorter[k] == x);
                }
            }
            if shorter.contains(x) {
                let k = choose|k: int| 0 <= k < shorter.len() && shorter[k] == x;
                assert(list[k] == x);
            }
            assert(list[list.len() - 1] == last);
            if last != address {
                assert(result == kept.push(last));
                assert(result[kept.len() as int] == last);
                if kept.contains(x) {
                    let k = choose|k: int| 0 <= k < kept.len() && kept[k] == x;
                    assert(result[k] == x);
                }
                if result.contains(x) {
                    let k = choose|k: int| 0 <= k < result.len() && result[k] == x;
                    if k < kept.len() {
                        assert(kept[k] == x);
                    }
                }
            }
        }
        if list.no_duplicates() {
            assert(shorter.no_duplicates());
            if last != address {
                assert(!shorter.contains(last)) by {
                    if shorter.contains(last) {
                        let k = choose|k: int| 0 <= k < shorter.len() && shorter[k] == last;
                        assert(list[k] == list[list.len() - 1]);
                    }
                }
                assert(!kept.contains(last));
            }
        }
        if !list.contains(address) {
            assert(!shorter.contains(address)) by {
                if shorter.contains(address) {
                    let k = choose|k: int| 0 <= k < shorter.len() && shorter[k] == address;
                    assert(list[k] == address);
                }
            }
            assert(list[list.len() - 1] == last);
            assert(result =~= list);
        }
    }
}

/// Two graphs whose nodes carry the same addresses in the same places keep
/// the node of every address in the same place.
pub proof fn lemma_same_addresses(g: Graph, h: Graph, address: Seq<char>)
    requires
        g.len() == h.len(),
        forall|i: int| 0 <= i < g.len() ==> (#[trigger] g[i]).address == (#[trigger] h[i]).address,
    ensures
        position(h, address) == position(g, address),
{
    lemma_position(g, address);
    let k = position(g, address) as int;
    assert forall|i: int| 0 <= i < k implies (#[trigger] h[i]).address != address by {
        assert(g[i].address != address);
    }
    lemma_position_is(h, address, k);
}

/// Where the node of an address stands in a graph with one node more.
pub proof fn lemma_pushed(g: Graph, node: NodeView, address: Seq<char>)
    ensures
        position(g.push(node), address) == if has_node(g, address) {
            position(g, address)
        } else if node.address == address {
            g.len()
        } else {
            g.len() + 1
        },
{
    lemma_position(g, address);
    let h = g.push(node);
    let k = position(g, address) as int;
    assert forall|i: int| 0 <= i < k implies (#[trigger] h[i]).address != address by {
        assert(g[i].address != address);
    }
    if has_node(g, address) {
        assert(h[k] == g[k]);
        lemma_position_is(h, address, k);
    } else if node.address == address {
        lemma_position_is(h, address, k);
    } else {
        assert forall|i: int| 0 <= i < k + 1 implies (#[trigger] h[i]).address != address by {
            if i < k {
                assert(g[i].address != address);
            }
        }
        lemma_position_is(h, address, k + 1);
    }
}

/// Giving a cell its formula changes that cell's formula and nothing else:
/// the cell has a node afterwards, every other cell has a node as before,
/// and every cell has the dependents that it had.
pub proof fn lemma_with_formula(g: Graph, address: Seq<char>, formula: Seq<char>)
    requires
        well_formed(g),
    ensures
        well_formed(with_formula(g, address, formula)),
        forall|x: Seq<char>|
            has_node(with_formula(g, address, formula), x) <==> has_node(g, x) || x == address,
        forall|x: Seq<char>|
            dependents(with_formula(g, address, formula), x) == dependents(g, x),
        forall|x: Seq<char>|
            formula_of(with_formula(g, address, formula), x) == if x == address {
                formula
            } else {
                formula_of(g, x)
            },
{
    let h = with_formula(g, address, formula);
    lemma_position(g, address);
    assert forall|x: Seq<char>|
        (has_node(h, x) <==> has_node(g, x) || x == address) && dependents(h, x) == dependents(
            g,
            x,
        ) && formula_of(h, x) == if x == address {
            formula
        } else {
            formula_of(g, x)
        } by {
        lemma_position(g, x);
        if has_node(g, address) {
            lemma_same_addresses(g, h, x);
        } else {
            lemma_pushed(g, NodeView { address, formula, neighbors: Seq::empty() }, x);
        }
    }
    lemma_has_node(g, address);
    assert forall|i: int, k: int|
        0 <= i < h.len() && 0 <= k < h[i].neighbors.len() implies has_node(
        h,
        #[trigger] h[i].neighbors[k],
    ) by {
        assert(h[i].neighbors == g[i].neighbors);
        assert(has_node(g, g[i].neighbors[k]));
    }
}

/// Adding an edge makes the one cell a dependent of the other and changes
/// nothing else.
pub proof fn lemma_with_edge(g: Graph, address: Seq<char>, dependent: Seq<char>)
    requires
        well_formed(g),
        has_node(g, dependent) || dependent == address,
    ensures
        well_formed(with_edge(g, address, dependent)),
        forall|x: Seq<char>|
            has_node(with_edge(g, address, dependent), x) <==> has_node(g, x) || x == address,
        forall|x: Seq<char>|
            dependents(with_edge(g, address, dependent), x) == if x == address {
                with_address(dependents(g, address), dependent)
            } else {
                dependents(g, x)
            },
        forall|x: Seq<char>| formula_of(with_edge(g, address, dependent), x) == formula_of(g, x),
{
    let h = with_edge(g, address, dependent);
    lemma_position(g, address);
    assert forall|x: Seq<char>|
        (has_node(h, x) <==> has_node(g, x) || x == address) && dependents(h, x) == (if x
            == address {
            with_address(dependents(g, address), dependent)
        } else {
            dependents(g, x)
        }) && formula_of(h, x) == formula_of(g, x) by {
        lemma_position(g, x);
        if has_node(g, address) {
            lemma_same_addresses(g, h, x);
        } else {
            lemma_pushed(
                g,
                NodeView { address, formula: Seq::empty(), neighbors: seq![dependent] },
                x,
            );
            assert(with_address(Seq::<Seq<char>>::empty(), dependent) =~= seq![dependent]);
        }
    }
    lemma_has_node(g, address);
    if has_node(g, address) {
        let p = position(g, address) as int;
        lemma_with_address(g[p].neighbors, dependent);
    }
    assert forall|i: int, k: int|
        0 <= i < h.len() && 0 <= k < h[i].neighbors.len() implies has_node(
        h,
        #[trigger] h[i].neighbors[k],
    ) by {
        let n = h[i].neighbors[k];
        if i < g.len() && h[i].neighbors == g[i].neighbors {
            assert(has_node(g, g[i].neighbors[k]));
        } else if i < g.len() {
            assert(h[i].neighbors.contains(n));
            if g[i].neighbors.contains(n) {
                let j = choose|j: int| 0 <= j < g[i].neighbors.len() && g[i].neighbors[j] == n;
                assert(has_node(g, g[i].neighbors[j]));
            }
        }
    }
}

/// Adding edges from several cells makes each of them a node, makes
/// `dependent` a dependent of each, and changes nothing else.
pub proof fn lemma_with_edges(g: Graph, addresses: Seq<Seq<char>>, dependent: Seq<char>)
    requires
        well_formed(g),
        has_node(g, dependent),
    ensures
        well_formed(with_edges(g, addresses, dependent)),
        forall|x: Seq<char>|
            has_node(with_edges(g, addresses, dependent), x) <==> has_node(g, x)
                || addresses.contains(x),
        forall|x: Seq<char>, y: Seq<char>|
            dependents(with_edges(g, addresses, dependent), x).contains(y) <==> dependents(
                g,
                x,
            ).contains(y) || (y == dependent && addresses.contains(x)),
        forall|x: Seq<char>|
            !addresses.contains(x) ==> dependents(with_edges(g, addresses, dependent), x)
                == dependents(g, x),
        forall|x: Seq<char>| formula_of(with_edges(g, addresses, dependent), x) == formula_of(g, x),
    decreases addresses.len(),
{
    if addresses.len() > 0 {
        let first = addresses[0];
        let rest = addresses.drop_first();
        let g1 = with_edge(g, first, dependent);
        let h = with_edges(g, addresses, dependent);
        lemma_with_edge(g, first, dependent);
        lemma_with_edges(g1, rest, dependent);
        lemma_with_address(dependents(g, first), dependent);
        assert forall|x: Seq<char>| addresses.contains(x) <==> x == first || rest.contains(x) by {
            if addresses.contains(x) {
                let k = choose|k: int| 0 <= k < addresses.len() && addresses[k] == x;
                if k > 0 {
                    assert(rest[k - 1] == x);
                }
            }
            if rest.contains(x) {
                let k = choose|k: int| 0 <= k < rest.len() && rest[k] == x;
                assert(addresses[k + 1] == x);
            }
            assert(addresses[0] == first);
        }
        assert forall|x: Seq<char>| has_node(h, x) <==> has_node(g, x) || addresses.contains(x) by {
            assert(has_node(h, x) <==> has_node(g1, x) || rest.contains(x));
        }
        assert forall|x: Seq<char>, y: Seq<char>|
            dependents(h, x).contains(y) <==> dependents(g, x).contains(y) || (y == dependent
                && addresses.contains(x)) by {
            assert(dependents(h, x).contains(y) <==> dependents(g1, x).contains(y) || (y
                == dependent && rest.contains(x)));
        }
        assert forall|x: Seq<char>| !addresses.contains(x) implies dependents(h, x) == dependents(
            g,
            x,
        ) by {
            assert(dependents(h, x) == dependents(g1, x));
        }
        assert forall|x: Seq<char>| formula_of(h, x) == formula_of(g, x) by {
            assert(formula_of(h, x) == formula_of(g1, x));
        }
    }
}

/// Pruning takes `dependent` from the dependents of every cell that is not
/// upstream of it and changes nothing else.
pub proof fn lemma_pruned(g: Graph, dependent: Seq<char>, upstream: Seq<Seq<char>>)
    requires
        well_formed(g),
    ensures
        well_formed(pruned(g, dependent, upstream)),
        forall|x: Seq<char>| has_node(pruned(g, dependent, upstream), x) <==> has_node(g, x),
        forall|x: Seq<char>|
            dependents(pruned(g, dependent, upstream), x) == if upstream.contains(x) {
                dependents(g, x)
            } else {
                without(dependents(g, x), dependent)
            },
        forall|x: Seq<char>| formula_of(pruned(g, dependent, upstream), x) == formula_of(g, x),
{
    let h = pruned(g, dependent, upstream);
    assert forall|x: Seq<char>|
        (has_node(h, x) <==> has_node(g, x)) && dependents(h, x) == (if upstream.contains(x) {
            dependents(g, x)
        } else {
            without(dependents(g, x), dependent)
        }) && formula_of(h, x) == formula_of(g, x) by {
        lemma_position(g, x);
        lemma_same_addresses(g, h, x);
    }
    assert forall|i: int| 0 <= i < h.len() implies (#[trigger] h[i]).neighbors.no_duplicates() by {
        lemma_without(g[i].neighbors, dependent);
        assert(g[i].neighbors.no_duplicates());
    }
    assert forall|i: int, k: int|
        0 <= i < h.len() && 0 <= k < h[i].neighbors.len() implies has_node(
        h,
        #[trigger] h[i].neighbors[k],
    ) by {
        let n = h[i].neighbors[k];
        lemma_without(g[i].neighbors, dependent);
        assert(h[i].neighbors.contains(n));
        assert(g[i].neighbors.contains(n));
        let j = choose|j: int| 0 <= j < g[i].neighbors.len() && g[i].neighbors[j] == n;
        assert(has_node(g, g[i].neighbors[j]));
    }
    assert forall|i: int, j: int| 0 <= i < j < h.len() implies (#[trigger] h[i]).address != (
    #[trigger] h[j]).address by {
        assert(g[i].address != g[j].address);
    }
}

/// What an update of the graph means. After the cell at `address` was given
/// a formula that reads the cells `upstream`:
/// the graph is well formed; the cell and every upstream cell have a node,
/// and so has every cell that had one; the cell has the new formula and
/// every other cell the formula that it had; the cell is a dependent of
/// exactly the upstream cells, so that an edge left from an earlier formula
/// is gone; and every other cell is a dependent of the cells that it was a
/// dependent of.
pub proof fn lemma_updated(
    g: Graph,
    address: Seq<char>,
    formula: Seq<char>,
    upstream: Seq<Seq<char>>,
)
    requires
        well_formed(g),
    ensures
        well_formed(updated(g, address, formula, upstream)),
        forall|x: Seq<char>|
            has_node(updated(g, address, formula, upstream), x) <==> has_node(g, x) || x == address
                || upstream.contains(x),
        forall|x: Seq<char>|
            formula_of(updated(g, address, formula, upstream), x) == if x == address {
                formula
            } else {
                formula_of(g, x)
            },
        forall|x: Seq<char>, y: Seq<char>|
            dependents(updated(g, address, formula, upstream), x).contains(y) <==> if y
                == address {
                upstream.contains(x)
            } else {
                dependents(g, x).contains(y)
            },
{
    let g1 = with_formula(g, address, formula);
    let g2 = with_edges(g1, upstream, address);
    let h = updated(g, address, formula, upstream);
    lemma_with_formula(g, address, formula);
    lemma_with_edges(g1, upstream, address);
    lemma_pruned(g2, address, upstream);
    assert forall|x: Seq<char>, y: Seq<char>|
        dependents(h, x).contains(y) <==> if y == address {
            upstream.contains(x)
        } else {
            dependents(g, x).contains(y)
        } by {
        lemma_without(dependents(g2, x), address);
        assert(dependents(g2, x).contains(y) <==> dependents(g1, x).contains(y) || (y == address
            && upstream.contains(x)));
        assert(dependents(g1, x) == dependents(g, x));
    }
    assert forall|x: Seq<char>|
        has_node(h, x) <==> has_node(g, x) || x == address || upstream.contains(x) by {
        assert(has_node(h, x) <==> has_node(g2, x));
        assert(has_node(g2, x) <==> has_node(g1, x) || upstream.contains(x));
    }
    assert forall|x: Seq<char>|
        formula_of(h, x) == if x == address {
            formula
        } else {
            formula_of(g, x)
        } by {
        assert(formula_of(h, x) == formula_of(g2, x));
        assert(formula_of(g2, x) == formula_of(g1, x));
    }
}

/// The edges of the graph mirror what the formulas read: a cell is a
/// dependent of another exactly when the formula that it was given last
/// reads that other. `reads` holds, for every cell that was given a
/// formula, the cells that the formula reads.
pub open spec fn mirrors(g: Graph, reads: Map<Seq<char>, Set<Seq<char>>>) -> bool {
    forall|x: Seq<char>, y: Seq<char>|
        #[trigger] dependents(g, x).contains(y) <==> reads.contains_key(y) && reads[y].contains(x)
}

/// An update keeps the edges of the graph the mirror of what the formulas
/// read: the edges of the cell that was set follow its new formula, and no
/// other edge changes.
pub proof fn lemma_update_mirrors(
    g: Graph,
    reads: Map<Seq<char>, Set<Seq<char>>>,
    address: Seq<char>,
    formula: Seq<char>,
    upstream: Seq<Seq<char>>,
)
    requires
        well_formed(g),
        mirrors(g, reads),
    ensures
        mirrors(updated(g, address, formula, upstream), reads.insert(address, upstream.to_set())),
{
    lemma_updated(g, address, formula, upstream);
    let h = updated(g, address, formula, upstream);
    let now = reads.insert(address, upstream.to_set());
    assert forall|x: Seq<char>, y: Seq<char>|
        #[trigger] dependents(h, x).contains(y) <==> now.contains_key(y) && now[y].contains(
            x,
        ) by {
        if y != address {
            assert(dependents(g, x).contains(y) <==> reads.contains_key(y) && reads[y].contains(x));
        }
    }
}

/// A graph without nodes mirrors that no formula was given.
pub proof fn lemma_empty_mirrors()
    ensures
        mirrors(Graph::empty(), Map::empty()),
{
    assert forall|x: Seq<char>, y: Seq<char>| !(#[trigger] dependents(Graph::empty(), x).contains(y)) by {
        assert(dependents(Graph::empty(), x) =~= Seq::<Seq<char>>::empty());
    }
}

/// The cells in their order form a path: each but the first is a dependent
/// of the one before it.
pub open spec fn path(g: Graph, cells: Seq<Seq<char>>) -> bool {
    forall|i: int| 0 <= i < cells.len() - 1 ==> dependents(g, cells[i]).contains(#[trigger] cells[i + 1])
}

/// The cell at `to` is downstream of the cell at `from`: it is the same
/// cell, or a path leads from the one to the other.
pub open spec fn downstream(g: Graph, from: Seq<char>, to: Seq<char>) -> bool {
    exists|cells: Seq<Seq<char>>|
        #![trigger path(g, cells)]
        cells.len() > 0 && path(g, cells) && cells[0] == from && cells.last() == to
}

/// Every cell is downstream of itself.
pub proof fn lemma_downstream_of_itself(g: Graph, address: Seq<char>)
    ensures
        downstream(g, address, address),
{
    let cells = seq![address];
    assert(path(g, cells));
    assert(cells.len() > 0 && path(g, cells) && cells[0] == address && cells.last() == address);
}

/// What is downstream of a dependent of a cell is downstream of the cell.
pub proof fn lemma_downstream_of_dependent(
    g: Graph,
    from: Seq<char>,
    dependent: Seq<char>,
    to: Seq<char>,
)
    requires
        dependents(g, from).contains(dependent),
        downstream(g, dependent, to),
    ensures
        downstream(g, from, to),
{
    let tail = choose|cells: Seq<Seq<char>>|
        #![trigger path(g, cells)]
        cells.len() > 0 && path(g, cells) && cells[0] == dependent && cells.last() == to;
    let cells = seq![from] + tail;
    assert forall|i: int| 0 <= i < cells.len() - 1 implies dependents(g, cells[i]).contains(
        #[trigger] cells[i + 1],
    ) by {
        if i > 0 {
            assert(cells[i] == tail[i - 1]);
            assert(cells[i + 1] == tail[i - 1 + 1]);
            assert(dependents(g, tail[i - 1]).contains(tail[i - 1 + 1]));
        } else {
            assert(cells[1] == tail[0]);
        }
    }
    assert(cells.len() > 0 && path(g, cells) && cells[0] == from && cells.last() == to);
}

} // verus!
