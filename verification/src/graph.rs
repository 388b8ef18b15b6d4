//! The dependency graph: for every cell that was set or that a formula
//! reads, its formula and the cells whose formulas read it.

use vstd::prelude::*;
use crate::resolve::with_address;
use crate::text::texts_view;

verus! {

/// A node of the dependency graph.
#[derive(Debug)]
pub struct DependencyNode {
    /// The address of the node's cell.
    pub address: String,
    /// The cell's formula; empty for a cell that was never set.
    pub formula: String,
    /// The downstream dependents: the cells whose formulas read this cell,
    /// each once.
    pub neighbors: Vec<String>,
}

/// The mathematical value of a [`DependencyNode`].
pub struct NodeView {
    pub address: Seq<char>,
    pub formula: Seq<char>,
    pub neighbors: Seq<Seq<char>>,
}

impl View for DependencyNode {
    type V = NodeView;

    open spec fn view(&self) -> NodeView {
        NodeView {
            address: self.address@,
            formula: self.formula@,
            neighbors: texts_view(self.neighbors@),
        }
    }
}

/// The contents of a dependency graph: its nodes, oldest first.
pub type Graph = Seq<NodeView>;

/// How many nodes stand before the node of the given address, or the
/// number of nodes where the address has none.
pub open spec fn position(g: Graph, address: Seq<char>) -> nat
    decreases g.len(),
{
    if g.len() > 0 && g[0].address != address {
        1 + position(g.drop_first(), address)
    } else {
        0
    }
}

/// The address has a node.
pub open spec fn has_node(g: Graph, address: Seq<char>) -> bool {
    position(g, address) < g.len()
}

/// The formula of the cell at the address; empty where it has no node.
pub open spec fn formula_of(g: Graph, address: Seq<char>) -> Seq<char> {
    if has_node(g, address) {
        g[position(g, address) as int].formula
    } else {
        Seq::empty()
    }
}

/// The downstream dependents of the cell at the address; none where it has
/// no node.
pub open spec fn dependents(g: Graph, address: Seq<char>) -> Seq<Seq<char>> {
    if has_node(g, address) {
        g[position(g, address) as int].neighbors
    } else {
        Seq::empty()
    }
}

/// The list without the given address.
pub open spec fn without(list: Seq<Seq<char>>, address: Seq<char>) -> Seq<Seq<char>>
    decreases list.len(),
{
    if list.len() == 0 {
        list
    } else if list.last() == address {
        without(list.drop_last(), address)
    } else {
        without(list.drop_last(), address).push(list.last())
    }
}

/// A graph is well formed when no two nodes have the same address, no node
/// lists a dependent twice, and every dependent has a node.
pub open spec fn well_formed(g: Graph) -> bool {
    &&& forall|i: int, j: int|
        0 <= i < j < g.len() ==> (#[trigger] g[i]).address != (#[trigger] g[j]).address
    &&& forall|i: int| 0 <= i < g.len() ==> (#[trigger] g[i]).neighbors.no_duplicates()
    &&& forall|i: int, k: int|
        0 <= i < g.len() && 0 <= k < g[i].neighbors.len() ==> has_node(
            g,
            #[trigger] g[i].neighbors[k],
        )
}

/// The graph with the formula of the cell at the address replaced. A cell
/// without a node gets one, with no dependents; a cell with a node keeps
/// its dependents.
pub open spec fn with_formula(g: Graph, address: Seq<char>, formula: Seq<char>) -> Graph {
    if has_node(g, address) {
        let p = position(g, address) as int;
        g.update(p, NodeView { formula, ..g[p] })
    } else {
        g.push(NodeView { address, formula, neighbors: Seq::empty() })
    }
}

/// The graph with `dependent` among the dependents of the cell at
/// `address`. A cell without a node gets one, with an empty formula.
pub open spec fn with_edge(g: Graph, address: Seq<char>, dependent: Seq<char>) -> Graph {
    if has_node(g, address) {
        let p = position(g, address) as int;
        g.update(p, NodeView { neighbors: with_address(g[p].neighbors, dependent), ..g[p] })
    } else {
        g.push(NodeView { address, formula: Seq::empty(), neighbors: seq![dependent] })
    }
}

/// The graph with `dependent` among the dependents of each of the cells at
/// the given addresses, taken in turn.
pub open spec fn with_edges(g: Graph, addresses: Seq<Seq<char>>, dependent: Seq<char>) -> Graph
    decreases addresses.len(),
{
    if addresses.len() == 0 {
        g
    } else {
        with_edges(with_edge(g, addresses[0], dependent), addresses.drop_first(), dependent)
    }
}

/// The graph without the stale edges of `dependent`: it is no longer among
/// the dependents of any cell that is not upstream of it.
pub open spec fn pruned(g: Graph, dependent: Seq<char>, upstream: Seq<Seq<char>>) -> Graph {
    Seq::new(
        g.len(),
        |i: int|
            if upstream.contains(g[i].address) {
                g[i]
            } else {
                NodeView { neighbors: without(g[i].neighbors, dependent), ..g[i] }
            },
    )
}

/// The graph after the cell at `address` was given a formula that reads the
/// cells `upstream`: the cell has the formula, it is a dependent of each
/// upstream cell, and of no other.
pub open spec fn updated(
    g: Graph,
    address: Seq<char>,
    formula: Seq<char>,
    upstream: Seq<Seq<char>>,
) -> Graph {
    pruned(with_edges(with_formula(g, address, formula), upstream, address), address, upstream)
}

/// The dependency graph.
pub struct DependencyGraph {
    pub nodes: Vec<DependencyNode>,
}

impl View for DependencyGraph {
    type V = Graph;

    open spec fn view(&self) -> Graph {
        Seq::new(self.nodes@.len(), |i: int| self.nodes@[i]@)
    }
}

/// Where the node of an address stands, told by what stands before it.
pub proof fn lemma_position_is(g: Graph, address: Seq<char>, k: int)
    requires
        0 <= k <= g.len(),
        forall|i: int| 0 <= i < k ==> (#[trigger] g[i]).address != address,
        k < g.len() ==> g[k].address == address,
    ensures
        position(g, address) == k,
    decreases g.len(),
{
    if k > 0 {
        let rest = g.drop_first();
        assert(g[0].address != address);
        assert forall|i: int| 0 <= i < k - 1 implies (#[trigger] rest[i]).address != address by {
            assert(rest[i] == g[i + 1]);
        }
        lemma_position_is(rest, address, k - 1);
    }
}

/// No node before that of an address has the address, and the node at its
/// position has it.
pub proof fn lemma_position(g: Graph, address: Seq<char>)
    ensures
        position(g, address) <= g.len(),
        forall|i: int| 0 <= i < position(g, address) ==> (#[trigger] g[i]).address != address,
        has_node(g, address) ==> g[position(g, address) as int].address == address,
    decreases g.len(),
{
    if g.len() > 0 && g[0].address != address {
        let rest = g.drop_first();
        lemma_position(rest, address);
        assert forall|i: int| 0 <= i < position(g, address) implies (#[trigger] g[i]).address
            != address by {
            if i > 0 {
                assert(g[i] == rest[i - 1]);
            }
        }
        if has_node(g, address) {
            assert(g[position(g, address) as int] == rest[position(rest, address) as int]);
        }
    }
}

impl DependencyGraph {
    /// A graph without nodes.
    pub fn new() -> (r: DependencyGraph)
        ensures
            r@ == Graph::empty(),
            well_formed(r@),
    {
        let r = DependencyGraph { nodes: Vec::new() };
        assert(r@ =~= Graph::empty());
        r
    }

    /// Where the node of the address stands, if it has one.
    pub fn find(&self, address: &str) -> (r: Option<usize>)
        ensures
            r is Some <==> has_node(self@, address@),
            r matches Some(p) ==> p == position(self@, address@) && p < self.nodes.len(),
    {
        let mut i: usize = 0;
        while i < self.nodes.len()
            invariant
                i <= self.nodes.len(),
                forall|j: int| 0 <= j < i ==> (#[trigger] self@[j]).address != address@,
            decreases self.nodes.len() - i,
        {
            if crate::text::same_text(self.nodes[i].address.as_str(), address) {
                proof {
                    assert(self@[i as int].address == address@);
                    lemma_position_is(self@, address@, i as int);
                }
                return Some(i);
            }
            i += 1;
        }
        proof {
            lemma_position_is(self@, address@, i as int);
        }
        None
    }

    /// Gives the cell at the address its formula. A cell without a node
    /// gets one; a cell with a node keeps its dependents.
    pub fn set_formula(&mut self, address: &str, formula: String)
        ensures
            final(self)@ == with_formula(old(self)@, address@, formula@),
    {
        match self.find(address) {
            Some(p) => {
                self.nodes[p].formula = formula;
                assert(self@ =~= with_formula(old(self)@, address@, formula@));
            },
            None => {
                let node = DependencyNode {
                    address: address.to_string(),
                    formula,
                    neighbors: Vec::new(),
                };
                assert(node@.neighbors =~= Seq::<Seq<char>>::empty());
                self.nodes.push(node);
                assert(self@ =~= with_formula(old(self)@, address@, formula@));
            },
        }
    }

    /// Makes `dependent` a dependent of the cell at `address`. A cell
    /// without a node gets one, with an empty formula.
    pub fn add_edge(&mut self, address: &str, dependent: &str)
        ensures
            final(self)@ == with_edge(old(self)@, address@, dependent@),
    {
        match self.find(address) {
            Some(p) => {
                crate::resolve::add_address(&mut self.nodes[p].neighbors, dependent.to_string());
                assert(self@ =~= with_edge(old(self)@, address@, dependent@));
            },
            None => {
                let mut neighbors: Vec<String> = Vec::new();
                neighbors.push(dependent.to_string());
                let node = DependencyNode {
                    address: address.to_string(),
                    formula: String::new(),
                    neighbors,
                };
                assert(node@.neighbors =~= seq![dependent@]);
                self.nodes.push(node);
                assert(self@ =~= with_edge(old(self)@, address@, dependent@));
            },
        }
    }

    /// Makes `dependent` a dependent of each of the cells at the given
    /// addresses.
    pub fn add_edges(&mut self, addresses: &Vec<String>, dependent: &str)
        ensures
            final(self)@ == with_edges(old(self)@, texts_view(addresses@), dependent@),
    {
        let ghost all = texts_view(addresses@);
        let mut i: usize = 0;
        assert(all.skip(0) =~= all);
        while i < addresses.len()
            invariant
                i <= addresses.len(),
                all == texts_view(addresses@),
                with_edges(self@, all.skip(i as int), dependent@) == with_edges(
                    old(self)@,
                    all,
                    dependent@,
                ),
            decreases addresses.len() - i,
        {
            proof {
                assert(all.skip(i as int)[0] == addresses@[i as int]@);
                assert(all.skip(i as int).drop_first() == all.skip(i + 1));
            }
            self.add_edge(addresses[i].as_str(), dependent);
            i += 1;
        }
        assert(all.skip(i as int) =~= Seq::<Seq<char>>::empty());
    }

    /// Removes the stale edges of `dependent`: it stays a dependent of the
    /// cells at the addresses `upstream`, and of no other.
    pub fn prune(&mut self, dependent: &str, upstream: &Vec<String>)
        ensures
            final(self)@ == pruned(old(self)@, dependent@, texts_view(upstream@)),
    {
        let mut i: usize = 0;
        while i < self.nodes.len()
            invariant
                i <= self.nodes.len(),
                self.nodes.len() == old(self).nodes.len(),
                forall|j: int|
                    0 <= j < i ==> #[trigger] self@[j] == pruned(
                        old(self)@,
                        dependent@,
                        texts_view(upstream@),
                    )[j],
                forall|j: int| i <= j < self.nodes.len() ==> #[trigger] self@[j] == old(self)@[j],
            decreases self.nodes.len() - i,
        {
            let ghost before = self@;
            assert(before[i as int] == old(self)@[i as int]);
            if !crate::resolve::holds_address(upstream, self.nodes[i].address.as_str()) {
                let kept = remove_address(&self.nodes[i].neighbors, dependent);
                self.nodes[i].neighbors = kept;
            }
            proof {
                let goal = pruned(old(self)@, dependent@, texts_view(upstream@));
                assert(self@[i as int] == goal[i as int]);
                assert forall|j: int| 0 <= j < i implies #[trigger] self@[j] == goal[j] by {
                    assert(self@[j] == before[j]);
                }
                assert forall|j: int| i < j < self.nodes.len() implies #[trigger] self@[j] == old(
                    self,
                )@[j] by {
                    assert(self@[j] == before[j]);
                }
            }
            i += 1;
        }
        assert(self@ =~= pruned(old(self)@, dependent@, texts_view(upstream@)));
    }

    /// Records that the cell at `address` was given a formula that reads
    /// the cells `upstream`.
    pub fn update(&mut self, address: &str, formula: String, upstream: &Vec<String>)
        ensures
            final(self)@ == updated(old(self)@, address@, formula@, texts_view(upstream@)),
            well_formed(old(self)@) ==> well_formed(final(self)@),
    {
        proof {
            if well_formed(self@) {
                crate::graph_laws::lemma_updated(
                    self@,
                    address@,
                    formula@,
                    texts_view(upstream@),
                );
            }
        }
        self.set_formula(address, formula);
        self.add_edges(upstream, address);
        self.prune(address, upstream);
    }
}

/// The list without the given address.
pub fn remove_address(list: &Vec<String>, address: &str) -> (r: Vec<String>)
    ensures
        texts_view(r@) == without(texts_view(list@), address@),
{
    let ghost all = texts_view(list@);
    let mut r: Vec<String> = Vec::new();
    let mut i: usize = 0;
    assert(all.take(0) =~= Seq::<Seq<char>>::empty());
    assert(texts_view(r@) =~= Seq::<Seq<char>>::empty());
    while i < list.len()
        invariant
            i <= list.len(),
            all == texts_view(list@),
            texts_view(r@) == without(all.take(i as int), address@),
        decreases list.len() - i,
    {
        proof {
            assert(all.take(i + 1).drop_last() == all.take(i as int));
            assert(all.take(i + 1).last() == list@[i as int]@);
        }
        if !crate::text::same_text(list[i].as_str(), address) {
            let ghost before = texts_view(r@);
            r.push(list[i].clone());
            assert(texts_view(r@) =~= before.push(list@[i as int]@));
        }
        i += 1;
    }
    assert(all.take(i as int) == all);
    r
}

} // verus!
