//! The dependency worker: it alone changes the dependency graph. For every
//! change of a cell's formula it brings the graph up to date, looks for a
//! cycle through the cell, and recomputes the cells downstream of it.
//!
//! The worker does not evaluate formulas. It walks the cells downstream of
//! a change step by step: a step goes on until a formula is to be
//! evaluated, hands the formula out with its arguments, and the walk goes
//! on when the value was handed back.

use vstd::prelude::*;
use crate::command::{evaluation_of, Evaluation, Update};
use crate::cycle::{detect_cycle, search};
use crate::formula::{find_variables, formula_variables};
use crate::graph::{dependents, formula_of, updated, well_formed, DependencyGraph, Graph};
use crate::resolve::{convert_variables, first_failure, holds_address};
use crate::store::{CellStore, Cells};
use crate::text::texts_view;
use crate::value::{Fault, FaultView, Value, ValueView};

verus! {

/// A write that the worker made to the cell store.
#[derive(Debug, PartialEq, Eq)]
pub enum Write {
    /// The cell is on a cycle and took the circular dependency fault.
    Marked(String),
    /// The cell's formula did not resolve and the cell took the fault.
    Faulted(String, Fault),
    /// The cell's formula was evaluated and the cell took the value.
    Evaluated(String, Value),
}

/// The mathematical value of a [`Write`].
pub enum WriteView {
    Marked(Seq<char>),
    Faulted(Seq<char>, FaultView),
    Evaluated(Seq<char>, ValueView),
}

impl View for Write {
    type V = WriteView;

    open spec fn view(&self) -> WriteView {
        match self {
            Write::Marked(address) => WriteView::Marked(address@),
            Write::Faulted(address, fault) => WriteView::Faulted(address@, fault@),
            Write::Evaluated(address, value) => WriteView::Evaluated(address@, value@),
        }
    }
}

impl WriteView {
    /// The cell that was written.
    pub open spec fn address(self) -> Seq<char> {
        match self {
            WriteView::Marked(address) => address,
            WriteView::Faulted(address, _) => address,
            WriteView::Evaluated(address, _) => address,
        }
    }

    /// The value that it took.
    pub open spec fn value(self) -> ValueView {
        match self {
            WriteView::Marked(_) => FaultView::Circular.value(),
            WriteView::Faulted(_, fault) => fault.value(),
            WriteView::Evaluated(_, value) => value,
        }
    }
}

/// The writes of a journal of writes, oldest first.
pub open spec fn writes_view(journal: Seq<Write>) -> Seq<WriteView> {
    Seq::new(journal.len(), |i: int| journal[i]@)
}

/// The store after the writes of a journal were made in their order.
pub open spec fn written(cells: Cells, journal: Seq<WriteView>) -> Cells
    decreases journal.len(),
{
    if journal.len() == 0 {
        cells
    } else {
        written(cells, journal.drop_last()).insert(journal.last().address(), journal.last().value())
    }
}

/// The writes that mark the cells of a path as being on a cycle.
pub open spec fn marks(stack: Seq<Seq<char>>) -> Seq<WriteView> {
    Seq::new(stack.len(), |i: int| WriteView::Marked(stack[i]))
}

/// How far a recomputation got through a journal: the store that it left
/// and the writes of the journal that are not its own.
pub struct Progress {
    pub cells: Cells,
    pub rest: Seq<WriteView>,
}

/// The recomputation of one cell, checked against the journal. The
/// variables of the cell's formula are resolved against the store. Where
/// they do not resolve, the cell takes the fault, and nothing downstream of
/// it is recomputed. Where they do, the formula is evaluated, the cell
/// takes the value, whatever the evaluator gave, and the dependents of
/// the cell are recomputed in their order. A cell that was just marked as
/// being on a cycle is left as it is.
///
/// The result is nothing where the journal does not start with the writes
/// of this recomputation.
pub open spec fn walk(
    g: Graph,
    cells: Cells,
    address: Seq<char>,
    marked: Seq<Seq<char>>,
    depth: nat,
    journal: Seq<WriteView>,
) -> Option<Progress>
    decreases depth, 1nat, 0nat,
{
    if marked.contains(address) {
        Some(Progress { cells, rest: journal })
    } else if journal.len() == 0 {
        None
    } else {
        match first_failure(formula_variables(formula_of(g, address)), cells) {
            Some(fault) => {
                if journal[0] == WriteView::Faulted(address, fault) {
                    Some(Progress { cells: cells.insert(address, fault.value()), rest: journal.skip(1) })
                } else {
                    None
                }
            },
            None => {
                if journal[0] == WriteView::Evaluated(address, journal[0].value()) {
                    walk_all(
                        g,
                        cells.insert(address, journal[0].value()),
                        dependents(g, address),
                        marked,
                        depth,
                        journal.skip(1),
                    )
                } else {
                    None
                }
            },
        }
    }
}

/// The recomputation of several cells in their order, each no deeper than
/// `depth` cells below it, checked against the journal.
pub open spec fn walk_all(
    g: Graph,
    cells: Cells,
    addresses: Seq<Seq<char>>,
    marked: Seq<Seq<char>>,
    depth: nat,
    journal: Seq<WriteView>,
) -> Option<Progress>
    decreases depth, 0nat, addresses.len(),
{
    if addresses.len() == 0 || depth == 0 {
        Some(Progress { cells, rest: journal })
    } else {
        match walk(g, cells, addresses[0], marked, (depth - 1) as nat, journal) {
            None => None,
            Some(progress) => walk_all(
                g,
                progress.cells,
                addresses.drop_first(),
                marked,
                depth,
                progress.rest,
            ),
        }
    }
}

/// The journal starts with the writes of the earlier one.
pub open spec fn extends(later: Seq<WriteView>, earlier: Seq<WriteView>) -> bool {
    earlier.len() <= later.len() && later.take(earlier.len() as int) == earlier
}

/// Marks the cells of a path as being on a cycle: each takes the circular
/// dependency fault.
pub fn mark_cycle(cells: &mut CellStore, stack: &Vec<String>, journal: &mut Vec<Write>)
    ensures
        writes_view(final(journal)@) == writes_view(old(journal)@) + marks(texts_view(stack@)),
        final(cells)@ == written(old(cells)@, marks(texts_view(stack@))),
{
    let ghost all = marks(texts_view(stack@));
    let mut i: usize = 0;
    assert(all.take(0) =~= Seq::<WriteView>::empty());
    assert(writes_view(journal@) =~= writes_view(old(journal)@) + all.take(0));
    while i < stack.len()
        invariant
            i <= stack.len(),
            all == marks(texts_view(stack@)),
            writes_view(journal@) == writes_view(old(journal)@) + all.take(i as int),
            cells@ == written(old(cells)@, all.take(i as int)),
        decreases stack.len() - i,
    {
        proof {
            assert(all.take(i + 1).drop_last() == all.take(i as int));
            assert(all.take(i + 1).last() == WriteView::Marked(stack@[i as int]@));
        }
        let ghost before = writes_view(journal@);
        cells.set(stack[i].clone(), Fault::Circular.value());
        journal.push(Write::Marked(stack[i].clone()));
        proof {
            let mark = WriteView::Marked(stack@[i as int]@);
            assert(all[i as int] == mark);
            assert(writes_view(journal@) =~= before.push(mark));
            assert(all.take(i + 1) =~= all.take(i as int).push(mark));
            assert(writes_view(journal@) =~= writes_view(old(journal)@) + all.take(i + 1));
        }
        i += 1;
    }
    assert(all.take(i as int) == all);
}

/// The writes that a journal holds after its first `from`.
pub open spec fn added(journal: Seq<Write>, from: nat) -> Seq<WriteView> {
    writes_view(journal).skip(from as int)
}

/// Cells that are still to be recomputed: dependents of one cell, from the
/// one at place `next` on, each to be walked no deeper than `depth` cells
/// below them.
#[derive(Debug)]
pub struct Frame {
    pub addresses: Vec<String>,
    pub next: usize,
    pub depth: usize,
}

/// The mathematical value of a [`Frame`]: the cells that are left, and the
/// depth.
pub struct FrameView {
    pub addresses: Seq<Seq<char>>,
    pub depth: nat,
}

impl View for Frame {
    type V = FrameView;

    open spec fn view(&self) -> FrameView {
        FrameView {
            addresses: if self.next <= self.addresses@.len() {
                texts_view(self.addresses@).skip(self.next as int)
            } else {
                Seq::empty()
            },
            depth: self.depth as nat,
        }
    }
}

/// The frames of a list of frames, the innermost last.
pub open spec fn frames_view(frames: Seq<Frame>) -> Seq<FrameView> {
    Seq::new(frames.len(), |i: int| frames[i]@)
}

/// The recomputation that the frames stand for, checked against the
/// journal: the cells of the innermost frame first, each with the cells
/// downstream of it, then those of the frame around it, and so on.
pub open spec fn walk_frames(
    g: Graph,
    cells: Cells,
    frames: Seq<FrameView>,
    marked: Seq<Seq<char>>,
    journal: Seq<WriteView>,
) -> Option<Progress>
    decreases frames.len(),
{
    if frames.len() == 0 {
        Some(Progress { cells, rest: journal })
    } else {
        match walk_all(g, cells, frames.last().addresses, marked, frames.last().depth, journal) {
            None => None,
            Some(progress) => walk_frames(
                g,
                progress.cells,
                frames.drop_last(),
                marked,
                progress.rest,
            ),
        }
    }
}

/// The walk over the cells downstream of a change, as far as it has come.
#[derive(Debug)]
pub struct Propagation {
    /// The cells that are still to be recomputed, the innermost frame last.
    pub frames: Vec<Frame>,
    /// The cells that were marked as being on a cycle: they are left as
    /// they are.
    pub marked: Vec<String>,
    /// The writes made to the store so far, oldest first.
    pub journal: Vec<Write>,
    /// How deep the walk may go below the cell whose formula was handed
    /// out last.
    pub below: usize,
}

/// The cells that are marked as being on a cycle after a change of the cell
/// at `address`: the path on which the walk from the cell found a cycle,
/// or none where it found no cycle.
pub open spec fn cycle_from(g: Graph, address: Seq<char>) -> Seq<Seq<char>> {
    let s = search(g, address, Seq::empty(), Seq::empty(), g.len());
    if s.found {
        s.stack
    } else {
        Seq::empty()
    }
}

/// The store after the worker handled a change of the cell at `address`,
/// in a graph that is up to date, checked against the journal of its
/// writes. First the cells of a cycle found from the cell take the
/// circular dependency fault. Then the dependents of the cell are
/// recomputed in their order, each with the cells downstream of it.
///
/// The result is nothing where the journal is not that of these writes.
pub open spec fn handled(
    g: Graph,
    cells: Cells,
    address: Seq<char>,
    journal: Seq<WriteView>,
) -> Option<Cells> {
    let stack = cycle_from(g, address);
    if !extends(journal, marks(stack)) {
        None
    } else {
        match walk_all(
            g,
            written(cells, marks(stack)),
            dependents(g, address),
            stack,
            g.len(),
            journal.skip(stack.len() as int),
        ) {
            Some(progress) => if progress.rest.len() == 0 {
                Some(progress.cells)
            } else {
                None
            },
            None => None,
        }
    }
}

/// The addresses of a list, copied.
fn copy_addresses(list: &Vec<String>) -> (r: Vec<String>)
    ensures
        texts_view(r@) == texts_view(list@),
{
    let mut r: Vec<String> = Vec::new();
    let mut i: usize = 0;
    while i < list.len()
        invariant
            i <= list.len(),
            r.len() == i,
            forall|j: int| 0 <= j < i ==> r@[j]@ == list@[j]@,
        decreases list.len() - i,
    {
        r.push(list[i].clone());
        i += 1;
    }
    assert(texts_view(r@) =~= texts_view(list@));
    r
}

/// Starts handling one change of a cell's formula: the graph is brought up
/// to date, and the cells of a cycle found from the cell take the circular
/// dependency fault. Returns the walk over the cells downstream: the
/// dependents of the cell are still to be recomputed, no deeper than the
/// graph has nodes; [`dfs_update_dependencies`] goes on from there.
pub fn handle_dependency_update(
    cells: &mut CellStore,
    graph: &mut DependencyGraph,
    update: &Update,
) -> (p: Propagation)
    ensures
        final(graph)@ == updated(
            old(graph)@,
            update@.address,
            update@.formula,
            update@.upstream,
        ),
        well_formed(old(graph)@) ==> well_formed(final(graph)@),
        texts_view(p.marked@) == cycle_from(final(graph)@, update@.address),
        writes_view(p.journal@) == marks(cycle_from(final(graph)@, update@.address)),
        final(cells)@ == written(old(cells)@, marks(cycle_from(final(graph)@, update@.address))),
        frames_view(p.frames@) == seq![
            FrameView {
                addresses: dependents(final(graph)@, update@.address),
                depth: final(graph)@.len(),
            },
        ],
{
    let address = &update.address;
    graph.update(address.as_str(), update.formula.clone(), &update.upstream);
    let mut rec_stack: Vec<String> = Vec::new();
    let mut visited: Vec<String> = Vec::new();
    let mut journal: Vec<Write> = Vec::new();
    assert(texts_view(rec_stack@) =~= Seq::<Seq<char>>::empty());
    assert(texts_view(visited@) =~= Seq::<Seq<char>>::empty());
    if !detect_cycle(graph, address.as_str(), &mut rec_stack, &mut visited) {
        rec_stack = Vec::new();
        assert(texts_view(rec_stack@) =~= Seq::<Seq<char>>::empty());
    }
    assert(writes_view(journal@) =~= Seq::<WriteView>::empty());
    mark_cycle(cells, &rec_stack, &mut journal);
    assert(writes_view(journal@) =~= marks(texts_view(rec_stack@)));
    let addresses = match graph.find(address.as_str()) {
        Some(at) => copy_addresses(&graph.nodes[at].neighbors),
        None => Vec::new(),
    };
    let frame = Frame { addresses, next: 0, depth: graph.nodes.len() };
    assert(frame@.addresses =~= dependents(graph@, address@));
    let mut frames: Vec<Frame> = Vec::new();
    frames.push(frame);
    assert(frames_view(frames@) =~= seq![frame@]);
    Propagation { frames, marked: rec_stack, journal, below: 0 }
}

/// Goes on with the walk until a formula is to be evaluated or nothing is
/// left to recompute. The cells are taken in the order of the walk, depth
/// first. A cell that was marked as being on a cycle is passed over. A cell
/// whose variables do not resolve takes the fault, and the cells
/// downstream of it are not walked. For the first cell whose variables
/// resolve, the formula is handed out with its arguments: the walk goes on
/// when [`record_recomputed`] was given the value.
///
/// Returns nothing when nothing is left. The store changes by exactly the
/// writes that the journal gains, and the walk that was left before this
/// step is the writes of this step followed by the walk that is left
/// after it, whatever value the formula handed out is given.
pub fn dfs_update_dependencies(
    p: &mut Propagation,
    cells: &mut CellStore,
    graph: &DependencyGraph,
) -> (job: Option<Evaluation>)
    ensures
        final(p).marked == old(p).marked,
        extends(writes_view(final(p).journal@), writes_view(old(p).journal@)),
        final(cells)@ == written(old(cells)@, added(final(p).journal@, old(p).journal@.len())),
        match job {
            None => {
                &&& final(p).frames@.len() == 0
                &&& forall|rest: Seq<WriteView>|
                    #[trigger] walk_frames(
                        graph@,
                        old(cells)@,
                        frames_view(old(p).frames@),
                        texts_view(old(p).marked@),
                        added(final(p).journal@, old(p).journal@.len()) + rest,
                    ) == Some(Progress { cells: final(cells)@, rest })
            },
            Some(evaluation) => {
                &&& !texts_view(old(p).marked@).contains(evaluation@.address)
                &&& evaluation@ == evaluation_of(
                    evaluation@.address,
                    formula_of(graph@, evaluation@.address),
                    final(cells)@,
                )
                &&& first_failure(evaluation@.variables, final(cells)@) is None
                &&& forall|value: ValueView, rest: Seq<WriteView>|
                    #[trigger] walk_frames(
                        graph@,
                        old(cells)@,
                        frames_view(old(p).frames@),
                        texts_view(old(p).marked@),
                        added(final(p).journal@, old(p).journal@.len()) + (seq![
                            WriteView::Evaluated(evaluation@.address, value),
                        ] + rest),
                    ) == walk_frames(
                        graph@,
                        final(cells)@.insert(evaluation@.address, value),
                        frames_view(final(p).frames@).push(
                            FrameView {
                                addresses: dependents(graph@, evaluation@.address),
                                depth: final(p).below as nat,
                            },
                        ),
                        texts_view(old(p).marked@),
                        rest,
                    )
            },
        },
{
    let ghost g = graph@;
    let ghost m = texts_view(p.marked@);
    let ghost start = p.journal@.len();
    let ghost cells0 = cells@;
    let ghost frames0 = frames_view(p.frames@);
    proof {
        assert(writes_view(p.journal@).take(start as int) =~= writes_view(p.journal@));
        assert(added(p.journal@, start) =~= Seq::<WriteView>::empty());
        assert forall|rest: Seq<WriteView>|
            walk_frames(g, cells0, frames0, m, added(p.journal@, start) + rest)
                == #[trigger] walk_frames(g, cells@, frames_view(p.frames@), m, rest) by {
            assert(added(p.journal@, start) + rest =~= rest);
        }
    }
    loop
        invariant
            g == graph@,
            m == texts_view(p.marked@),
            p.marked == old(p).marked,
            start == old(p).journal@.len(),
            cells0 == old(cells)@,
            frames0 == frames_view(old(p).frames@),
            extends(writes_view(p.journal@), writes_view(old(p).journal@)),
            cells@ == written(cells0, added(p.journal@, start)),
            forall|rest: Seq<WriteView>|
                walk_frames(g, cells0, frames0, m, added(p.journal@, start) + rest)
                    == #[trigger] walk_frames(g, cells@, frames_view(p.frames@), m, rest),
        decreases
                p.frames.len(),
                (if p.frames.len() > 0 && p.frames[p.frames.len() - 1].next
                    <= p.frames[p.frames.len() - 1].addresses.len() {
                    p.frames[p.frames.len() - 1].addresses.len() - p.frames[p.frames.len()
                        - 1].next
                } else {
                    0
                }),
    {
        let ghost frames_before = frames_view(p.frames@);
        let ghost sofar = added(p.journal@, start);
        let ghost cells_before = cells@;
        if p.frames.len() == 0 {
            proof {
                assert(frames_before =~= Seq::<FrameView>::empty());
                assert forall|rest: Seq<WriteView>|
                    #[trigger] walk_frames(g, cells0, frames0, m, sofar + rest) == Some(
                        Progress { cells: cells@, rest },
                    ) by {
                    assert(walk_frames(g, cells@, frames_before, m, rest) == Some(
                        Progress { cells: cells@, rest },
                    ));
                }
            }
            return None;
        }
        let top = p.frames.len() - 1;
        let ghost frame = frames_before[top as int];
        assert(frames_before.last() == frame);
        if p.frames[top].depth == 0 || p.frames[top].next >= p.frames[top].addresses.len() {
            p.frames.pop();
            proof {
                assert(frames_view(p.frames@) =~= frames_before.drop_last());
                assert(frame.depth == 0 || frame.addresses.len() == 0);
                assert forall|rest: Seq<WriteView>|
                    walk_frames(g, cells0, frames0, m, sofar + rest) == #[trigger] walk_frames(
                        g,
                        cells@,
                        frames_view(p.frames@),
                        m,
                        rest,
                    ) by {
                    assert(walk_frames(g, cells_before, frames_before, m, rest) == walk_frames(
                        g,
                        cells@,
                        frames_before.drop_last(),
                        m,
                        rest,
                    ));
                }
            }
            continue ;
        }
        let at = p.frames[top].next;
        let depth = p.frames[top].depth;
        let address = p.frames[top].addresses[at].clone();
        p.frames[top].next = at + 1;
        let ghost frames_after = frames_view(p.frames@);
        let ghost lower = frames_before.drop_last();
        let ghost siblings = frame.addresses.drop_first();
        proof {
            assert(frame.addresses[0] == address@);
            assert(frames_after.last() == FrameView { addresses: siblings, depth: depth as nat })
                by {
                assert(frames_after.last().addresses =~= siblings);
            }
            assert(frames_after.drop_last() =~= lower);
        }
        if holds_address(&p.marked, address.as_str()) {
            proof {
                assert forall|rest: Seq<WriteView>|
                    walk_frames(g, cells0, frames0, m, sofar + rest) == #[trigger] walk_frames(
                        g,
                        cells@,
                        frames_after,
                        m,
                        rest,
                    ) by {
                    assert(walk_frames(g, cells_before, frames_before, m, rest) == walk_frames(
                        g,
                        cells@,
                        frames_after,
                        m,
                        rest,
                    )) by {
                        assert(walk(g, cells_before, address@, m, (depth - 1) as nat, rest)
                            == Some(Progress { cells: cells_before, rest }));
                    }
                }
            }
            continue ;
        }
        let formula = match graph.find(address.as_str()) {
            Some(node) => graph.nodes[node].formula.clone(),
            None => String::new(),
        };
        assert(formula@ == formula_of(g, address@));
        let variables = find_variables(formula.as_str());
        match convert_variables(&variables, cells) {
            Ok(resolved) => {
                p.below = depth - 1;
                proof {
                    assert(frames_view(p.frames@) =~= frames_after);
                    assert forall|value: ValueView, rest: Seq<WriteView>|
                        #[trigger] walk_frames(
                            g,
                            cells0,
                            frames0,
                            m,
                            sofar + (seq![WriteView::Evaluated(address@, value)] + rest),
                        ) == walk_frames(
                            g,
                            cells@.insert(address@, value),
                            frames_after.push(
                                FrameView {
                                    addresses: dependents(g, address@),
                                    depth: (depth - 1) as nat,
                                },
                            ),
                            m,
                            rest,
                        ) by {
                        let whole = seq![WriteView::Evaluated(address@, value)] + rest;
                        let inner = FrameView {
                            addresses: dependents(g, address@),
                            depth: (depth - 1) as nat,
                        };
                        assert(walk_frames(g, cells0, frames0, m, sofar + whole) == walk_frames(
                            g,
                            cells_before,
                            frames_before,
                            m,
                            whole,
                        ));
                        assert(whole[0] == WriteView::Evaluated(address@, value));
                        assert(whole.skip(1) =~= rest);
                        let after = cells@.insert(address@, value);
                        let grown = frames_after.push(inner);
                        assert(grown.last() == inner);
                        assert(grown.drop_last() =~= frames_after);
                        let below = walk_all(
                            g,
                            after,
                            dependents(g, address@),
                            m,
                            (depth - 1) as nat,
                            rest,
                        );
                        assert(walk(g, cells_before, address@, m, (depth - 1) as nat, whole)
                            == below);
                        assert(walk_frames(g, after, grown, m, rest) == match below {
                            None => None,
                            Some(progress) => walk_frames(
                                g,
                                progress.cells,
                                frames_after,
                                m,
                                progress.rest,
                            ),
                        });
                        assert(walk_frames(g, cells_before, frames_before, m, whole) == match walk_all(
                            g,
                            cells_before,
                            frame.addresses,
                            m,
                            depth as nat,
                            whole,
                        ) {
                            None => None,
                            Some(progress) => walk_frames(
                                g,
                                progress.cells,
                                lower,
                                m,
                                progress.rest,
                            ),
                        });
                        match below {
                            Some(progress) => {
                                assert(walk_frames(
                                    g,
                                    progress.cells,
                                    frames_after,
                                    m,
                                    progress.rest,
                                ) == match walk_all(
                                    g,
                                    progress.cells,
                                    siblings,
                                    m,
                                    depth as nat,
                                    progress.rest,
                                ) {
                                    None => None,
                                    Some(further) => walk_frames(
                                        g,
                                        further.cells,
                                        lower,
                                        m,
                                        further.rest,
                                    ),
                                });
                            },
                            None => {},
                        }
                    }
                }
                return Some(
                    Evaluation {
                        address,
                        formula,
                        variables,
                        arguments: resolved.arguments,
                        upstream: resolved.upstream,
                    },
                );
            },
            Err(fault) => {
                let ghost write = WriteView::Faulted(address@, fault@);
                cells.set(address.clone(), fault.value());
                p.journal.push(Write::Faulted(address, fault));
                proof {
                    assert(frames_view(p.frames@) =~= frames_after);
                    let now = added(p.journal@, start);
                    assert(now =~= sofar.push(write));
                    assert(now.drop_last() =~= sofar);
                    assert(writes_view(p.journal@).take(start as int) =~= writes_view(
                        old(p).journal@,
                    ));
                    assert forall|rest: Seq<WriteView>|
                        walk_frames(g, cells0, frames0, m, now + rest) == #[trigger] walk_frames(
                            g,
                            cells@,
                            frames_after,
                            m,
                            rest,
                        ) by {
                        let whole = seq![write] + rest;
                        assert(now + rest =~= sofar + whole);
                        assert(walk_frames(g, cells0, frames0, m, sofar + whole) == walk_frames(
                            g,
                            cells_before,
                            frames_before,
                            m,
                            whole,
                        ));
                        assert(whole[0] == write);
                        assert(whole.skip(1) =~= rest);
                        assert(walk(g, cells_before, address@, m, (depth - 1) as nat, whole)
                            == Some(Progress { cells: cells@, rest }));
                    }
                }
            },
        }
    }
}

/// Takes the value that a formula was given into the store and the walk:
/// the cell takes the value, whatever it is, and its dependents are the
/// next to be recomputed, as deep as the walk may still go.
pub fn record_recomputed(
    p: &mut Propagation,
    cells: &mut CellStore,
    graph: &DependencyGraph,
    address: &str,
    value: Value,
)
    ensures
        final(p).marked == old(p).marked,
        final(p).below == old(p).below,
        final(cells)@ == old(cells)@.insert(address@, value@),
        writes_view(final(p).journal@) == writes_view(old(p).journal@).push(
            WriteView::Evaluated(address@, value@),
        ),
        frames_view(final(p).frames@) == frames_view(old(p).frames@).push(
            FrameView { addresses: dependents(graph@, address@), depth: old(p).below as nat },
        ),
{
    cells.set(address.to_string(), value.clone());
    let write = Write::Evaluated(address.to_string(), value);
    p.journal.push(write);
    assert(writes_view(p.journal@) =~= writes_view(old(p).journal@).push(write@));
    let addresses = match graph.find(address) {
        Some(at) => copy_addresses(&graph.nodes[at].neighbors),
        None => Vec::new(),
    };
    let frame = Frame { addresses, next: 0, depth: p.below };
    assert(frame@.addresses =~= dependents(graph@, address@));
    p.frames.push(frame);
    assert(frames_view(p.frames@) =~= frames_view(old(p).frames@).push(frame@));
}

} // verus!
