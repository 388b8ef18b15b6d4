//! What the worker's handling of a change means for the cell store: which
//! cells it may write, what the cells of a cycle hold, and what a cell holds
//! that reads a faulted cell.

use vstd::prelude::*;
use crate::formula::formula_variables;
use crate::cycle_laws::{
    all_nodes, cycle_downstream, lemma_no_more_than_nodes, on_cycle,
};
use crate::graph::{dependents, formula_of, has_node, well_formed, Graph};
use crate::graph_laws::{
    downstream, lemma_downstream_of_dependent, lemma_downstream_of_itself, path,
};
use crate::resolve::{first_failure, upstream_of};
use crate::resolve_laws::lemma_reads_faulted_cell;
use crate::store::{value_at, Cells};
use crate::value::FaultView;
use crate::worker::{
    cycle_from, handled, marks, walk, walk_all, walk_frames, written, FrameView, Progress,
    WriteView,
};

verus! {

/// The writes of two journals, made one journal after the other, are the
/// writes of the two journals joined.
pub proof fn lemma_written_joined(cells: Cells, first: Seq<WriteView>, second: Seq<WriteView>)
    ensures
        written(cells, first + second) == written(written(cells, first), second),
    decreases second.len(),
{
    if second.len() == 0 {
        assert(first + second =~= first);
    } else {
        lemma_written_joined(cells, first, second.drop_last());
        assert((first + second).drop_last() =~= first + second.drop_last());
        assert((first + second).last() == second.last());
    }
}

/// The recomputation of a cell changes the store by its writes and by
/// nothing else: the journal is the writes made, in their order, followed
/// by what was left.
pub proof fn lemma_walk_written(
    g: Graph,
    cells: Cells,
    address: Seq<char>,
    marked: Seq<Seq<char>>,
    depth: nat,
    journal: Seq<WriteView>,
)
    requires
        walk(g, cells, address, marked, depth, journal) is Some,
    ensures
        ({
            let progress = walk(g, cells, address, marked, depth, journal)->0;
            let made = journal.len() - progress.rest.len();
            &&& 0 <= made <= journal.len()
            &&& progress.rest == journal.skip(made)
            &&& progress.cells == written(cells, journal.take(made))
        }),
    decreases depth, 1nat, 0nat,
{
    if marked.contains(address) {
        assert(journal.skip(0) =~= journal);
        assert(journal.take(0) =~= Seq::<WriteView>::empty());
    } else {
        let first = journal[0];
        let after = cells.insert(address, first.value());
        let one = journal.take(1);
        assert(one.drop_last() =~= Seq::<WriteView>::empty());
        assert(one.last() == first);
        assert(written(cells, one.drop_last()) == cells);
        assert(first.address() == address);
        assert(written(cells, one) == after);
        if first_failure(formula_variables(formula_of(g, address)), cells) is None {
            lemma_walk_all_written(g, after, dependents(g, address), marked, depth, journal.skip(1));
            let progress = walk(g, cells, address, marked, depth, journal)->0;
            let made = journal.len() - progress.rest.len();
            assert(journal.skip(1).skip(made - 1) =~= journal.skip(made));
            assert(journal.take(made) =~= one + journal.skip(1).take(made - 1));
            lemma_written_joined(cells, one, journal.skip(1).take(made - 1));
        }
    }
}

/// The recomputation of several cells changes the store by its writes and
/// by nothing else.
pub proof fn lemma_walk_all_written(
    g: Graph,
    cells: Cells,
    addresses: Seq<Seq<char>>,
    marked: Seq<Seq<char>>,
    depth: nat,
    journal: Seq<WriteView>,
)
    requires
        walk_all(g, cells, addresses, marked, depth, journal) is Some,
    ensures
        ({
            let progress = walk_all(g, cells, addresses, marked, depth, journal)->0;
            let made = journal.len() - progress.rest.len();
            &&& 0 <= made <= journal.len()
            &&& progress.rest == journal.skip(made)
            &&& progress.cells == written(cells, journal.take(made))
        }),
    decreases depth, 0nat, addresses.len(),
{
    if addresses.len() == 0 || depth == 0 {
        assert(journal.skip(0) =~= journal);
        assert(journal.take(0) =~= Seq::<WriteView>::empty());
    } else {
        lemma_walk_written(g, cells, addresses[0], marked, (depth - 1) as nat, journal);
        let first = walk(g, cells, addresses[0], marked, (depth - 1) as nat, journal)->0;
        lemma_walk_all_written(g, first.cells, addresses.drop_first(), marked, depth, first.rest);
        let progress = walk_all(g, cells, addresses, marked, depth, journal)->0;
        let made_first = journal.len() - first.rest.len();
        let made = journal.len() - progress.rest.len();
        assert(journal.skip(made_first).skip(made - made_first) =~= journal.skip(made));
        assert(journal.take(made) =~= journal.take(made_first) + journal.skip(made_first).take(
            made - made_first,
        ));
        lemma_written_joined(
            cells,
            journal.take(made_first),
            journal.skip(made_first).take(made - made_first),
        );
    }
}

/// The recomputation of a cell leaves every cell as it was that was marked
/// as being on a cycle or that is not downstream of the cell.
pub proof fn lemma_walk_frame(
    g: Graph,
    cells: Cells,
    address: Seq<char>,
    marked: Seq<Seq<char>>,
    depth: nat,
    journal: Seq<WriteView>,
    other: Seq<char>,
)
    requires
        walk(g, cells, address, marked, depth, journal) is Some,
        marked.contains(other) || !downstream(g, address, other),
    ensures
        value_at(walk(g, cells, address, marked, depth, journal)->0.cells, other) == value_at(
            cells,
            other,
        ),
    decreases depth, 1nat, 0nat,
{
    if !marked.contains(address) {
        lemma_downstream_of_itself(g, address);
        assert(other != address);
        let after = cells.insert(address, journal[0].value());
        if first_failure(formula_variables(formula_of(g, address)), cells) is None {
            let next = dependents(g, address);
            if !marked.contains(other) {
                assert forall|k: int| 0 <= k < next.len() implies !downstream(
                    g,
                    #[trigger] next[k],
                    other,
                ) by {
                    if downstream(g, next[k], other) {
                        lemma_downstream_of_dependent(g, address, next[k], other);
                    }
                }
            }
            lemma_walk_all_frame(g, after, next, marked, depth, journal.skip(1), other);
        }
    }
}

/// The recomputation of several cells leaves every cell as it was that was
/// marked as being on a cycle or that is downstream of none of them.
pub proof fn lemma_walk_all_frame(
    g: Graph,
    cells: Cells,
    addresses: Seq<Seq<char>>,
    marked: Seq<Seq<char>>,
    depth: nat,
    journal: Seq<WriteView>,
    other: Seq<char>,
)
    requires
        walk_all(g, cells, addresses, marked, depth, journal) is Some,
        marked.contains(other) || forall|k: int|
            0 <= k < addresses.len() ==> !downstream(g, #[trigger] addresses[k], other),
    ensures
        value_at(walk_all(g, cells, addresses, marked, depth, journal)->0.cells, other)
            == value_at(cells, other),
    decreases depth, 0nat, addresses.len(),
{
    if addresses.len() == 0 || depth == 0 {
    } else {
        let rest = addresses.drop_first();
        if !marked.contains(other) {
            assert(!downstream(g, addresses[0], other));
            assert forall|k: int| 0 <= k < rest.len() implies !downstream(
                g,
                #[trigger] rest[k],
                other,
            ) by {
                assert(rest[k] == addresses[k + 1]);
            }
        }
        lemma_walk_frame(g, cells, addresses[0], marked, (depth - 1) as nat, journal, other);
        let first = walk(g, cells, addresses[0], marked, (depth - 1) as nat, journal)->0;
        lemma_walk_all_frame(g, first.cells, rest, marked, depth, first.rest, other);
    }
}

/// After the cells of a path were marked, each of them holds the circular
/// dependency fault, and every other cell holds what it held.
pub proof fn lemma_marks(cells: Cells, stack: Seq<Seq<char>>, address: Seq<char>)
    ensures
        value_at(written(cells, marks(stack)), address) == if stack.contains(address) {
            FaultView::Circular.value()
        } else {
            value_at(cells, address)
        },
    decreases stack.len(),
{
    if stack.len() > 0 {
        let shorter = stack.drop_last();
        lemma_marks(cells, shorter, address);
        assert(marks(stack).drop_last() =~= marks(shorter));
        assert(marks(stack).last() == WriteView::Marked(stack.last()));
        if shorter.contains(address) {
            let k = choose|k: int| 0 <= k < shorter.len() && shorter[k] == address;
            assert(stack[k] == address);
        }
        if stack.contains(address) && !shorter.contains(address) {
            let k = choose|k: int| 0 <= k < stack.len() && stack[k] == address;
            if k < shorter.len() {
                assert(shorter[k] == address);
            }
        }
        assert(stack[stack.len() - 1] == stack.last());
    } else {
        assert(marks(stack) =~= Seq::<WriteView>::empty());
    }
}

/// A handled change changes the store by the writes of its journal and by
/// nothing else.
pub proof fn lemma_handled_written(
    g: Graph,
    cells: Cells,
    address: Seq<char>,
    journal: Seq<WriteView>,
)
    requires
        handled(g, cells, address, journal) is Some,
    ensures
        handled(g, cells, address, journal) == Some(written(cells, journal)),
{
    let stack = cycle_from(g, address);
    let marked_cells = written(cells, marks(stack));
    let trace = journal.skip(stack.len() as int);
    lemma_walk_all_written(g, marked_cells, dependents(g, address), stack, g.len(), trace);
    assert(trace.take(trace.len() as int) =~= trace);
    assert(journal =~= marks(stack) + trace);
    lemma_written_joined(cells, marks(stack), trace);
}

/// The cells of a cycle read back as being on a cycle: after a change was
/// handled, every cell of the path on which a cycle was found holds the
/// circular dependency fault.
pub proof fn lemma_cycle_is_marked(
    g: Graph,
    cells: Cells,
    address: Seq<char>,
    journal: Seq<WriteView>,
    member: Seq<char>,
)
    requires
        handled(g, cells, address, journal) is Some,
        cycle_from(g, address).contains(member),
    ensures
        value_at(handled(g, cells, address, journal)->0, member) == FaultView::Circular.value(),
{
    let stack = cycle_from(g, address);
    let marked_cells = written(cells, marks(stack));
    let trace = journal.skip(stack.len() as int);
    lemma_marks(cells, stack, member);
    lemma_walk_all_frame(g, marked_cells, dependents(g, address), stack, g.len(), trace, member);
}

/// A cell that reads a cell that holds an error takes the dependency fault
/// when it is recomputed: where the variables of its formula are well
/// formed and one of its upstream dependencies holds an error, the
/// recomputation writes the dependency fault to the cell and goes no
/// further.
pub proof fn lemma_recomputed_takes_fault(
    g: Graph,
    cells: Cells,
    address: Seq<char>,
    marked: Seq<Seq<char>>,
    depth: nat,
    journal: Seq<WriteView>,
    source: Seq<char>,
)
    requires
        !marked.contains(address),
        forall|k: int|
            0 <= k < formula_variables(formula_of(g, address)).len()
                ==> crate::reference::well_formed(
                #[trigger] formula_variables(formula_of(g, address))[k],
            ),
        upstream_of(formula_variables(formula_of(g, address))).contains(source),
        value_at(cells, source).is_error(),
        walk(g, cells, address, marked, depth, journal) is Some,
    ensures
        walk(g, cells, address, marked, depth, journal) == Some(
            Progress {
                cells: cells.insert(address, FaultView::Dependency.value()),
                rest: journal.skip(1),
            },
        ),
        journal[0] == WriteView::Faulted(address, FaultView::Dependency),
        value_at(walk(g, cells, address, marked, depth, journal)->0.cells, address)
            == FaultView::Dependency.value(),
{
    lemma_reads_faulted_cell(formula_variables(formula_of(g, address)), cells, source);
}

/// A change of one cell leaves alone what is not downstream of it: after
/// the change was handled, every cell that is not downstream of the
/// changed cell holds what it held. So a cell whose formula no longer
/// reads the changed cell, directly or through other cells, is no longer
/// touched by changes to it.
pub proof fn lemma_unreached_unchanged(
    g: Graph,
    cells: Cells,
    address: Seq<char>,
    journal: Seq<WriteView>,
    other: Seq<char>,
)
    requires
        handled(g, cells, address, journal) is Some,
        !downstream(g, address, other),
    ensures
        value_at(handled(g, cells, address, journal)->0, other) == value_at(cells, other),
{
    let stack = cycle_from(g, address);
    let marked_cells = written(cells, marks(stack));
    let trace = journal.skip(stack.len() as int);
    let next = dependents(g, address);
    crate::cycle_laws::lemma_detected_cycle(g, address, g.len());
    if stack.contains(other) {
        let i = choose|i: int| 0 <= i < stack.len() && stack[i] == other;
        assert(downstream(g, address, stack[i]));
    }
    lemma_marks(cells, stack, other);
    assert forall|k: int| 0 <= k < next.len() implies !downstream(g, #[trigger] next[k], other) by {
        if downstream(g, next[k], other) {
            lemma_downstream_of_dependent(g, address, next[k], other);
        }
    }
    lemma_walk_all_frame(g, marked_cells, next, stack, g.len(), trace, other);
}

/// The cells of the trail are a path of cells that differ, each with a
/// node, from a cell that has no cycle downstream.
pub open spec fn clear_trail(g: Graph, trail: Seq<Seq<char>>) -> bool {
    &&& trail.len() > 0
    &&& path(g, trail)
    &&& trail.no_duplicates()
    &&& all_nodes(g, trail)
    &&& !cycle_downstream(g, trail[0])
}

/// A clear trail that is continued by a dependent of its last cell is a
/// clear trail, and so it is shorter than the graph has nodes.
proof fn lemma_trail_grows(g: Graph, trail: Seq<Seq<char>>, next: Seq<char>)
    requires
        well_formed(g),
        clear_trail(g, trail),
        dependents(g, trail.last()).contains(next),
    ensures
        clear_trail(g, trail.push(next)),
        trail.len() < g.len(),
{
    let grown = trail.push(next);
    assert forall|i: int| 0 <= i < grown.len() - 1 implies dependents(g, grown[i]).contains(
        #[trigger] grown[i + 1],
    ) by {
        if i < trail.len() - 1 {
            assert(grown[i] == trail[i]);
            assert(grown[i + 1] == trail[i + 1]);
            assert(dependents(g, trail[i]).contains(trail[i + 1]));
        } else {
            assert(grown[i] == trail.last());
            assert(grown[i + 1] == next);
        }
    }
    crate::graph::lemma_position(g, trail.last());
    assert(has_node(g, trail[trail.len() - 1]));
    let p = crate::graph::position(g, trail.last()) as int;
    let k = choose|k: int| 0 <= k < g[p].neighbors.len() && g[p].neighbors[k] == next;
    assert(has_node(g, g[p].neighbors[k]));
    assert forall|i: int| 0 <= i < grown.len() implies has_node(g, #[trigger] grown[i]) by {
        if i < trail.len() {
            assert(grown[i] == trail[i]);
            assert(has_node(g, trail[i]));
        }
    }
    if trail.contains(next) {
        let j = choose|j: int| 0 <= j < trail.len() && trail[j] == next;
        let round = trail.skip(j).push(next);
        assert forall|i: int| 0 <= i < round.len() - 1 implies dependents(g, round[i]).contains(
            #[trigger] round[i + 1],
        ) by {
            assert(round[i] == trail[j + i]);
            if i < round.len() - 2 {
                assert(round[i + 1] == trail[j + i + 1]);
                assert(dependents(g, trail[j + i]).contains(trail[j + i + 1]));
            } else {
                assert(round[i] == trail.last());
                assert(round[i + 1] == next);
            }
        }
        assert(round.len() >= 2 && path(g, round) && round[0] == next && round.last() == next);
        assert(on_cycle(g, next));
        crate::cycle_laws::lemma_path_is_downstream(g, trail, j);
        assert(downstream(g, trail[0], trail[j]));
        assert(cycle_downstream(g, trail[0]));
    }
    assert(grown[0] == trail[0]);
    lemma_no_more_than_nodes(g, grown);
}

/// Recomputation is not cut short where there is no cycle: from the end
/// of a clear trail, going as deep as there are nodes that the trail has
/// not used is going deep enough, and going deeper changes nothing.
pub proof fn lemma_walk_depth(
    g: Graph,
    cells: Cells,
    trail: Seq<Seq<char>>,
    marked: Seq<Seq<char>>,
    depth: nat,
    deeper: nat,
    journal: Seq<WriteView>,
)
    requires
        well_formed(g),
        clear_trail(g, trail),
        depth + trail.len() >= g.len(),
        deeper + trail.len() >= g.len(),
    ensures
        walk(g, cells, trail.last(), marked, depth, journal) == walk(
            g,
            cells,
            trail.last(),
            marked,
            deeper,
            journal,
        ),
    decreases depth, 1nat, 0nat,
{
    let address = trail.last();
    if !marked.contains(address) && journal.len() > 0 {
        if first_failure(formula_variables(formula_of(g, address)), cells) is None {
            let after = cells.insert(address, journal[0].value());
            let next = dependents(g, address);
            assert(next.skip(0) =~= next);
            lemma_walk_all_depth(g, after, trail, 0, marked, depth, deeper, journal.skip(1));
        }
    }
}

/// Recomputation of the dependents of the last cell of a clear trail, from
/// the `k`-th on, is not cut short where there is no cycle.
pub proof fn lemma_walk_all_depth(
    g: Graph,
    cells: Cells,
    trail: Seq<Seq<char>>,
    k: int,
    marked: Seq<Seq<char>>,
    depth: nat,
    deeper: nat,
    journal: Seq<WriteView>,
)
    requires
        well_formed(g),
        clear_trail(g, trail),
        0 <= k <= dependents(g, trail.last()).len(),
        depth + trail.len() >= g.len(),
        deeper + trail.len() >= g.len(),
    ensures
        walk_all(g, cells, dependents(g, trail.last()).skip(k), marked, depth, journal)
            == walk_all(
            g,
            cells,
            dependents(g, trail.last()).skip(k),
            marked,
            deeper,
            journal,
        ),
    decreases depth, 0nat, dependents(g, trail.last()).len() - k,
{
    let all = dependents(g, trail.last());
    let here = all.skip(k);
    if k < all.len() {
        let next = all[k];
        assert(here[0] == next);
        assert(here.drop_first() =~= all.skip(k + 1));
        assert(all.contains(all[k]));
        lemma_trail_grows(g, trail, next);
        let grown = trail.push(next);
        assert(grown.last() == next);
        assert(depth > 0 && deeper > 0);
        lemma_walk_depth(g, cells, grown, marked, (depth - 1) as nat, (deeper - 1) as nat, journal);
        match walk(g, cells, next, marked, (depth - 1) as nat, journal) {
            Some(progress) => {
                lemma_walk_all_depth(
                    g,
                    progress.cells,
                    trail,
                    k + 1,
                    marked,
                    depth,
                    deeper,
                    progress.rest,
                );
            },
            None => {},
        }
    }
}

/// Handling a change is not cut short where there is no cycle: where no
/// cell downstream of the changed cell is on a cycle, the dependents of
/// the cell and the cells downstream of them are recomputed as if there
/// were no limit to the depth.
pub proof fn lemma_depth_suffices(
    g: Graph,
    cells: Cells,
    address: Seq<char>,
    marked: Seq<Seq<char>>,
    deeper: nat,
    journal: Seq<WriteView>,
)
    requires
        well_formed(g),
        !cycle_downstream(g, address),
        deeper >= g.len(),
    ensures
        walk_all(g, cells, dependents(g, address), marked, deeper, journal) == walk_all(
            g,
            cells,
            dependents(g, address),
            marked,
            g.len(),
            journal,
        ),
{
    let next = dependents(g, address);
    if has_node(g, address) {
        let trail = seq![address];
        assert(path(g, trail));
        assert(trail.last() == address);
        assert(next.skip(0) =~= next);
        lemma_walk_all_depth(g, cells, trail, 0, marked, g.len(), deeper, journal);
    } else {
        assert(next.len() == 0);
    }
}

/// A walk that has come to its end has handled the change. Where the
/// journal is the marks of the cycle found from the changed cell followed
/// by the writes of the steps, and the walk over the dependents of the
/// cell, no deeper than the graph has nodes, ends with these writes in the
/// given store, the change is handled and has left that store.
pub proof fn lemma_walk_handles(
    g: Graph,
    cells: Cells,
    address: Seq<char>,
    trace: Seq<WriteView>,
    left: Cells,
)
    requires
        walk_frames(
            g,
            written(cells, marks(cycle_from(g, address))),
            seq![FrameView { addresses: dependents(g, address), depth: g.len() }],
            cycle_from(g, address),
            trace,
        ) == Some(Progress { cells: left, rest: Seq::empty() }),
    ensures
        handled(g, cells, address, marks(cycle_from(g, address)) + trace) == Some(left),
{
    let stack = cycle_from(g, address);
    let journal = marks(stack) + trace;
    let frames = seq![FrameView { addresses: dependents(g, address), depth: g.len() }];
    let marked_cells = written(cells, marks(stack));
    assert(journal.take(marks(stack).len() as int) =~= marks(stack));
    assert(journal.skip(stack.len() as int) =~= trace);
    assert(frames.drop_last() =~= Seq::<FrameView>::empty());
    match walk_all(g, marked_cells, dependents(g, address), stack, g.len(), trace) {
        Some(progress) => {
            assert(walk_frames(g, progress.cells, frames.drop_last(), stack, progress.rest)
                == Some(progress));
        },
        None => {},
    }
}

/// The recomputation of several cells is the recomputation of the first
/// `k` of them followed by that of the others, in the store and with the
/// journal that the first left.
pub proof fn lemma_walk_all_split(
    g: Graph,
    cells: Cells,
    addresses: Seq<Seq<char>>,
    k: int,
    marked: Seq<Seq<char>>,
    depth: nat,
    journal: Seq<WriteView>,
)
    requires
        0 <= k <= addresses.len(),
    ensures
        walk_all(g, cells, addresses, marked, depth, journal) == match walk_all(
            g,
            cells,
            addresses.take(k),
            marked,
            depth,
            journal,
        ) {
            None => None,
            Some(progress) => walk_all(
                g,
                progress.cells,
                addresses.skip(k),
                marked,
                depth,
                progress.rest,
            ),
        },
    decreases k,
{
    if k == 0 || depth == 0 {
        assert(addresses.skip(0) =~= addresses);
        if k == 0 {
            assert(addresses.take(0) =~= Seq::<Seq<char>>::empty());
        }
    } else {
        let first = addresses.take(k);
        assert(first[0] == addresses[0]);
        assert(first.drop_first() =~= addresses.drop_first().take(k - 1));
        assert(addresses.drop_first().skip(k - 1) =~= addresses.skip(k));
        match walk(g, cells, addresses[0], marked, (depth - 1) as nat, journal) {
            Some(progress) => {
                lemma_walk_all_split(
                    g,
                    progress.cells,
                    addresses.drop_first(),
                    k - 1,
                    marked,
                    depth,
                    progress.rest,
                );
            },
            None => {},
        }
    }
}

/// The store and the journal as they are when the `k`-th of several cells
/// is reached: what the recomputation of the cells before it left.
pub open spec fn reached(
    g: Graph,
    cells: Cells,
    addresses: Seq<Seq<char>>,
    k: int,
    marked: Seq<Seq<char>>,
    depth: nat,
    journal: Seq<WriteView>,
) -> Option<Progress> {
    walk_all(g, cells, addresses.take(k), marked, depth, journal)
}

/// Within a whole recomputation, a cell that reads a cell that holds an
/// error takes the dependency fault, and the recomputation goes on with the
/// cells after it. Where the `k`-th of several cells is not marked, the
/// variables of its formula are well formed, and one of its upstream
/// dependencies holds an error in the store as it is when the cell is
/// reached, then the cell takes the dependency fault, nothing else is
/// written on its account, so that the cells downstream of it are left as
/// they were unless they are reached another way, and the cells after it
/// are recomputed in the store that this leaves.
pub proof fn lemma_faulted_within(
    g: Graph,
    cells: Cells,
    addresses: Seq<Seq<char>>,
    k: int,
    marked: Seq<Seq<char>>,
    depth: nat,
    journal: Seq<WriteView>,
    source: Seq<char>,
)
    requires
        0 <= k < addresses.len(),
        depth > 0,
        walk_all(g, cells, addresses, marked, depth, journal) is Some,
        !marked.contains(addresses[k]),
        forall|i: int|
            0 <= i < formula_variables(formula_of(g, addresses[k])).len()
                ==> crate::reference::well_formed(
                #[trigger] formula_variables(formula_of(g, addresses[k]))[i],
            ),
        upstream_of(formula_variables(formula_of(g, addresses[k]))).contains(source),
        reached(g, cells, addresses, k, marked, depth, journal) matches Some(before)
            ==> value_at(before.cells, source).is_error(),
    ensures
        reached(g, cells, addresses, k, marked, depth, journal) is Some,
        ({
            let before = reached(g, cells, addresses, k, marked, depth, journal)->0;
            let after = Progress {
                cells: before.cells.insert(addresses[k], FaultView::Dependency.value()),
                rest: before.rest.skip(1),
            };
            &&& before.rest.len() > 0
            &&& before.rest[0] == WriteView::Faulted(addresses[k], FaultView::Dependency)
            &&& reached(g, cells, addresses, k + 1, marked, depth, journal) == Some(after)
            &&& walk_all(g, cells, addresses, marked, depth, journal) == walk_all(
                g,
                after.cells,
                addresses.skip(k + 1),
                marked,
                depth,
                after.rest,
            )
        }),
{
    lemma_walk_all_split(g, cells, addresses, k, marked, depth, journal);
    lemma_walk_all_split(g, cells, addresses, k + 1, marked, depth, journal);
    let before = reached(g, cells, addresses, k, marked, depth, journal)->0;
    let here = addresses.skip(k);
    assert(here[0] == addresses[k]);
    assert(here.drop_first() =~= addresses.skip(k + 1));
    let step = walk(g, before.cells, addresses[k], marked, (depth - 1) as nat, before.rest);
    assert(step is Some);
    lemma_recomputed_takes_fault(
        g,
        before.cells,
        addresses[k],
        marked,
        (depth - 1) as nat,
        before.rest,
        source,
    );
    lemma_walk_all_split(g, cells, addresses.take(k + 1), k, marked, depth, journal);
    assert(addresses.take(k + 1).take(k) =~= addresses.take(k));
    let one = addresses.take(k + 1).skip(k);
    assert(one[0] == addresses[k]);
    assert(one.drop_first() =~= Seq::<Seq<char>>::empty());
    assert(walk_all(g, before.cells, one, marked, depth, before.rest) == match step {
        None => None,
        Some(progress) => walk_all(
            g,
            progress.cells,
            one.drop_first(),
            marked,
            depth,
            progress.rest,
        ),
    });
}

} // verus!
