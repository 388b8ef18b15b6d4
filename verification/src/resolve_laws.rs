//! What resolution means: a range is read the same way whichever corner
//! is written first, and a formula that reads a cell that holds an error
//! does not resolve.

use vstd::prelude::*;
use crate::address::cell_address;
use crate::reference::{
    left_corner, lemma_address_characters, lemma_before_underscore_is, matrix_cells,
    matrix_token, range_token, right_corner, vector_cells, vector_token, well_formed,
};
use crate::resolve::{
    any_fault, first_failure, reads_fault, token_argument, token_failure, upstream_from,
    upstream_of, with_address, with_addresses, with_rows, with_token,
};
use crate::store::{value_at, Cells};
use crate::value::FaultView;

verus! {

/// The range written with the given corners.
pub open spec fn range_of(first: Seq<char>, second: Seq<char>) -> Seq<char> {
    first + seq!['_'] + second
}

/// The corners of a range are the two addresses that it was written with.
pub proof fn lemma_corners(first: Seq<char>, second: Seq<char>)
    requires
        cell_address(first),
        cell_address(second),
    ensures
        left_corner(range_of(first, second)) == first,
        right_corner(range_of(first, second)) == second,
        range_token(range_of(first, second)),
        !cell_address(range_of(first, second)),
{
    let t = range_of(first, second);
    lemma_address_characters(first);
    assert forall|i: int| 0 <= i < first.len() implies #[trigger] t[i] != '_' by {
        assert(t[i] == first[i]);
    }
    assert(t[first.len() as int] == '_');
    lemma_before_underscore_is(t, first.len() as int);
    assert(left_corner(t) =~= first);
    assert(right_corner(t) =~= second);
    if cell_address(t) {
        lemma_address_characters(t);
    }
}

/// A range stands for the same cells in the same order whichever corner is
/// written first: the two ways of writing it are well formed together, and
/// then they name the same cells, read an error together, resolve to the
/// same argument and add the same addresses to the upstream dependencies.
pub proof fn lemma_corner_order(first: Seq<char>, second: Seq<char>, cells: Cells)
    requires
        cell_address(first),
        cell_address(second),
    ensures
        vector_token(range_of(first, second)) <==> vector_token(range_of(second, first)),
        matrix_token(range_of(first, second)) <==> matrix_token(range_of(second, first)),
        well_formed(range_of(first, second)) <==> well_formed(range_of(second, first)),
        vector_token(range_of(first, second)) ==> vector_cells(range_of(first, second))
            == vector_cells(range_of(second, first)),
        matrix_token(range_of(first, second)) ==> matrix_cells(range_of(first, second))
            == matrix_cells(range_of(second, first)),
        well_formed(range_of(first, second)) ==> {
            &&& reads_fault(range_of(first, second), cells) <==> reads_fault(
                range_of(second, first),
                cells,
            )
            &&& token_argument(range_of(first, second), cells) == token_argument(
                range_of(second, first),
                cells,
            )
            &&& forall|list: Seq<Seq<char>>|
                with_token(list, range_of(first, second)) == with_token(
                    list,
                    range_of(second, first),
                )
        },
{
    let t = range_of(first, second);
    let u = range_of(second, first);
    lemma_corners(first, second);
    lemma_corners(second, first);
    if vector_token(t) {
        assert(vector_cells(t) =~= vector_cells(u));
    }
    if matrix_token(t) {
        assert(matrix_cells(t) =~= matrix_cells(u));
    }
}

/// The variable names the cell at the address: it is the address, or the
/// address is that of a cell of the range.
pub open spec fn names(t: Seq<char>, address: Seq<char>) -> bool {
    if cell_address(t) {
        t == address
    } else if vector_token(t) {
        vector_cells(t).contains(address)
    } else {
        exists|j: int| 0 <= j < matrix_cells(t).len() && (#[trigger] matrix_cells(t)[j]).contains(address)
    }
}

/// A list with addresses added holds what it held and what was added.
pub proof fn lemma_with_addresses(list: Seq<Seq<char>>, more: Seq<Seq<char>>)
    ensures
        forall|x: Seq<char>|
            with_addresses(list, more).contains(x) <==> list.contains(x) || more.contains(x),
        list.no_duplicates() ==> with_addresses(list, more).no_duplicates(),
    decreases more.len(),
{
    if more.len() > 0 {
        let rest = more.drop_first();
        let grown = with_address(list, more[0]);
        crate::graph_laws::lemma_with_address(list, more[0]);
        lemma_with_addresses(grown, rest);
        assert forall|x: Seq<char>|
            with_addresses(list, more).contains(x) <==> list.contains(x) || more.contains(x) by {
            if more.contains(x) {
                let k = choose|k: int| 0 <= k < more.len() && more[k] == x;
                if k > 0 {
                    assert(rest[k - 1] == x);
                }
            }
            if rest.contains(x) {
                let k = choose|k: int| 0 <= k < rest.len() && rest[k] == x;
                assert(more[k + 1] == x);
            }
        }
    }
}

/// A list with the addresses of rows added holds what it held and what the
/// rows hold.
pub proof fn lemma_with_rows(list: Seq<Seq<char>>, rows: Seq<Seq<Seq<char>>>)
    ensures
        forall|x: Seq<char>|
            with_rows(list, rows).contains(x) <==> list.contains(x) || exists|j: int|
                0 <= j < rows.len() && (#[trigger] rows[j]).contains(x),
        list.no_duplicates() ==> with_rows(list, rows).no_duplicates(),
    decreases rows.len(),
{
    if rows.len() > 0 {
        let rest = rows.drop_first();
        let grown = with_addresses(list, rows[0]);
        lemma_with_addresses(list, rows[0]);
        lemma_with_rows(grown, rest);
        assert forall|x: Seq<char>|
            with_rows(list, rows).contains(x) <==> list.contains(x) || exists|j: int|
                0 <= j < rows.len() && (#[trigger] rows[j]).contains(x) by {
            if exists|j: int| 0 <= j < rows.len() && (#[trigger] rows[j]).contains(x) {
                let j = choose|j: int| 0 <= j < rows.len() && (#[trigger] rows[j]).contains(x);
                if j > 0 {
                    assert(rest[j - 1].contains(x));
                }
            }
            if exists|j: int| 0 <= j < rest.len() && (#[trigger] rest[j]).contains(x) {
                let j = choose|j: int| 0 <= j < rest.len() && (#[trigger] rest[j]).contains(x);
                assert(rows[j + 1].contains(x));
            }
            if rows[0].contains(x) {
                assert(0 <= 0 < rows.len() && rows[0].contains(x));
            }
        }
    }
}

/// A list with the addresses of a variable added holds what it held and
/// the addresses that the variable names.
pub proof fn lemma_with_token(list: Seq<Seq<char>>, t: Seq<char>)
    ensures
        forall|x: Seq<char>| with_token(list, t).contains(x) <==> list.contains(x) || names(t, x),
        list.no_duplicates() ==> with_token(list, t).no_duplicates(),
{
    crate::graph_laws::lemma_with_address(list, t);
    lemma_with_addresses(list, vector_cells(t));
    lemma_with_rows(list, matrix_cells(t));
    assert forall|x: Seq<char>| with_token(list, t).contains(x) <==> list.contains(x) || names(
        t,
        x,
    ) by {
        if cell_address(t) {
            assert(with_address(list, t).contains(x) <==> list.contains(x) || x == t);
        } else if vector_token(t) {
        } else {
            let rows = matrix_cells(t);
            assert(with_rows(list, rows).contains(x) <==> list.contains(x) || exists|j: int|
                0 <= j < rows.len() && (#[trigger] rows[j]).contains(x));
        }
    }
}

/// The upstream dependencies of a formula are the cells that its variables
/// name, each once.
pub proof fn lemma_upstream(list: Seq<Seq<char>>, tokens: Seq<Seq<char>>)
    ensures
        forall|x: Seq<char>|
            upstream_from(list, tokens).contains(x) <==> list.contains(x) || exists|i: int|
                0 <= i < tokens.len() && names(#[trigger] tokens[i], x),
        list.no_duplicates() ==> upstream_from(list, tokens).no_duplicates(),
    decreases tokens.len(),
{
    if tokens.len() > 0 {
        let rest = tokens.drop_first();
        let grown = with_token(list, tokens[0]);
        lemma_with_token(list, tokens[0]);
        lemma_upstream(grown, rest);
        assert forall|x: Seq<char>|
            upstream_from(list, tokens).contains(x) <==> list.contains(x) || exists|i: int|
                0 <= i < tokens.len() && names(#[trigger] tokens[i], x) by {
            if exists|i: int| 0 <= i < tokens.len() && names(#[trigger] tokens[i], x) {
                let i = choose|i: int| 0 <= i < tokens.len() && names(#[trigger] tokens[i], x);
                if i > 0 {
                    assert(names(rest[i - 1], x));
                }
            }
            if exists|i: int| 0 <= i < rest.len() && names(#[trigger] rest[i], x) {
                let i = choose|i: int| 0 <= i < rest.len() && names(#[trigger] rest[i], x);
                assert(names(tokens[i + 1], x));
            }
            if names(tokens[0], x) {
                assert(0 <= 0 < tokens.len() && names(tokens[0], x));
            }
        }
    }
}

/// A well-formed variable that names a cell that holds an error does not
/// resolve.
pub proof fn lemma_names_fault(t: Seq<char>, cells: Cells, address: Seq<char>)
    requires
        well_formed(t),
        names(t, address),
        value_at(cells, address).is_error(),
    ensures
        token_failure(t, cells) == Some(FaultView::Dependency),
{
    if cell_address(t) {
    } else if vector_token(t) {
        let k = choose|k: int| 0 <= k < vector_cells(t).len() && vector_cells(t)[k] == address;
        assert(value_at(cells, vector_cells(t)[k]).is_error());
    } else {
        let j = choose|j: int|
            0 <= j < matrix_cells(t).len() && (#[trigger] matrix_cells(t)[j]).contains(address);
        let row = matrix_cells(t)[j];
        let k = choose|k: int| 0 <= k < row.len() && row[k] == address;
        assert(value_at(cells, row[k]).is_error());
        assert(any_fault(cells, matrix_cells(t)[j]));
    }
}

/// Where every variable is well formed and one of them does not resolve,
/// the fault is the dependency fault.
pub proof fn lemma_first_failure(tokens: Seq<Seq<char>>, cells: Cells, i: int)
    requires
        forall|k: int| 0 <= k < tokens.len() ==> well_formed(#[trigger] tokens[k]),
        0 <= i < tokens.len(),
        token_failure(tokens[i], cells) is Some,
    ensures
        first_failure(tokens, cells) == Some(FaultView::Dependency),
    decreases tokens.len(),
{
    assert(well_formed(tokens[0]));
    if token_failure(tokens[0], cells) is Some {
    } else {
        let rest = tokens.drop_first();
        assert forall|k: int| 0 <= k < rest.len() implies well_formed(#[trigger] rest[k]) by {
            assert(rest[k] == tokens[k + 1]);
        }
        assert(rest[i - 1] == tokens[i]);
        lemma_first_failure(rest, cells, i - 1);
    }
}

/// A formula that reads a cell that holds an error does not resolve: where its
/// variables are well formed and a cell among its upstream dependencies
/// holds an error, resolution fails with the dependency fault.
pub proof fn lemma_reads_faulted_cell(tokens: Seq<Seq<char>>, cells: Cells, address: Seq<char>)
    requires
        forall|k: int| 0 <= k < tokens.len() ==> well_formed(#[trigger] tokens[k]),
        upstream_of(tokens).contains(address),
        value_at(cells, address).is_error(),
    ensures
        first_failure(tokens, cells) == Some(FaultView::Dependency),
{
    lemma_upstream(Seq::empty(), tokens);
    assert(!Seq::<Seq<char>>::empty().contains(address));
    let i = choose|i: int| 0 <= i < tokens.len() && names(#[trigger] tokens[i], address);
    assert(well_formed(tokens[i]));
    lemma_names_fault(tokens[i], cells, address);
    lemma_first_failure(tokens, cells, i);
}

} // verus!
