//! Resolving a formula's variables against the cell store: each variable
//! becomes the value, the row of values or the rows of values that it
//! names, and the addresses read are recorded.

use vstd::prelude::*;
use crate::address::cell_address;
use crate::column::{decimal_digits, row_text};
use crate::reference::{
    cells_in_row, classify, matrix_cells, vector_cells, vector_token, well_formed, Shape,
};
use crate::store::{value_at, CellStore, Cells};
use crate::text::texts_view;
use crate::value::{Fault, FaultView, Value, ValueView};

verus! {

/// What a variable resolves to.
#[derive(Debug, PartialEq, Eq)]
pub enum Argument {
    /// The value of one cell.
    Value(Value),
    /// The values of a run of cells on one row, left to right.
    Vector(Vec<Value>),
    /// The values of a rectangle of cells: its rows from the top down, each
    /// from left to right.
    Matrix(Vec<Vec<Value>>),
}

/// The mathematical value of an [`Argument`].
pub enum ArgumentView {
    Value(ValueView),
    Vector(Seq<ValueView>),
    Matrix(Seq<Seq<ValueView>>),
}

/// The values of a row of values.
pub open spec fn values_view(row: Seq<Value>) -> Seq<ValueView> {
    Seq::new(row.len(), |i: int| row[i]@)
}

/// The values of rows of values.
pub open spec fn rows_view(rows: Seq<Vec<Value>>) -> Seq<Seq<ValueView>> {
    Seq::new(rows.len(), |j: int| values_view(rows[j]@))
}

impl View for Argument {
    type V = ArgumentView;

    open spec fn view(&self) -> ArgumentView {
        match self {
            Argument::Value(v) => ArgumentView::Value(v@),
            Argument::Vector(row) => ArgumentView::Vector(values_view(row@)),
            Argument::Matrix(rows) => ArgumentView::Matrix(rows_view(rows@)),
        }
    }
}

/// The arguments of a list of arguments.
pub open spec fn arguments_view(arguments: Seq<Argument>) -> Seq<ArgumentView> {
    Seq::new(arguments.len(), |i: int| arguments[i]@)
}

/// The current values of the cells at the given addresses, in their order.
pub open spec fn values_at(cells: Cells, addresses: Seq<Seq<char>>) -> Seq<ValueView> {
    Seq::new(addresses.len(), |i: int| value_at(cells, addresses[i]))
}

/// Some cell at the given addresses holds an error.
pub open spec fn any_fault(cells: Cells, addresses: Seq<Seq<char>>) -> bool {
    exists|i: int| 0 <= i < addresses.len() && (#[trigger] value_at(cells, addresses[i])).is_error()
}

/// Some cell of the given rows of addresses holds an error.
pub open spec fn any_fault_in_rows(cells: Cells, rows: Seq<Seq<Seq<char>>>) -> bool {
    exists|j: int| 0 <= j < rows.len() && any_fault(cells, #[trigger] rows[j])
}

/// Some cell that a well-formed variable names holds an error.
pub open spec fn reads_fault(t: Seq<char>, cells: Cells) -> bool {
    if cell_address(t) {
        value_at(cells, t).is_error()
    } else if vector_token(t) {
        any_fault(cells, vector_cells(t))
    } else {
        any_fault_in_rows(cells, matrix_cells(t))
    }
}

/// Why a variable does not resolve, if it does not: it has none of the
/// three shapes, or a cell that it names holds an error.
pub open spec fn token_failure(t: Seq<char>, cells: Cells) -> Option<FaultView> {
    if !well_formed(t) {
        Some(FaultView::Format(t))
    } else if reads_fault(t, cells) {
        Some(FaultView::Dependency)
    } else {
        None
    }
}

/// What a well-formed variable resolves to.
pub open spec fn token_argument(t: Seq<char>, cells: Cells) -> ArgumentView {
    if cell_address(t) {
        ArgumentView::Value(value_at(cells, t))
    } else if vector_token(t) {
        ArgumentView::Vector(values_at(cells, vector_cells(t)))
    } else {
        ArgumentView::Matrix(
            Seq::new(matrix_cells(t).len(), |j: int| values_at(cells, matrix_cells(t)[j])),
        )
    }
}

/// A list of addresses with one more, unless it holds it already.
pub open spec fn with_address(list: Seq<Seq<char>>, address: Seq<char>) -> Seq<Seq<char>> {
    if list.contains(address) {
        list
    } else {
        list.push(address)
    }
}

/// A list of addresses with more of them, each added in turn unless the
/// list holds it already.
pub open spec fn with_addresses(list: Seq<Seq<char>>, more: Seq<Seq<char>>) -> Seq<Seq<char>>
    decreases more.len(),
{
    if more.len() == 0 {
        list
    } else {
        with_addresses(with_address(list, more[0]), more.drop_first())
    }
}

/// A list of addresses with those of some rows, row after row.
pub open spec fn with_rows(list: Seq<Seq<char>>, rows: Seq<Seq<Seq<char>>>) -> Seq<Seq<char>>
    decreases rows.len(),
{
    if rows.len() == 0 {
        list
    } else {
        with_rows(with_addresses(list, rows[0]), rows.drop_first())
    }
}

/// A list of addresses with those that a well-formed variable names, in the
/// order in which they are read.
pub open spec fn with_token(list: Seq<Seq<char>>, t: Seq<char>) -> Seq<Seq<char>> {
    if cell_address(t) {
        with_address(list, t)
    } else if vector_token(t) {
        with_addresses(list, vector_cells(t))
    } else {
        with_rows(list, matrix_cells(t))
    }
}

/// The addresses that a list of variables names: each once, in the order in
/// which it is first read.
pub open spec fn upstream_from(list: Seq<Seq<char>>, tokens: Seq<Seq<char>>) -> Seq<Seq<char>>
    decreases tokens.len(),
{
    if tokens.len() == 0 {
        list
    } else {
        upstream_from(with_token(list, tokens[0]), tokens.drop_first())
    }
}

/// The fault of the first variable that does not resolve, if there is one.
pub open spec fn first_failure(tokens: Seq<Seq<char>>, cells: Cells) -> Option<FaultView>
    decreases tokens.len(),
{
    if tokens.len() == 0 {
        None
    } else if token_failure(tokens[0], cells) is Some {
        token_failure(tokens[0], cells)
    } else {
        first_failure(tokens.drop_first(), cells)
    }
}

/// What the variables resolve to, one argument for each, in their order.
pub open spec fn arguments_of(tokens: Seq<Seq<char>>, cells: Cells) -> Seq<ArgumentView> {
    Seq::new(tokens.len(), |i: int| token_argument(tokens[i], cells))
}

/// The addresses that the variables name: the upstream dependencies of a
/// formula with these variables.
pub open spec fn upstream_of(tokens: Seq<Seq<char>>) -> Seq<Seq<char>> {
    upstream_from(Seq::empty(), tokens)
}

/// The addresses of the cells of a rectangle: its rows from the top down,
/// each from left to right, the rows written in decimal.
pub open spec fn rectangle(first_column: u32, last_column: u32, first_row: u32, last_row: u32) -> Seq<
    Seq<Seq<char>>,
> {
    Seq::new(
        (last_row - first_row + 1) as nat,
        |j: int|
            cells_in_row(
                first_column as int,
                last_column as int,
                decimal_digits(first_row as nat + j as nat),
            ),
    )
}

/// The variables of a formula, resolved.
pub struct Resolved {
    /// What each variable resolves to, in the variables' order.
    pub arguments: Vec<Argument>,
    /// The addresses read: each once, in the order of first reading.
    pub upstream: Vec<String>,
}

/// The value of a cell for a formula that reads it: the cell's value, or
/// the dependency fault where the cell holds an error of any kind.
pub fn get_cell_value(current_cell: &str, cells: &CellStore) -> (r: Result<Value, Fault>)
    ensures
        match r {
            Ok(value) => {
                &&& !value_at(cells@, current_cell@).is_error()
                &&& value@ == value_at(cells@, current_cell@)
            },
            Err(fault) => {
                &&& value_at(cells@, current_cell@).is_error()
                &&& fault@ == FaultView::Dependency
            },
        },
{
    let value = cells.get(current_cell);
    if value.is_error() {
        Err(Fault::Dependency)
    } else {
        Ok(value)
    }
}

/// Whether the list holds the address.
pub fn holds_address(list: &Vec<String>, address: &str) -> (r: bool)
    ensures
        r == texts_view(list@).contains(address@),
{
    let mut i: usize = 0;
    while i < list.len()
        invariant
            i <= list.len(),
            forall|j: int| 0 <= j < i ==> texts_view(list@)[j] != address@,
        decreases list.len() - i,
    {
        if crate::text::same_text(list[i].as_str(), address) {
            assert(texts_view(list@)[i as int] == address@);
            return true;
        }
        i += 1;
    }
    false
}

/// Adds the address to the list unless the list holds it already.
pub fn add_address(list: &mut Vec<String>, address: String)
    ensures
        texts_view(final(list)@) == with_address(texts_view(old(list)@), address@),
{
    if !holds_address(list, address.as_str()) {
        list.push(address);
        assert(texts_view(list@) =~= texts_view(old(list)@).push(address@));
    }
}

/// Reads the cells of one row from column `first` to column `last`, left to
/// right, and stops at the first that holds an error.
fn read_row(first: u32, last: u32, row: &str, cells: &CellStore, upstream: &mut Vec<String>) -> (r:
    Result<Vec<Value>, Fault>)
    requires
        first <= last < u32::MAX,
    ensures
        match r {
            Ok(values) => {
                &&& !any_fault(cells@, cells_in_row(first as int, last as int, row@))
                &&& values_view(values@) == values_at(
                    cells@,
                    cells_in_row(first as int, last as int, row@),
                )
                &&& texts_view(final(upstream)@) == with_addresses(
                    texts_view(old(upstream)@),
                    cells_in_row(first as int, last as int, row@),
                )
            },
            Err(fault) => {
                &&& any_fault(cells@, cells_in_row(first as int, last as int, row@))
                &&& fault@ == FaultView::Dependency
            },
        },
{
    let ghost all = cells_in_row(first as int, last as int, row@);
    let ghost before = texts_view(upstream@);
    let mut values: Vec<Value> = Vec::new();
    let mut col: u32 = first;
    assert(all.skip(0) =~= all);
    while col <= last
        invariant
            first <= col <= last + 1,
            last < u32::MAX,
            all == cells_in_row(first as int, last as int, row@),
            values.len() == col - first,
            forall|i: int| 0 <= i < col - first ==> !(#[trigger] value_at(cells@, all[i])).is_error(),
            forall|i: int| 0 <= i < col - first ==> values@[i]@ == value_at(cells@, all[i]),
            with_addresses(texts_view(upstream@), all.skip(col - first)) == with_addresses(
                before,
                all,
            ),
        decreases last + 1 - col,
    {
        let mut current_cell = rsheet_lib::cells::column_number_to_name(col);
        current_cell.append(row);
        let ghost i = col - first;
        assert(current_cell@ == all[i]);
        proof {
            assert(all.skip(i)[0] == all[i]);
            assert(all.skip(i).drop_first() == all.skip(i + 1));
        }
        let found = get_cell_value(current_cell.as_str(), cells);
        let ghost earlier = texts_view(upstream@);
        add_address(upstream, current_cell);
        assert(with_addresses(earlier, all.skip(i)) == with_addresses(
            texts_view(upstream@),
            all.skip(i + 1),
        ));
        match found {
            Ok(value) => {
                values.push(value);
            },
            Err(fault) => {
                return Err(fault);
            },
        }
        col += 1;
    }
    proof {
        assert(all.skip(col - first) =~= Seq::<Seq<char>>::empty());
        assert(values_view(values@) =~= values_at(cells@, all));
    }
    Ok(values)
}

/// Reads the cells of a rectangle, row after row from the top down, and
/// stops at the first that holds an error.
fn read_rows(
    first_column: u32,
    last_column: u32,
    first_row: u32,
    last_row: u32,
    cells: &CellStore,
    upstream: &mut Vec<String>,
) -> (r: Result<Vec<Vec<Value>>, Fault>)
    requires
        first_column <= last_column < u32::MAX,
        first_row <= last_row,
    ensures
        match r {
            Ok(rows) => {
                &&& !any_fault_in_rows(
                    cells@,
                    rectangle(first_column, last_column, first_row, last_row),
                )
                &&& rows_view(rows@) == Seq::new(
                    rectangle(first_column, last_column, first_row, last_row).len(),
                    |j: int|
                        values_at(
                            cells@,
                            rectangle(first_column, last_column, first_row, last_row)[j],
                        ),
                )
                &&& texts_view(final(upstream)@) == with_rows(
                    texts_view(old(upstream)@),
                    rectangle(first_column, last_column, first_row, last_row),
                )
            },
            Err(fault) => {
                &&& any_fault_in_rows(
                    cells@,
                    rectangle(first_column, last_column, first_row, last_row),
                )
                &&& fault@ == FaultView::Dependency
            },
        },
{
    let ghost all = rectangle(first_column, last_column, first_row, last_row);
    let ghost before = texts_view(upstream@);
    let mut rows: Vec<Vec<Value>> = Vec::new();
    let mut done: u32 = 0;
    let count: u32 = last_row - first_row;
    assert(all.skip(0) =~= all);
    loop
        invariant_except_break
            done <= count,
            rows.len() == done,
            forall|j: int| 0 <= j < done ==> !any_fault(cells@, #[trigger] all[j]),
            forall|j: int| 0 <= j < done ==> values_view(rows@[j]@) == values_at(cells@, all[j]),
            with_rows(texts_view(upstream@), all.skip(done as int)) == with_rows(before, all),
        invariant
            count == last_row - first_row,
            first_column <= last_column < u32::MAX,
            all == rectangle(first_column, last_column, first_row, last_row),
        ensures
            rows.len() == count + 1,
            forall|j: int| 0 <= j <= count ==> !any_fault(cells@, #[trigger] all[j]),
            forall|j: int|
                0 <= j <= count ==> values_view((#[trigger] rows@[j])@) == values_at(cells@, all[j]),
            texts_view(upstream@) == with_rows(before, all),
        decreases count - done,
    {
        let row = row_text(first_row + done);
        let ghost j = done as int;
        assert(all[j] == cells_in_row(first_column as int, last_column as int, row@));
        proof {
            assert(all.skip(j)[0] == all[j]);
            assert(all.skip(j).drop_first() == all.skip(j + 1));
        }
        let ghost earlier = texts_view(upstream@);
        match read_row(first_column, last_column, row.as_str(), cells, upstream) {
            Ok(values) => {
                rows.push(values);
            },
            Err(fault) => {
                return Err(fault);
            },
        }
        assert(with_rows(earlier, all.skip(j)) == with_rows(texts_view(upstream@), all.skip(j + 1)));
        if done == count {
            proof {
                assert(all.skip(j + 1) =~= Seq::<Seq<Seq<char>>>::empty());
            }
            break;
        }
        done += 1;
    }
    proof {
        assert(rows_view(rows@) =~= Seq::new(all.len(), |j: int| values_at(cells@, all[j])));
    }
    Ok(rows)
}

/// Resolves one variable, and adds the addresses that it reads to the list.
fn resolve_token(token: &str, cells: &CellStore, upstream: &mut Vec<String>) -> (r: Result<
    Argument,
    Fault,
>)
    ensures
        match r {
            Ok(argument) => {
                &&& token_failure(token@, cells@) is None
                &&& argument@ == token_argument(token@, cells@)
                &&& texts_view(final(upstream)@) == with_token(texts_view(old(upstream)@), token@)
            },
            Err(fault) => token_failure(token@, cells@) == Some(fault@),
        },
{
    proof {
        if cell_address(token@) {
            crate::reference::lemma_address_is_no_range(token@);
        }
    }
    match classify(token) {
        Shape::Scalar => {
            match get_cell_value(token, cells) {
                Ok(value) => {
                    add_address(upstream, token.to_string());
                    Ok(Argument::Value(value))
                },
                Err(fault) => Err(fault),
            }
        },
        Shape::Vector { first, last, row } => {
            match read_row(first, last, row.as_str(), cells, upstream) {
                Ok(values) => Ok(Argument::Vector(values)),
                Err(fault) => Err(fault),
            }
        },
        Shape::Matrix { first_column, last_column, first_row, last_row } => {
            assert(rectangle(first_column, last_column, first_row, last_row) =~= matrix_cells(
                token@,
            ));
            match read_rows(first_column, last_column, first_row, last_row, cells, upstream) {
                Ok(rows) => Ok(Argument::Matrix(rows)),
                Err(fault) => Err(fault),
            }
        },
        Shape::Malformed => Err(Fault::Format(token.to_string())),
    }
}

/// Resolves a formula's variables against the store, in their order, and
/// stops at the first that does not resolve: a variable with none of the
/// three shapes fails with a fault that names it, one that names a cell
/// that holds an error with the dependency fault. On success every variable has its
/// argument, and the addresses read are listed, each once.
pub fn convert_variables(variables: &Vec<String>, cells: &CellStore) -> (r: Result<Resolved, Fault>)
    ensures
        match r {
            Ok(resolved) => {
                &&& first_failure(texts_view(variables@), cells@) is None
                &&& arguments_view(resolved.arguments@) == arguments_of(
                    texts_view(variables@),
                    cells@,
                )
                &&& texts_view(resolved.upstream@) == upstream_of(texts_view(variables@))
            },
            Err(fault) => first_failure(texts_view(variables@), cells@) == Some(fault@),
        },
{
    let ghost tokens = texts_view(variables@);
    let mut arguments: Vec<Argument> = Vec::new();
    let mut upstream: Vec<String> = Vec::new();
    let mut i: usize = 0;
    assert(tokens.skip(0) =~= tokens);
    assert(texts_view(upstream@) =~= Seq::<Seq<char>>::empty());
    while i < variables.len()
        invariant
            i <= variables.len(),
            tokens == texts_view(variables@),
            arguments.len() == i,
            forall|j: int| 0 <= j < i ==> arguments@[j]@ == token_argument(tokens[j], cells@),
            first_failure(tokens.skip(i as int), cells@) == first_failure(tokens, cells@),
            upstream_from(texts_view(upstream@), tokens.skip(i as int)) == upstream_of(tokens),
        decreases variables.len() - i,
    {
        let ghost rest = tokens.skip(i as int);
        proof {
            assert(rest[0] == variables@[i as int]@);
            assert(rest.drop_first() == tokens.skip(i + 1));
        }
        let ghost earlier = texts_view(upstream@);
        match resolve_token(variables[i].as_str(), cells, &mut upstream) {
            Ok(argument) => {
                arguments.push(argument);
            },
            Err(fault) => {
                return Err(fault);
            },
        }
        assert(upstream_from(earlier, rest) == upstream_from(
            texts_view(upstream@),
            tokens.skip(i + 1),
        ));
        i += 1;
    }
    proof {
        assert(tokens.skip(i as int) =~= Seq::<Seq<char>>::empty());
        assert(arguments_view(arguments@) =~= arguments_of(tokens, cells@));
    }
    Ok(Resolved { arguments, upstream })
}

} // verus!
