//! The cell store: a mapping from cell address to cell value. A cell that
//! was never written reads as empty; a write overwrites.

use vstd::prelude::*;
use vstd::hash_map::StringHashMap;
use crate::value::{Value, ValueView};

verus! {

/// The contents of a store: the value of every cell that was written.
pub type Cells = Map<Seq<char>, ValueView>;

/// What reading an address gives: the value written last, or the empty
/// value where nothing was written.
pub open spec fn value_at(cells: Cells, address: Seq<char>) -> ValueView {
    if cells.contains_key(address) {
        cells[address]
    } else {
        ValueView::Empty
    }
}

/// The cell store.
pub struct CellStore {
    cells: StringHashMap<Value>,
}

impl View for CellStore {
    type V = Cells;

    closed spec fn view(&self) -> Cells {
        Map::new(|a: Seq<char>| self.cells@.contains_key(a), |a: Seq<char>| self.cells@[a]@)
    }
}

impl CellStore {
    /// A store in which nothing was written.
    pub fn new() -> (r: CellStore)
        ensures
            r@ == Cells::empty(),
    {
        let r = CellStore { cells: StringHashMap::new() };
        assert(r@ =~= Cells::empty());
        r
    }

    /// The value of a cell. Never fails: a cell that was never written is
    /// empty.
    pub fn get(&self, address: &str) -> (r: Value)
        ensures
            r@ == value_at(self@, address@),
    {
        match self.cells.get(address) {
            Some(v) => v.clone(),
            None => Value::Empty,
        }
    }

    /// Whether the cell was ever written.
    pub fn contains(&self, address: &str) -> (r: bool)
        ensures
            r == self@.contains_key(address@),
    {
        self.cells.contains_key(address)
    }

    /// Writes a cell. Always succeeds, and touches no other cell.
    pub fn set(&mut self, address: String, value: Value)
        ensures
            final(self)@ == old(self)@.insert(address@, value@),
    {
        self.cells.insert(address, value);
        assert(self@ =~= old(self)@.insert(address@, value@));
    }
}

/// A cell that was never written reads as empty.
pub proof fn lemma_unwritten_reads_empty(cells: Cells, address: Seq<char>)
    requires
        !cells.contains_key(address),
    ensures
        value_at(cells, address) == ValueView::Empty,
{
}

/// A cell reads back what was written to it last.
pub proof fn lemma_read_after_write(cells: Cells, address: Seq<char>, value: ValueView)
    ensures
        value_at(cells.insert(address, value), address) == value,
{
}

/// A write leaves every other cell as it was.
pub proof fn lemma_write_is_local(
    cells: Cells,
    address: Seq<char>,
    value: ValueView,
    other: Seq<char>,
)
    requires
        other != address,
    ensures
        value_at(cells.insert(address, value), other) == value_at(cells, other),
{
}

/// Two writes to different cells both take effect, in whichever order they
/// are made.
pub proof fn lemma_writes_commute(
    cells: Cells,
    first: Seq<char>,
    first_value: ValueView,
    second: Seq<char>,
    second_value: ValueView,
)
    requires
        first != second,
    ensures
        cells.insert(first, first_value).insert(second, second_value) == cells.insert(
            second,
            second_value,
        ).insert(first, first_value),
        value_at(cells.insert(first, first_value).insert(second, second_value), first)
            == first_value,
        value_at(cells.insert(first, first_value).insert(second, second_value), second)
            == second_value,
{
    assert(cells.insert(first, first_value).insert(second, second_value) =~= cells.insert(
        second,
        second_value,
    ).insert(first, first_value));
}

} // verus!
