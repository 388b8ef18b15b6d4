//! A session: every line that a client sends is parsed, and what is to be
//! done for it is decided with the store as it is.

use vstd::prelude::*;
use crate::command::{
    action_for, execute_command, parse_command, parsed, Action, ActionView, CommandView, Reply,
    ReplyView,
};
use crate::store::{CellStore, Cells};
use crate::value::ValueView;

verus! {

/// What is to be done for a line. A line that is no command is answered
/// with the reason; a command is handled as [`action_for`] says.
pub open spec fn turn(line: Seq<char>, cells: Cells) -> ActionView {
    match parsed(line) {
        Err(reason) => ActionView::Reply(ReplyView::Error(reason)),
        Ok(command) => action_for(command, cells),
    }
}

/// Handles one line of a session: the line is parsed, and what is to be
/// done for it is decided with the store as it is. The store is read and
/// not changed, so that a line that is no command, or a set whose variable
/// has none of the three shapes, changes nothing.
pub fn handle_message(msg: String, cells: &CellStore) -> (r: Action)
    ensures
        r@ == turn(msg@, cells@),
{
    match parse_command(msg) {
        Ok(command) => execute_command(command, cells),
        Err(reason) => Action::Reply(Reply::Error(reason)),
    }
}

/// A read of a cell that was never written is answered with the empty
/// value, not with an error.
pub proof fn lemma_unwritten_is_empty(line: Seq<char>, cells: Cells, address: Seq<char>)
    requires
        parsed(line) == Ok::<CommandView, Seq<char>>(CommandView::Get(address)),
        !cells.contains_key(address),
    ensures
        turn(line, cells) == ActionView::Reply(ReplyView::Value(address, ValueView::Empty)),
{
}

/// A read of a cell is answered with exactly the value that was written to
/// it last, unless that is a fault.
pub proof fn lemma_reads_what_was_written(
    line: Seq<char>,
    cells: Cells,
    address: Seq<char>,
    value: ValueView,
)
    requires
        parsed(line) == Ok::<CommandView, Seq<char>>(CommandView::Get(address)),
        !value.is_fault(),
    ensures
        turn(line, cells.insert(address, value)) == ActionView::Reply(
            ReplyView::Value(address, value),
        ),
{
}

} // verus!
