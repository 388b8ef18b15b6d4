//! The commands of a session: reading a cell and setting a cell's formula.

use vstd::prelude::*;
use crate::address::{cell_address, is_cell_address};
use crate::formula::{find_variables, formula_variables};
use crate::resolve::{
    arguments_of, arguments_view, convert_variables, first_failure, upstream_of, Argument,
    ArgumentView,
};
use crate::store::{value_at, CellStore, Cells};
use crate::text::{same_text, texts_view};
use crate::value::{Fault, FaultView, Value, ValueView};
use crate::words::{join_words, joined, split_words, words};

verus! {

/// A command of a session.
#[derive(Debug)]
pub enum Command {
    /// Read the cell at the address.
    Get(String),
    /// Set the cell at the address to the value of the expression.
    Assign(String, String),
    /// Do nothing.
    Nothing,
}

/// The mathematical value of a [`Command`].
pub enum CommandView {
    Get(Seq<char>),
    Assign(Seq<char>, Seq<char>),
    Nothing,
}

impl View for Command {
    type V = CommandView;

    open spec fn view(&self) -> CommandView {
        match self {
            Command::Get(address) => CommandView::Get(address@),
            Command::Assign(address, expression) => CommandView::Assign(address@, expression@),
            Command::Nothing => CommandView::Nothing,
        }
    }
}

/// What a session is told in answer to a command.
#[derive(Debug, PartialEq, Eq)]
pub enum Reply {
    /// The value of the cell at the address.
    Value(String, Value),
    /// The command failed, for the reason given.
    Error(String),
}

/// A change of one cell's formula, as the dependency worker is told of it.
#[derive(Debug, PartialEq, Eq)]
pub struct Update {
    /// The cell that was set.
    pub address: String,
    /// Its new formula.
    pub formula: String,
    /// The addresses that the formula reads.
    pub upstream: Vec<String>,
}

/// The mathematical value of an [`Update`].
pub struct UpdateView {
    pub address: Seq<char>,
    pub formula: Seq<char>,
    pub upstream: Seq<Seq<char>>,
}

impl View for Update {
    type V = UpdateView;

    open spec fn view(&self) -> UpdateView {
        UpdateView {
            address: self.address@,
            formula: self.formula@,
            upstream: texts_view(self.upstream@),
        }
    }
}

/// The updates of a queue of updates, oldest first.
pub open spec fn updates_view(queue: Seq<Update>) -> Seq<UpdateView> {
    Seq::new(queue.len(), |i: int| queue[i]@)
}

/// What a line of the protocol means. A line is split into words at white
/// space. `get` takes one word more, a cell address. `set` takes a cell
/// address and then an expression of at least one word; the words of the
/// expression are joined by single spaces. Anything else is refused, with
/// the reason.
pub open spec fn parsed(line: Seq<char>) -> Result<CommandView, Seq<char>> {
    let w = words(line);
    if w.len() == 0 {
        Err("No operation specified."@)
    } else if w[0] == "get"@ {
        if w.len() == 2 && cell_address(w[1]) {
            Ok(CommandView::Get(w[1]))
        } else {
            Err("Invalid cell reference in get command"@)
        }
    } else if w[0] == "set"@ {
        if w.len() < 2 {
            Err("No cell reference given in set command"@)
        } else if !cell_address(w[1]) {
            Err("Invalid cell reference in set command"@)
        } else if w.len() == 2 {
            Err("Must provide expression for set"@)
        } else {
            Ok(CommandView::Assign(w[1], joined(w.skip(2))))
        }
    } else {
        Err("Invalid operation: "@ + w[0])
    }
}

/// Parses a line of the protocol.
pub fn parse_command(msg: String) -> (r: Result<Command, String>)
    ensures
        match r {
            Ok(command) => parsed(msg@) == Ok::<CommandView, Seq<char>>(command@),
            Err(reason) => parsed(msg@) == Err::<CommandView, Seq<char>>(reason@),
        },
{
    let w = split_words(msg.as_str());
    if w.len() == 0 {
        return Err("No operation specified.".to_string());
    }
    assert(texts_view(w@)[0] == w@[0]@);
    if same_text(w[0].as_str(), "get") {
        if w.len() == 2 {
            assert(texts_view(w@)[1] == w@[1]@);
            if is_cell_address(w[1].as_str()) {
                return Ok(Command::Get(w[1].clone()));
            }
        }
        Err("Invalid cell reference in get command".to_string())
    } else if same_text(w[0].as_str(), "set") {
        if w.len() < 2 {
            return Err("No cell reference given in set command".to_string());
        }
        assert(texts_view(w@)[1] == w@[1]@);
        if !is_cell_address(w[1].as_str()) {
            return Err("Invalid cell reference in set command".to_string());
        }
        if w.len() == 2 {
            return Err("Must provide expression for set".to_string());
        }
        Ok(Command::Assign(w[1].clone(), join_words(&w, 2)))
    } else {
        Err("Invalid operation: ".to_string().concat(w[0].as_str()))
    }
}

/// The mathematical value of a [`Reply`].
pub enum ReplyView {
    Value(Seq<char>, ValueView),
    Error(Seq<char>),
}

impl View for Reply {
    type V = ReplyView;

    open spec fn view(&self) -> ReplyView {
        match self {
            Reply::Value(address, value) => ReplyView::Value(address@, value@),
            Reply::Error(reason) => ReplyView::Error(reason@),
        }
    }
}

/// A formula that is to be evaluated, with what its variables resolved to.
/// The evaluator is not part of this library: whoever is handed an
/// evaluation evaluates the formula and hands the value back.
#[derive(Debug, PartialEq, Eq)]
pub struct Evaluation {
    /// The cell whose formula it is.
    pub address: String,
    /// The formula.
    pub formula: String,
    /// The variables of the formula, in the formula's order.
    pub variables: Vec<String>,
    /// What each variable resolved to, in the variables' order.
    pub arguments: Vec<Argument>,
    /// The addresses that the formula reads: each once, in the order of
    /// first reading.
    pub upstream: Vec<String>,
}

/// The mathematical value of an [`Evaluation`].
pub struct EvaluationView {
    pub address: Seq<char>,
    pub formula: Seq<char>,
    pub variables: Seq<Seq<char>>,
    pub arguments: Seq<ArgumentView>,
    pub upstream: Seq<Seq<char>>,
}

impl View for Evaluation {
    type V = EvaluationView;

    open spec fn view(&self) -> EvaluationView {
        EvaluationView {
            address: self.address@,
            formula: self.formula@,
            variables: texts_view(self.variables@),
            arguments: arguments_view(self.arguments@),
            upstream: texts_view(self.upstream@),
        }
    }
}

/// The evaluation of the formula of the cell at the address, with its
/// variables resolved against the store.
pub open spec fn evaluation_of(address: Seq<char>, formula: Seq<char>, cells: Cells) -> EvaluationView {
    EvaluationView {
        address,
        formula,
        variables: formula_variables(formula),
        arguments: arguments_of(formula_variables(formula), cells),
        upstream: upstream_of(formula_variables(formula)),
    }
}

/// What is to be done for a command.
#[derive(Debug, PartialEq, Eq)]
pub enum Action {
    /// Nothing.
    Nothing,
    /// The reply is to be sent; nothing changes.
    Reply(Reply),
    /// The cell at the address is to take the fault, and the fault's text is
    /// to be sent as an error: see [`record_fault`].
    Fault(String, Fault),
    /// The formula is to be evaluated and the cell to take the value: see
    /// [`record_set`]. Nothing is sent.
    Evaluate(Evaluation),
}

/// The mathematical value of an [`Action`].
pub enum ActionView {
    Nothing,
    Reply(ReplyView),
    Fault(Seq<char>, FaultView),
    Evaluate(EvaluationView),
}

impl View for Action {
    type V = ActionView;

    open spec fn view(&self) -> ActionView {
        match self {
            Action::Nothing => ActionView::Nothing,
            Action::Reply(reply) => ActionView::Reply(reply@),
            Action::Fault(address, fault) => ActionView::Fault(address@, fault@),
            Action::Evaluate(evaluation) => ActionView::Evaluate(evaluation@),
        }
    }
}

/// The answer to reading a cell: the address with the cell's value, which
/// is empty where the cell was never written; for a cell that holds the
/// dependency fault or the circular dependency fault, the fault's text as
/// an error and no value.
pub open spec fn read(cells: Cells, address: Seq<char>) -> ReplyView {
    if value_at(cells, address).is_fault() {
        ReplyView::Error(value_at(cells, address)->Error_0)
    } else {
        ReplyView::Value(address, value_at(cells, address))
    }
}

/// What is to be done for a command, with the store as it is.
///
/// A read is answered as [`read`] says.
///
/// For a set, the variables of the expression are resolved against the
/// store. Where a variable has none of the three shapes, the fault's text
/// is the answer and nothing changes. Where a variable names a cell that
/// holds an error, the cell that is set takes the dependency fault and the
/// fault's text is the answer. Otherwise the expression is to be
/// evaluated, with what its variables resolved to.
pub open spec fn action_for(command: CommandView, cells: Cells) -> ActionView {
    match command {
        CommandView::Get(address) => ActionView::Reply(read(cells, address)),
        CommandView::Assign(address, expression) => match first_failure(
            formula_variables(expression),
            cells,
        ) {
            Some(fault) => if fault is Dependency {
                ActionView::Fault(address, fault)
            } else {
                ActionView::Reply(ReplyView::Error(fault.message()))
            },
            None => ActionView::Evaluate(evaluation_of(address, expression, cells)),
        },
        CommandView::Nothing => ActionView::Nothing,
    }
}

/// The answer to reading a cell. Never fails: a cell that was never written
/// is empty.
pub fn execute_get(address: String, cells: &CellStore) -> (r: Reply)
    ensures
        r@ == read(cells@, address@),
{
    let value = cells.get(address.as_str());
    if value.is_fault() {
        match value {
            Value::Error(message) => Reply::Error(message),
            _ => Reply::Value(address, Value::Empty),
        }
    } else {
        Reply::Value(address, value)
    }
}

/// Decides what is to be done for a command, with the store as it is. The
/// store is read and not changed: what is to be written is part of the
/// action.
pub fn execute_command(command: Command, cells: &CellStore) -> (r: Action)
    ensures
        r@ == action_for(command@, cells@),
{
    match command {
        Command::Get(address) => Action::Reply(execute_get(address, cells)),
        Command::Assign(address, expression) => {
            let variables = find_variables(expression.as_str());
            match convert_variables(&variables, cells) {
                Ok(resolved) => Action::Evaluate(
                    Evaluation {
                        address,
                        formula: expression,
                        variables,
                        arguments: resolved.arguments,
                        upstream: resolved.upstream,
                    },
                ),
                Err(fault) => match fault {
                    Fault::Dependency => Action::Fault(address, fault),
                    _ => Action::Reply(Reply::Error(fault.message())),
                },
            }
        },
        Command::Nothing => Action::Nothing,
    }
}

/// Records a set whose variables did not resolve: the cell takes the fault.
/// Returns the reply, the fault's text as an error.
pub fn record_fault(cells: &mut CellStore, address: String, fault: &Fault) -> (r: Reply)
    ensures
        final(cells)@ == old(cells)@.insert(address@, fault@.value()),
        r@ == ReplyView::Error(fault@.message()),
{
    cells.set(address, fault.value());
    Reply::Error(fault.message())
}

/// Records the outcome of a set whose variables resolved: the cell takes
/// the value that the formula was given, whatever it is, and the change is
/// queued for the dependency worker, behind the changes queued before.
pub fn record_set(cells: &mut CellStore, tx: &mut Vec<Update>, evaluation: Evaluation, value: Value)
    ensures
        final(cells)@ == old(cells)@.insert(evaluation@.address, value@),
        updates_view(final(tx)@) == updates_view(old(tx)@).push(
            UpdateView {
                address: evaluation@.address,
                formula: evaluation@.formula,
                upstream: evaluation@.upstream,
            },
        ),
{
    let Evaluation { address, formula, variables: _, arguments: _, upstream } = evaluation;
    cells.set(address.clone(), value);
    let update = Update { address, formula, upstream };
    tx.push(update);
    assert(updates_view(tx@) =~= updates_view(old(tx)@).push(update@));
}

} // verus!
