//! Cell values.

use vstd::prelude::*;

verus! {

/// What a cell holds.
#[derive(Debug, PartialEq, Eq)]
pub enum Value {
    /// Nothing has been written.
    Empty,
    /// A number.
    Int(i64),
    /// A string.
    Text(String),
    /// An error, with its message: a fault of this library, or an error
    /// that the evaluator gave.
    Error(String),
}

/// The mathematical value of a [`Value`].
pub enum ValueView {
    Empty,
    Int(i64),
    Text(Seq<char>),
    Error(Seq<char>),
}

impl View for Value {
    type V = ValueView;

    open spec fn view(&self) -> ValueView {
        match self {
            Value::Empty => ValueView::Empty,
            Value::Int(i) => ValueView::Int(*i),
            Value::Text(s) => ValueView::Text(s@),
            Value::Error(s) => ValueView::Error(s@),
        }
    }
}

impl Clone for Value {
    fn clone(&self) -> (r: Self)
        ensures
            r@ == self@,
    {
        match self {
            Value::Empty => Value::Empty,
            Value::Int(i) => Value::Int(*i),
            Value::Text(s) => Value::Text(s.clone()),
            Value::Error(s) => Value::Error(s.clone()),
        }
    }
}

/// The message of the fault that a cell holds when it read a faulted cell.
pub open spec fn dependency_message() -> Seq<char> {
    "Dependency error"@
}

/// The message of the fault that a cell on a dependency cycle holds.
pub open spec fn circular_message() -> Seq<char> {
    "Circular dependency error"@
}

/// The message of the fault of a variable that has none of the three
/// shapes: it names the variable.
pub open spec fn format_message(variable: Seq<char>) -> Seq<char> {
    "Invalid cell address format: "@ + variable
}

/// Why a formula has no value.
#[derive(Debug, PartialEq, Eq)]
pub enum Fault {
    /// A variable of the formula has none of the three shapes. The fault
    /// names it.
    Format(String),
    /// A cell that the formula reads holds an error.
    Dependency,
    /// The cell is on a dependency cycle.
    Circular,
}

/// The mathematical value of a [`Fault`].
pub enum FaultView {
    Format(Seq<char>),
    Dependency,
    Circular,
}

impl View for Fault {
    type V = FaultView;

    open spec fn view(&self) -> FaultView {
        match self {
            Fault::Format(variable) => FaultView::Format(variable@),
            Fault::Dependency => FaultView::Dependency,
            Fault::Circular => FaultView::Circular,
        }
    }
}

impl FaultView {
    /// The text of the fault.
    pub open spec fn message(self) -> Seq<char> {
        match self {
            FaultView::Format(variable) => format_message(variable),
            FaultView::Dependency => dependency_message(),
            FaultView::Circular => circular_message(),
        }
    }

    /// The fault as the value of a cell.
    pub open spec fn value(self) -> ValueView {
        ValueView::Error(self.message())
    }
}

impl Fault {
    /// The text of the fault.
    pub fn message(&self) -> (r: String)
        ensures
            r@ == self@.message(),
    {
        match self {
            Fault::Format(variable) => "Invalid cell address format: ".to_string().concat(
                variable.as_str(),
            ),
            Fault::Dependency => "Dependency error".to_string(),
            Fault::Circular => "Circular dependency error".to_string(),
        }
    }

    /// The fault as the value of a cell.
    pub fn value(&self) -> (r: Value)
        ensures
            r@ == self@.value(),
    {
        Value::Error(self.message())
    }
}

impl ValueView {
    /// Whether the value is an error of any kind: a fault of this library
    /// or an error that the evaluator gave. A formula that reads such a
    /// cell does not resolve.
    pub open spec fn is_error(self) -> bool {
        self is Error
    }

    /// Whether the value is one of the two faults that a cell holds for its
    /// place in the dependency graph: it read a cell that holds an error,
    /// or it is on a cycle. A read of such a cell is answered with the
    /// fault's text.
    pub open spec fn is_fault(self) -> bool {
        self == FaultView::Dependency.value() || self == FaultView::Circular.value()
    }
}

impl Value {
    /// Whether the value is an error of any kind.
    pub fn is_error(&self) -> (r: bool)
        ensures
            r == self@.is_error(),
    {
        match self {
            Value::Error(_) => true,
            _ => false,
        }
    }

    /// Whether the value is the dependency fault or the circular dependency
    /// fault.
    pub fn is_fault(&self) -> (r: bool)
        ensures
            r == self@.is_fault(),
    {
        match self {
            Value::Error(message) => {
                crate::text::same_text(message.as_str(), "Dependency error")
                    || crate::text::same_text(message.as_str(), "Circular dependency error")
            },
            _ => false,
        }
    }
}

} // verus!
