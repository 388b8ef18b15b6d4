//! The formula evaluator. It is not part of this library: formulas are
//! parsed by `rsheet_lib`, which this module calls for the variables of a
//! formula. A formula is evaluated by the caller of this library, who is
//! handed the formula with its arguments and hands back the value: an
//! evaluation may take any time and may fail in ways of its own.

use vstd::prelude::*;
use rsheet_lib::command_runner::CommandRunner;
use crate::text::texts_view;

verus! {

/// The variables of a formula, in the order in which the formula's syntax
/// tree holds them; none for a text that the parser of this build does not
/// take for an expression.
pub uninterp spec fn formula_variables(expression: Seq<char>) -> Seq<Seq<char>>;

/// `CommandRunner::new` and `CommandRunner::find_variables`: the expression
/// is parsed, and the names of the variables in its syntax tree that have
/// the form of a cell address or of two addresses joined by an underscore
/// are listed. The list depends on the expression alone.
#[verifier::external_body]
pub(crate) fn find_variables(expression: &str) -> (variables: Vec<String>)
    ensures
        texts_view(variables@) == formula_variables(expression@),
{
    CommandRunner::new(expression).find_variables()
}

} // verus!
