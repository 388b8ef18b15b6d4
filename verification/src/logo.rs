//! Parts of a Logo interpreter that work on the program's text: the state
//! of the pen, the operators of a condition, and the search for the line
//! that closes a block.

use vstd::prelude::*;
use crate::text::{chars_of, same_text, texts_view};
use crate::words::{indent, is_space_char, trailing};

verus! {

/// Whether the pen draws.
#[allow(non_camel_case_types)]
#[derive(Debug, Clone, Copy, PartialEq, Eq, Structural)]
pub enum PenStatus {
    PENUP,
    PENDOWN,
}

/// The operators of a condition.
#[derive(Debug, Clone, Copy, PartialEq, Eq, Structural)]
pub enum Operator {
    EQ,
    NE,
    GT,
    LT,
    AND,
    OR,
}

/// The operator that a word names, if it names one.
pub open spec fn operator_named(token: Seq<char>) -> Option<Operator> {
    if token == "EQ"@ {
        Some(Operator::EQ)
    } else if token == "NE"@ {
        Some(Operator::NE)
    } else if token == "GT"@ {
        Some(Operator::GT)
    } else if token == "LT"@ {
        Some(Operator::LT)
    } else if token == "AND"@ {
        Some(Operator::AND)
    } else if token == "OR"@ {
        Some(Operator::OR)
    } else {
        None
    }
}

/// The operator that a word names, if it names one.
pub fn parse_operator(token: &str) -> (r: Option<Operator>)
    ensures
        r == operator_named(token@),
{
    if same_text(token, "EQ") {
        Some(Operator::EQ)
    } else if same_text(token, "NE") {
        Some(Operator::NE)
    } else if same_text(token, "GT") {
        Some(Operator::GT)
    } else if same_text(token, "LT") {
        Some(Operator::LT)
    } else if same_text(token, "AND") {
        Some(Operator::AND)
    } else if same_text(token, "OR") {
        Some(Operator::OR)
    } else {
        None
    }
}

/// The line opens a block: its last character that is no white space is
/// an opening bracket.
pub open spec fn opens_block(line: Seq<char>) -> bool {
    trailing(line) < line.len() && line[line.len() - 1 - trailing(line)] == '['
}

/// The line closes a block: its first character that is no white space is
/// a closing bracket.
pub open spec fn closes_block(line: Seq<char>) -> bool {
    indent(line) < line.len() && line[indent(line) as int] == ']'
}

/// How a line changes the number of open blocks.
pub open spec fn nesting_step(line: Seq<char>) -> int {
    if opens_block(line) {
        1
    } else if closes_block(line) {
        -1
    } else {
        0
    }
}

/// The number of blocks that are open before line `to`, where one block is
/// open before line `from`.
pub open spec fn open_blocks(lines: Seq<Seq<char>>, from: int, to: int) -> int
    decreases to - from,
{
    if to <= from {
        1
    } else {
        open_blocks(lines, from, to - 1) + nesting_step(lines[to - 1])
    }
}

/// Whether the line opens a block.
pub fn line_opens_block(line: &str) -> (r: bool)
    ensures
        r == opens_block(line@),
{
    let chars = chars_of(line);
    let mut end: usize = chars.len();
    assert(chars@.take(chars.len() as int) =~= chars@);
    while end > 0 && is_space_char(chars[end - 1])
        invariant
            end <= chars.len(),
            trailing(chars@.take(end as int)) + (chars.len() - end) == trailing(chars@),
        decreases end,
    {
        proof {
            assert(chars@.take(end as int).drop_last() == chars@.take(end - 1));
        }
        end -= 1;
    }
    end > 0 && chars[end - 1] == '['
}

/// Whether the line closes a block.
pub fn line_closes_block(line: &str) -> (r: bool)
    ensures
        r == closes_block(line@),
{
    let chars = chars_of(line);
    let mut start: usize = 0;
    assert(chars@.skip(0) =~= chars@);
    while start < chars.len() && is_space_char(chars[start])
        invariant
            start <= chars.len(),
            indent(chars@.skip(start as int)) + start == indent(chars@),
        decreases chars.len() - start,
    {
        proof {
            assert(chars@.skip(start as int).drop_first() == chars@.skip(start + 1));
        }
        start += 1;
    }
    start < chars.len() && chars[start] == ']'
}

/// Finds the end of the block that is open before line `line_number`: the
/// number of the line after the one that closes it. A line that ends in an
/// opening bracket opens a block, a line that starts with a closing bracket
/// closes one, white space aside. Fails where the lines end before the
/// block is closed.
pub fn jump_to_matching_bracket(line_number: usize, lines: &Vec<String>) -> (r: Result<
    usize,
    String,
>)
    ensures
        match r {
            Ok(after) => {
                &&& line_number <= after <= lines.len()
                &&& open_blocks(texts_view(lines@), line_number as int, after as int) == 0
                &&& forall|j: int|
                    line_number <= j < after ==> open_blocks(
                        texts_view(lines@),
                        line_number as int,
                        j,
                    ) != 0
            },
            Err(reason) => {
                &&& reason@ == "No matching bracket found!"@
                &&& forall|j: int|
                    line_number <= j <= lines.len() ==> open_blocks(
                        texts_view(lines@),
                        line_number as int,
                        j,
                    ) != 0
            },
        },
{
    let ghost all = texts_view(lines@);
    let mut condition_count: u128 = 1;
    let mut at: usize = line_number;
    while condition_count != 0 && at < lines.len()
        invariant
            line_number <= at,
            at <= lines.len() || at == line_number,
            all == texts_view(lines@),
            condition_count == open_blocks(all, line_number as int, at as int),
            condition_count <= 1 + (at - line_number),
            forall|j: int| line_number <= j < at ==> open_blocks(all, line_number as int, j) != 0,
        decreases lines.len() - at,
    {
        let line = lines[at].as_str();
        assert(all[at as int] == line@);
        if line_opens_block(line) {
            condition_count = condition_count + 1;
        } else if line_closes_block(line) {
            condition_count = condition_count - 1;
        }
        at = at + 1;
    }
    if condition_count > 0 {
        assert forall|j: int| line_number <= j <= lines.len() implies open_blocks(
            all,
            line_number as int,
            j,
        ) != 0 by {
            if j > at {
                assert(at == line_number);
            }
        }
        return Err("No matching bracket found!".to_string());
    }
    Ok(at)
}

} // verus!
