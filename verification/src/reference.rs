//! The shapes of a formula's variables. A variable names one cell (`B7`), a
//! run of cells on one row (`A1_C1`), or a rectangle of cells (`A1_C3`).

use vstd::prelude::*;
use crate::address::{
    cell_address, column_part, count_letters, is_address_chars, is_digit, is_upper,
    lemma_letters_prefix, row_part,
};
use crate::column::{
    column_name, column_number, column_ordinal, decimal_digits, decimal_value, parse_row,
};
use crate::text::{chars_of, same_chars, slice_chars, string_of};

verus! {

/// How many characters stand before the first underscore of the text, or
/// its length where it holds none.
pub open spec fn before_underscore(t: Seq<char>) -> nat
    decreases t.len(),
{
    if t.len() > 0 && t[0] != '_' {
        1 + before_underscore(t.drop_first())
    } else {
        0
    }
}

/// What stands before the first underscore: the first corner of a range.
pub open spec fn left_corner(t: Seq<char>) -> Seq<char> {
    t.take(before_underscore(t) as int)
}

/// What stands after the first underscore: the second corner of a range.
pub open spec fn right_corner(t: Seq<char>) -> Seq<char> {
    t.skip(before_underscore(t) as int + 1)
}

/// The text is two cell addresses joined by an underscore.
pub open spec fn range_token(t: Seq<char>) -> bool {
    &&& before_underscore(t) < t.len()
    &&& cell_address(left_corner(t))
    &&& cell_address(right_corner(t))
}

/// The number of an address's column, counted from 0.
pub open spec fn column_of(address: Seq<char>) -> int {
    column_ordinal(column_part(address)) - 1
}

/// The number of an address's row.
pub open spec fn row_of(address: Seq<char>) -> nat {
    decimal_value(row_part(address))
}

/// Both corners' columns can be counted in 32 bits.
pub open spec fn columns_fit(t: Seq<char>) -> bool {
    &&& column_ordinal(column_part(left_corner(t))) <= u32::MAX
    &&& column_ordinal(column_part(right_corner(t))) <= u32::MAX
}

/// Both corners' rows can be counted in 32 bits.
pub open spec fn rows_fit(t: Seq<char>) -> bool {
    &&& row_of(left_corner(t)) <= u32::MAX
    &&& row_of(right_corner(t)) <= u32::MAX
}

/// A vector: a range whose corners are written with the same row.
pub open spec fn vector_token(t: Seq<char>) -> bool {
    &&& range_token(t)
    &&& row_part(left_corner(t)) == row_part(right_corner(t))
    &&& columns_fit(t)
}

/// A matrix: a range whose corners are written with different rows.
pub open spec fn matrix_token(t: Seq<char>) -> bool {
    &&& range_token(t)
    &&& row_part(left_corner(t)) != row_part(right_corner(t))
    &&& columns_fit(t)
    &&& rows_fit(t)
}

/// The text has one of the three shapes of a variable.
pub open spec fn well_formed(t: Seq<char>) -> bool {
    cell_address(t) || vector_token(t) || matrix_token(t)
}

/// The smaller of a range's two columns.
pub open spec fn first_column(t: Seq<char>) -> int {
    if column_of(left_corner(t)) <= column_of(right_corner(t)) {
        column_of(left_corner(t))
    } else {
        column_of(right_corner(t))
    }
}

/// The larger of a range's two columns.
pub open spec fn last_column(t: Seq<char>) -> int {
    if column_of(left_corner(t)) <= column_of(right_corner(t)) {
        column_of(right_corner(t))
    } else {
        column_of(left_corner(t))
    }
}

/// The smaller of a range's two rows.
pub open spec fn first_row(t: Seq<char>) -> nat {
    if row_of(left_corner(t)) <= row_of(right_corner(t)) {
        row_of(left_corner(t))
    } else {
        row_of(right_corner(t))
    }
}

/// The larger of a range's two rows.
pub open spec fn last_row(t: Seq<char>) -> nat {
    if row_of(left_corner(t)) <= row_of(right_corner(t)) {
        row_of(right_corner(t))
    } else {
        row_of(left_corner(t))
    }
}

/// The addresses of the cells of one row, from column `first` to column
/// `last`, left to right. The row is given as it is written.
pub open spec fn cells_in_row(first: int, last: int, row: Seq<char>) -> Seq<Seq<char>> {
    Seq::new((last - first + 1) as nat, |i: int| column_name((first + i) as nat) + row)
}

/// The addresses of a vector's cells, left to right. The row is written as
/// the variable writes it.
pub open spec fn vector_cells(t: Seq<char>) -> Seq<Seq<char>> {
    cells_in_row(first_column(t), last_column(t), row_part(left_corner(t)))
}

/// The addresses of a matrix's cells: its rows from the top down, each from
/// left to right. A row is written in decimal without leading zeros.
pub open spec fn matrix_cells(t: Seq<char>) -> Seq<Seq<Seq<char>>> {
    Seq::new(
        (last_row(t) - first_row(t) + 1) as nat,
        |j: int| cells_in_row(first_column(t), last_column(t), decimal_digits(first_row(t) + j as nat)),
    )
}

/// A variable, told apart by its shape, with its corners put in order.
pub enum Shape {
    /// One cell: the variable is its address.
    Scalar,
    /// Cells of one row, from column `first` to column `last`.
    Vector { first: u32, last: u32, row: String },
    /// A rectangle of cells.
    Matrix { first_column: u32, last_column: u32, first_row: u32, last_row: u32 },
    /// None of the three shapes.
    Malformed,
}

/// What [`classify`] returns for a variable.
pub open spec fn shape_of(t: Seq<char>, shape: Shape) -> bool {
    match shape {
        Shape::Scalar => cell_address(t),
        Shape::Vector { first, last, row } => {
            &&& vector_token(t)
            &&& first == first_column(t)
            &&& last == last_column(t)
            &&& last < u32::MAX
            &&& row@ == row_part(left_corner(t))
        },
        Shape::Matrix { first_column: c0, last_column: c1, first_row: r0, last_row: r1 } => {
            &&& matrix_token(t)
            &&& c0 == first_column(t)
            &&& c1 == last_column(t)
            &&& c1 < u32::MAX
            &&& r0 == first_row(t)
            &&& r1 == last_row(t)
        },
        Shape::Malformed => !well_formed(t),
    }
}

/// A text that starts with `k` characters other than the underscore,
/// followed by the end or by an underscore, has `k` characters before its
/// first underscore.
pub proof fn lemma_before_underscore_is(t: Seq<char>, k: int)
    requires
        0 <= k <= t.len(),
        forall|i: int| 0 <= i < k ==> #[trigger] t[i] != '_',
        k < t.len() ==> t[k] == '_',
    ensures
        before_underscore(t) == k,
    decreases t.len(),
{
    if k > 0 {
        assert(t[0] != '_');
        let rest = t.drop_first();
        assert forall|i: int| 0 <= i < k - 1 implies #[trigger] rest[i] != '_' by {
            assert(rest[i] == t[i + 1]);
        }
        lemma_before_underscore_is(rest, k - 1);
    }
}

/// A cell address holds capital letters and digits only.
pub proof fn lemma_address_characters(s: Seq<char>)
    requires
        cell_address(s),
    ensures
        forall|i: int| 0 <= i < s.len() ==> is_upper(#[trigger] s[i]) || is_digit(s[i]),
{
    lemma_letters_prefix(s);
    let k = column_part(s).len() as int;
    assert forall|i: int| 0 <= i < s.len() implies is_upper(#[trigger] s[i]) || is_digit(
        s[i],
    ) by {
        if i < k {
            assert(s[i] == column_part(s)[i]);
        } else {
            assert(s[i] == row_part(s)[i - k]);
        }
    }
}

/// A cell address holds no underscore, so it is no range.
pub proof fn lemma_address_is_no_range(s: Seq<char>)
    requires
        cell_address(s),
    ensures
        before_underscore(s) == s.len(),
        !range_token(s),
{
    lemma_address_characters(s);
    assert forall|i: int| 0 <= i < s.len() implies #[trigger] s[i] != '_' by {
        assert(is_upper(s[i]) || is_digit(s[i]));
    }
    lemma_before_underscore_is(s, s.len() as int);
}

/// How many characters stand before the first underscore.
fn count_before_underscore(chars: &Vec<char>) -> (k: usize)
    ensures
        k == before_underscore(chars@),
        k <= chars.len(),
        k < chars.len() ==> chars@[k as int] == '_',
{
    let mut k: usize = 0;
    while k < chars.len() && chars[k] != '_'
        invariant
            k <= chars.len(),
            forall|i: int| 0 <= i < k ==> #[trigger] chars@[i] != '_',
        decreases chars.len() - k,
    {
        k += 1;
    }
    proof {
        lemma_before_underscore_is(chars@, k as int);
    }
    k
}

/// Tells the shape of a variable and puts its corners in order: the
/// columns and rows of a range run from the smaller to the larger, whichever
/// corner was written first.
pub fn classify(token: &str) -> (shape: Shape)
    ensures
        shape_of(token@, shape),
{
    let chars = chars_of(token);
    let p = count_before_underscore(&chars);
    if p == chars.len() {
        if is_address_chars(&chars) {
            return Shape::Scalar;
        }
        return Shape::Malformed;
    }
    proof {
        if cell_address(chars@) {
            lemma_address_is_no_range(chars@);
        }
    }
    let left = slice_chars(&chars, 0, p);
    let right = slice_chars(&chars, p + 1, chars.len());
    assert(left@ == left_corner(token@));
    assert(right@ == right_corner(token@));
    if !is_address_chars(&left) || !is_address_chars(&right) {
        return Shape::Malformed;
    }
    let kl = count_letters(&left);
    let kr = count_letters(&right);
    let left_letters = slice_chars(&left, 0, kl);
    let right_letters = slice_chars(&right, 0, kr);
    let left_row = slice_chars(&left, kl, left.len());
    let right_row = slice_chars(&right, kr, right.len());
    proof {
        lemma_letters_prefix(left@);
        lemma_letters_prefix(right@);
    }
    let (cl, cr) = match (column_number(&left_letters), column_number(&right_letters)) {
        (Some(cl), Some(cr)) => (cl, cr),
        _ => { return Shape::Malformed; },
    };
    let first = if cl <= cr { cl } else { cr };
    let last = if cl <= cr { cr } else { cl };
    if same_chars(&left_row, &right_row) {
        return Shape::Vector { first, last, row: string_of(&left_row) };
    }
    match (parse_row(&left_row), parse_row(&right_row)) {
        (Some(rl), Some(rr)) => Shape::Matrix {
            first_column: first,
            last_column: last,
            first_row: if rl <= rr { rl } else { rr },
            last_row: if rl <= rr { rr } else { rl },
        },
        _ => Shape::Malformed,
    }
}

} // verus!
