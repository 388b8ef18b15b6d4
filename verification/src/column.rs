//! Column names and row numbers: `A` is column 0, `Z` column 25, `AA` column
//! 26, and so on; a row is written in decimal.

use vstd::prelude::*;
use crate::address::{all_digits, all_upper, is_digit, is_upper};
use crate::text::push_char;

verus! {

/// The place of a capital letter in the alphabet, counted from 1.
pub open spec fn letter_rank(c: char) -> nat {
    (c as int - 'A' as int + 1) as nat
}

/// The capital letter at the given place of the alphabet, counted from 0.
pub open spec fn letter_at(place: nat) -> char {
    ('A' as nat + place) as char
}

/// The number of a column counted from 1: its name read as a numeral with
/// the twenty-six letters as digits 1 to 26.
pub open spec fn column_ordinal(name: Seq<char>) -> nat
    decreases name.len(),
{
    if name.len() == 0 {
        0
    } else {
        column_ordinal(name.drop_last()) * 26 + letter_rank(name.last())
    }
}

/// The name of the column with the given number, counted from 0.
pub open spec fn column_name(index: nat) -> Seq<char>
    decreases index,
{
    if index < 26 {
        seq![letter_at(index)]
    } else {
        column_name((index / 26 - 1) as nat).push(letter_at(index % 26))
    }
}

/// The number that a run of decimal digits denotes.
pub open spec fn decimal_value(digits: Seq<char>) -> nat
    decreases digits.len(),
{
    if digits.len() == 0 {
        0
    } else {
        decimal_value(digits.drop_last()) * 10 + (digits.last() as int - '0' as int) as nat
    }
}

/// The decimal digit for a number below ten.
pub open spec fn digit_at(d: nat) -> char {
    ('0' as nat + d) as char
}

/// A number written in decimal, without leading zeros.
pub open spec fn decimal_digits(n: nat) -> Seq<char>
    decreases n,
{
    if n < 10 {
        seq![digit_at(n)]
    } else {
        decimal_digits(n / 10).push(digit_at(n % 10))
    }
}

/// `rsheet_lib::cells::column_name_to_number` reads a column name as a
/// numeral in the letters `A` to `Z` and returns the column's number counted
/// from 0. It is called only on non-empty names of capital letters whose
/// number fits, on which it neither overflows nor fails its ASCII check.
pub assume_specification[ rsheet_lib::cells::column_name_to_number ](column: &str) -> (n: u32)
    requires
        column@.len() > 0,
        all_upper(column@),
        column_ordinal(column@) <= u32::MAX,
    ensures
        n == column_ordinal(column@) - 1,
;

/// `rsheet_lib::cells::column_number_to_name` writes the name of the column
/// with the given number counted from 0. It adds one to the number first, so
/// the largest `u32` is left out.
pub assume_specification[ rsheet_lib::cells::column_number_to_name ](col_num: u32) -> (name: String)
    requires
        col_num < u32::MAX,
    ensures
        name@ == column_name(col_num as nat),
;

/// A longer name has a larger number than any of its beginnings.
pub proof fn lemma_column_ordinal_prefix(name: Seq<char>, k: int)
    requires
        all_upper(name),
        0 <= k <= name.len(),
    ensures
        column_ordinal(name.take(k)) <= column_ordinal(name),
        k > 0 ==> column_ordinal(name.take(k)) >= 1,
    decreases name.len() - k,
{
    if k < name.len() {
        lemma_column_ordinal_prefix(name, k + 1);
        let longer = name.take(k + 1);
        assert(longer.drop_last() == name.take(k));
        assert(is_upper(name[k]));
        assert(longer.last() == name[k]);
        if k > 0 {
            lemma_column_ordinal_positive(name.take(k));
        }
    } else {
        assert(name.take(k) == name);
        if k > 0 {
            lemma_column_ordinal_positive(name);
        }
    }
}

/// A non-empty name of capital letters has a number of at least 1.
pub proof fn lemma_column_ordinal_positive(name: Seq<char>)
    requires
        all_upper(name),
        name.len() > 0,
    ensures
        column_ordinal(name) >= 1,
{
    assert(is_upper(name.last()));
}

/// The number, counted from 0, of a column named by capital letters, or
/// nothing where it does not fit the integer type.
pub fn column_number(name: &Vec<char>) -> (r: Option<u32>)
    requires
        name@.len() > 0,
        all_upper(name@),
    ensures
        r is Some <==> column_ordinal(name@) <= u32::MAX,
        r matches Some(n) ==> n == column_ordinal(name@) - 1,
{
    let mut i: usize = 0;
    let mut fits = true;
    let mut ordinal: u64 = 0;
    while i < name.len()
        invariant
            i <= name.len(),
            all_upper(name@),
            fits ==> ordinal == column_ordinal(name@.take(i as int)),
            fits ==> ordinal <= u32::MAX,
            !fits ==> column_ordinal(name@) > u32::MAX,
        decreases name.len() - i,
    {
        let c = name[i];
        assert(is_upper(name@[i as int]));
        proof {
            assert(name@.take(i + 1).drop_last() == name@.take(i as int));
            assert(name@.take(i + 1).last() == c);
        }
        if fits {
            let next: u64 = ordinal * 26 + (c as u64 - 'A' as u64 + 1);
            if next > u32::MAX as u64 {
                fits = false;
                proof {
                    lemma_column_ordinal_prefix(name@, i + 1);
                }
            } else {
                ordinal = next;
            }
        }
        i += 1;
    }
    if fits {
        proof {
            assert(name@.take(i as int) == name@);
            lemma_column_ordinal_positive(name@);
        }
        let text = crate::text::string_of(name);
        Some(rsheet_lib::cells::column_name_to_number(text.as_str()))
    } else {
        None
    }
}

/// A longer run of digits denotes at least what any of its beginnings does.
pub proof fn lemma_decimal_value_prefix(digits: Seq<char>, k: int)
    requires
        all_digits(digits),
        0 <= k <= digits.len(),
    ensures
        decimal_value(digits.take(k)) <= decimal_value(digits),
    decreases digits.len() - k,
{
    if k < digits.len() {
        lemma_decimal_value_prefix(digits, k + 1);
        let longer = digits.take(k + 1);
        assert(longer.drop_last() == digits.take(k));
        assert(is_digit(digits[k]));
        assert(longer.last() == digits[k]);
    } else {
        assert(digits.take(k) == digits);
    }
}

/// The number that a run of decimal digits denotes, or nothing where it
/// does not fit the integer type.
pub fn parse_row(digits: &Vec<char>) -> (r: Option<u32>)
    requires
        all_digits(digits@),
    ensures
        r is Some <==> decimal_value(digits@) <= u32::MAX,
        r matches Some(n) ==> n == decimal_value(digits@),
{
    let mut i: usize = 0;
    let mut value: u64 = 0;
    while i < digits.len()
        invariant
            i <= digits.len(),
            all_digits(digits@),
            value == decimal_value(digits@.take(i as int)),
            value <= u32::MAX,
        decreases digits.len() - i,
    {
        let c = digits[i];
        assert(is_digit(digits@[i as int]));
        proof {
            assert(digits@.take(i + 1).drop_last() == digits@.take(i as int));
            assert(digits@.take(i + 1).last() == c);
        }
        let next: u64 = value * 10 + (c as u64 - '0' as u64);
        if next > u32::MAX as u64 {
            proof {
                lemma_decimal_value_prefix(digits@, i + 1);
            }
            return None;
        }
        value = next;
        i += 1;
    }
    assert(digits@.take(i as int) == digits@);
    Some(value as u32)
}

/// The decimal digit for a number below ten.
pub fn digit_char(d: u32) -> (c: char)
    requires
        d < 10,
    ensures
        c == digit_at(d as nat),
        is_digit(c),
{
    let code: u8 = 48u8 + d as u8;
    code as char
}

/// A row number written in decimal, without leading zeros.
pub fn row_text(n: u32) -> (s: String)
    ensures
        s@ == decimal_digits(n as nat),
    decreases n,
{
    if n < 10 {
        let mut s = String::new();
        push_char(&mut s, digit_char(n));
        s
    } else {
        let mut s = row_text(n / 10);
        push_char(&mut s, digit_char(n % 10));
        s
    }
}

/// The name of a column is made of capital letters, and the number of the
/// column with that name is the number that the name was made for: names
/// and numbers stand for each other one to one.
pub proof fn lemma_column_name(index: nat)
    ensures
        column_name(index).len() > 0,
        all_upper(column_name(index)),
        column_ordinal(column_name(index)) == index + 1,
    decreases index,
{
    let name = column_name(index);
    let last = letter_at(index % 26);
    assert(is_upper(last) && letter_rank(last) == index % 26 + 1);
    if index < 26 {
        assert(name.drop_last() =~= Seq::<char>::empty());
        assert(column_ordinal(name.drop_last()) == 0);
    } else {
        let before = (index / 26 - 1) as nat;
        lemma_column_name(before);
        assert(name.drop_last() =~= column_name(before));
        assert forall|i: int| 0 <= i < name.len() implies is_upper(#[trigger] name[i]) by {
            if i < name.len() - 1 {
                assert(name[i] == column_name(before)[i]);
            }
        }
    }
}

/// A number written in decimal is made of digits, and they denote the
/// number.
pub proof fn lemma_decimal_digits(n: nat)
    ensures
        decimal_digits(n).len() > 0,
        all_digits(decimal_digits(n)),
        decimal_value(decimal_digits(n)) == n,
    decreases n,
{
    let digits = decimal_digits(n);
    let last = digit_at(n % 10);
    assert(is_digit(last) && last as int - '0' as int == n % 10);
    if n < 10 {
        assert(digits.drop_last() =~= Seq::<char>::empty());
        assert(decimal_value(digits.drop_last()) == 0);
    } else {
        lemma_decimal_digits(n / 10);
        assert(digits.drop_last() =~= decimal_digits(n / 10));
        assert forall|i: int| 0 <= i < digits.len() implies is_digit(#[trigger] digits[i]) by {
            if i < digits.len() - 1 {
                assert(digits[i] == decimal_digits(n / 10)[i]);
            }
        }
    }
}

} // verus!
