//! The Caesar cipher: every letter of the Latin alphabet is moved a fixed
//! number of places along the alphabet, round its end; nothing else changes.

use vstd::prelude::*;
use crate::text::{chars_of, push_char};

verus! {

/// The shift that is used where none is given.
pub const DEFAULT_SHIFT: i32 = 5;

/// The code of the letter `A`.
pub const UPPERCASE_A: i32 = 65;

/// The code of the letter `a`.
pub const LOWERCASE_A: i32 = 97;

/// The number of letters in the alphabet.
pub const ALPHABET_SIZE: i32 = 26;

/// A number is the code of a character.
pub open spec fn is_char_code(code: int) -> bool {
    0 <= code <= 0xD7FF || 0xE000 <= code <= 0x10FFFF
}

/// A character moved `by` places along the alphabet. A capital letter stays
/// a capital letter and a small letter a small letter; any other character
/// stays as it is.
pub open spec fn shifted_char(c: char, by: int) -> char {
    if 'A' <= c <= 'Z' {
        (65 + (c as int - 65 + by) % 26) as char
    } else if 'a' <= c <= 'z' {
        (97 + (c as int - 97 + by) % 26) as char
    } else {
        c
    }
}

/// A line with every character moved `by` places.
pub open spec fn shifted_line(line: Seq<char>, by: int) -> Seq<char> {
    Seq::new(line.len(), |i: int| shifted_char(line[i], by))
}

/// `char::from_u32`: the character with the given code, where there is one.
#[verifier::external_body]
fn char_from_u32(code: u32) -> (r: Option<char>)
    ensures
        r is Some <==> is_char_code(code as int),
        r matches Some(c) ==> c as int == code,
{
    char::from_u32(code)
}

/// The size of the remainder of `a` divided by `b`.
pub fn abs_modulo(a: i32, b: i32) -> (r: i32)
    requires
        b != 0,
        !(a == i32::MIN && b == -1),
    ensures
        r == (if a < 0 { -a } else { a as int }) % (if b < 0 { -b } else { b as int }),
{
    proof {
        let size = if a < 0 { -a } else { a as int };
        let by = if b < 0 { -b } else { b as int };
        assert(0 <= size % by < by) by (nonlinear_arith)
            requires
                0 <= size,
                0 < by,
        ;
        assert(a * -1 == -a && b * -1 == -b);
        assert(a == 0 ==> size % by == 0);
    }
    match a.checked_rem(b) {
        Some(remainder) => if remainder < 0 { -remainder } else { remainder },
        None => 0,
    }
}

/// The character with the given code.
pub fn to_ascii(i: i32) -> (c: char)
    requires
        is_char_code(i as int),
    ensures
        c as int == i,
{
    match char_from_u32(i as u32) {
        Some(c) => c,
        None => ' ',
    }
}

/// How far a letter is from the start of its alphabet; nothing for any
/// other character.
pub open spec fn letter_offset(c: char) -> Option<int> {
    if 'a' <= c <= 'z' {
        Some(c as int - 97)
    } else if 'A' <= c <= 'Z' {
        Some(c as int - 65)
    } else {
        None
    }
}

/// A character moved `shift` places along the alphabet, for a move that
/// does not lead before the start of the alphabet, or that leads there by
/// whole turns of the alphabet.
pub fn shift_char(c: char, shift: i32) -> (r: char)
    requires
        letter_offset(c) matches Some(offset) ==> offset + shift <= i32::MAX && (offset + shift
            >= 0 || (offset + shift) % 26 == 0),
    ensures
        r == shifted_char(c, shift as int),
{
    let code: i32 = c as u32 as i32;
    if 'a' <= c && c <= 'z' {
        let moved = code - LOWERCASE_A + shift;
        let place = match moved.checked_rem(ALPHABET_SIZE) {
            Some(place) => place,
            None => 0,
        };
        assert(moved * -1 == -moved);
        assert(place == moved as int % 26);
        to_ascii(place + LOWERCASE_A)
    } else if 'A' <= c && c <= 'Z' {
        let moved = code - UPPERCASE_A + shift;
        let place = match moved.checked_rem(ALPHABET_SIZE) {
            Some(place) => place,
            None => 0,
        };
        assert(moved * -1 == -moved);
        assert(place == moved as int % 26);
        to_ascii(place + UPPERCASE_A)
    } else {
        c
    }
}

/// A line with every letter moved `shift_by` places along the alphabet.
pub fn shift(shift_by: i32, line: String) -> (r: String)
    ensures
        r@ == shifted_line(line@, shift_by as int),
{
    let by: i32 = match shift_by.checked_rem(ALPHABET_SIZE) {
        Some(remainder) => remainder + ALPHABET_SIZE,
        None => ALPHABET_SIZE,
    };
    assert(0 < by < 52 && (by as int) % 26 == (shift_by as int) % 26);
    let chars = chars_of(line.as_str());
    let mut result = String::new();
    let mut i: usize = 0;
    while i < chars.len()
        invariant
            i <= chars.len(),
            chars@ == line@,
            0 < by < 52,
            (by as int) % 26 == (shift_by as int) % 26,
            result@ == shifted_line(line@, shift_by as int).take(i as int),
        decreases chars.len() - i,
    {
        let c = chars[i];
        let ascii: i32 = c as u32 as i32;
        let moved = if 'A' <= c && c <= 'Z' {
            assert((ascii - 65 + by) % 26 == (ascii - 65 + shift_by) % 26) by (nonlinear_arith)
                requires
                    (by as int) % 26 == (shift_by as int) % 26,
            ;
            to_ascii(abs_modulo((ascii - UPPERCASE_A) + by, ALPHABET_SIZE) + UPPERCASE_A)
        } else if 'a' <= c && c <= 'z' {
            assert((ascii - 97 + by) % 26 == (ascii - 97 + shift_by) % 26) by (nonlinear_arith)
                requires
                    (by as int) % 26 == (shift_by as int) % 26,
            ;
            to_ascii(abs_modulo((ascii - LOWERCASE_A) + by, ALPHABET_SIZE) + LOWERCASE_A)
        } else {
            c
        };
        assert(moved == shifted_char(c, shift_by as int));
        push_char(&mut result, moved);
        assert(result@ =~= shifted_line(line@, shift_by as int).take(i + 1));
        i += 1;
    }
    assert(shifted_line(line@, shift_by as int).take(i as int) =~= shifted_line(
        line@,
        shift_by as int,
    ));
    result
}

/// The lines with every letter moved `shift_by` places along the alphabet,
/// or five places where no shift is given.
pub fn caesar_shift(shift_by: Option<i32>, lines: Vec<String>) -> (r: Vec<String>)
    ensures
        r.len() == lines.len(),
        forall|i: int|
            0 <= i < lines.len() ==> (#[trigger] r@[i])@ == shifted_line(
                lines@[i]@,
                match shift_by {
                    Some(by) => by as int,
                    None => 5,
                },
            ),
{
    let shift_number = match shift_by {
        Some(by) => by,
        None => DEFAULT_SHIFT,
    };
    let mut r: Vec<String> = Vec::new();
    let mut i: usize = 0;
    while i < lines.len()
        invariant
            i <= lines.len(),
            r.len() == i,
            forall|j: int|
                0 <= j < i ==> (#[trigger] r@[j])@ == shifted_line(lines@[j]@, shift_number as int),
        decreases lines.len() - i,
    {
        r.push(shift(shift_number, lines[i].clone()));
        i += 1;
    }
    r
}

} // verus!
