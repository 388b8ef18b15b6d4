//! Cell addresses: one or more capital letters naming the column, then one or
//! more decimal digits naming the row.

use vstd::prelude::*;

verus! {

/// A capital letter of the Latin alphabet.
pub open spec fn is_upper(c: char) -> bool {
    'A' <= c && c <= 'Z'
}

/// A decimal digit.
pub open spec fn is_digit(c: char) -> bool {
    '0' <= c && c <= '9'
}

/// Every character is a capital letter.
pub open spec fn all_upper(s: Seq<char>) -> bool {
    forall|i: int| 0 <= i < s.len() ==> is_upper(#[trigger] s[i])
}

/// Every character is a decimal digit.
pub open spec fn all_digits(s: Seq<char>) -> bool {
    forall|i: int| 0 <= i < s.len() ==> is_digit(#[trigger] s[i])
}

/// How many capital letters the text starts with.
pub open spec fn letters_prefix(s: Seq<char>) -> nat
    decreases s.len(),
{
    if s.len() > 0 && is_upper(s[0]) {
        1 + letters_prefix(s.drop_first())
    } else {
        0
    }
}

/// The leading capital letters of the text: the column of an address.
pub open spec fn column_part(s: Seq<char>) -> Seq<char> {
    s.subrange(0, letters_prefix(s) as int)
}

/// What follows the leading capital letters: the row of an address.
pub open spec fn row_part(s: Seq<char>) -> Seq<char> {
    s.subrange(letters_prefix(s) as int, s.len() as int)
}

/// The text is a cell address: capital letters, then digits, at least one of
/// each and nothing else.
pub open spec fn cell_address(s: Seq<char>) -> bool {
    &&& column_part(s).len() > 0
    &&& row_part(s).len() > 0
    &&& all_digits(row_part(s))
}

/// The leading capital letters are capital letters, they are no more than
/// the text holds, and the character after them, if any, is none.
pub proof fn lemma_letters_prefix(s: Seq<char>)
    ensures
        letters_prefix(s) <= s.len(),
        all_upper(column_part(s)),
        letters_prefix(s) < s.len() ==> !is_upper(s[letters_prefix(s) as int]),
    decreases s.len(),
{
    if s.len() > 0 && is_upper(s[0]) {
        let t = s.drop_first();
        lemma_letters_prefix(t);
        assert forall|i: int| 0 <= i < column_part(s).len() implies is_upper(
            #[trigger] column_part(s)[i],
        ) by {
            if i > 0 {
                assert(column_part(s)[i] == column_part(t)[i - 1]);
            }
        }
        if letters_prefix(s) < s.len() {
            assert(s[letters_prefix(s) as int] == t[letters_prefix(t) as int]);
        }
    }
}

/// A text that starts with `k` capital letters, followed by the end or by
/// another character, has exactly `k` leading capital letters.
pub proof fn lemma_letters_prefix_is(s: Seq<char>, k: int)
    requires
        0 <= k <= s.len(),
        forall|i: int| 0 <= i < k ==> is_upper(#[trigger] s[i]),
        k < s.len() ==> !is_upper(s[k]),
    ensures
        letters_prefix(s) == k,
    decreases s.len(),
{
    if k > 0 {
        assert(is_upper(s[0]));
        let t = s.drop_first();
        assert forall|i: int| 0 <= i < k - 1 implies is_upper(#[trigger] t[i]) by {
            assert(t[i] == s[i + 1]);
        }
        lemma_letters_prefix_is(t, k - 1);
    }
}

/// The grammar of an address, stated as a split: a text is a cell address
/// exactly when it is a non-empty run of capital letters followed by a
/// non-empty run of digits.
pub proof fn lemma_cell_address_grammar(s: Seq<char>)
    ensures
        cell_address(s) <==> exists|k: int|
            0 < k < s.len() && all_upper(#[trigger] s.subrange(0, k)) && all_digits(
                s.subrange(k, s.len() as int),
            ),
{
    lemma_letters_prefix(s);
    if cell_address(s) {
        let k = letters_prefix(s) as int;
        assert(0 < k < s.len() && all_upper(s.subrange(0, k)) && all_digits(
            s.subrange(k, s.len() as int),
        ));
    }
    if exists|k: int|
        0 < k < s.len() && all_upper(#[trigger] s.subrange(0, k)) && all_digits(
            s.subrange(k, s.len() as int),
        ) {
        let k = choose|k: int|
            0 < k < s.len() && all_upper(#[trigger] s.subrange(0, k)) && all_digits(
                s.subrange(k, s.len() as int),
            );
        assert forall|i: int| 0 <= i < k implies is_upper(#[trigger] s[i]) by {
            assert(s[i] == s.subrange(0, k)[i]);
        }
        assert(s[k] == s.subrange(k, s.len() as int)[0]);
        lemma_letters_prefix_is(s, k);
    }
}

/// Whether the character is a capital letter.
pub fn is_upper_char(c: char) -> (r: bool)
    ensures
        r == is_upper(c),
{
    'A' <= c && c <= 'Z'
}

/// Whether the character is a decimal digit.
pub fn is_digit_char(c: char) -> (r: bool)
    ensures
        r == is_digit(c),
{
    '0' <= c && c <= '9'
}

/// How many capital letters the characters start with.
pub fn count_letters(chars: &Vec<char>) -> (k: usize)
    ensures
        k == letters_prefix(chars@),
        k <= chars.len(),
{
    let mut k: usize = 0;
    while k < chars.len() && is_upper_char(chars[k])
        invariant
            k <= chars.len(),
            forall|i: int| 0 <= i < k ==> is_upper(#[trigger] chars@[i]),
        decreases chars.len() - k,
    {
        k += 1;
    }
    proof {
        lemma_letters_prefix_is(chars@, k as int);
    }
    k
}

/// Whether every character from `from` on is a decimal digit.
pub fn digits_from(chars: &Vec<char>, from: usize) -> (r: bool)
    requires
        from <= chars.len(),
    ensures
        r == all_digits(chars@.subrange(from as int, chars.len() as int)),
{
    let ghost tail = chars@.subrange(from as int, chars.len() as int);
    let mut i: usize = from;
    while i < chars.len()
        invariant
            from <= i <= chars.len(),
            tail == chars@.subrange(from as int, chars.len() as int),
            forall|j: int| from <= j < i ==> is_digit(#[trigger] chars@[j]),
        decreases chars.len() - i,
    {
        if !is_digit_char(chars[i]) {
            assert(tail[i - from] == chars@[i as int]);
            return false;
        }
        i += 1;
    }
    assert forall|j: int| 0 <= j < tail.len() implies is_digit(#[trigger] tail[j]) by {
        assert(tail[j] == chars@[j + from]);
    }
    true
}

/// Whether the characters are a cell address.
pub fn is_address_chars(chars: &Vec<char>) -> (r: bool)
    ensures
        r == cell_address(chars@),
{
    let k = count_letters(chars);
    k > 0 && k < chars.len() && digits_from(chars, k)
}

/// Whether the text is a cell address.
pub fn is_cell_address(s: &str) -> (r: bool)
    ensures
        r == cell_address(s@),
{
    let chars = crate::text::chars_of(s);
    is_address_chars(&chars)
}

} // verus!
