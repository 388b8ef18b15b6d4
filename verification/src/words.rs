//! Splitting a line into words at white space.

use vstd::prelude::*;
use crate::text::{chars_of, push_char, texts_view};

verus! {

/// A white-space character: one with the Unicode property `White_Space`.
pub open spec fn is_space(c: char) -> bool {
    ||| '\u{9}' <= c <= '\u{d}'
    ||| c == ' '
    ||| c == '\u{85}'
    ||| c == '\u{a0}'
    ||| c == '\u{1680}'
    ||| '\u{2000}' <= c <= '\u{200a}'
    ||| c == '\u{2028}'
    ||| c == '\u{2029}'
    ||| c == '\u{202f}'
    ||| c == '\u{205f}'
    ||| c == '\u{3000}'
}

/// How many white-space characters the line starts with.
pub open spec fn indent(line: Seq<char>) -> nat
    decreases line.len(),
{
    if line.len() > 0 && is_space(line[0]) {
        1 + indent(line.drop_first())
    } else {
        0
    }
}

/// How many white-space characters the line ends with.
pub open spec fn trailing(line: Seq<char>) -> nat
    decreases line.len(),
{
    if line.len() > 0 && is_space(line.last()) {
        1 + trailing(line.drop_last())
    } else {
        0
    }
}

/// The text without the white space at its two ends.
pub open spec fn trimmed(s: Seq<char>) -> Seq<char> {
    if indent(s) == s.len() {
        Seq::empty()
    } else {
        s.subrange(indent(s) as int, s.len() - trailing(s))
    }
}

/// The words of a text: its longest runs of characters other than white
/// space, in order.
pub open spec fn words(s: Seq<char>) -> Seq<Seq<char>>
    decreases s.len(),
{
    if s.len() == 0 {
        Seq::empty()
    } else {
        let before = words(s.drop_last());
        if is_space(s.last()) {
            before
        } else if s.len() >= 2 && !is_space(s[s.len() - 2]) {
            before.drop_last().push(before.last().push(s.last()))
        } else {
            before.push(seq![s.last()])
        }
    }
}

/// The words joined into one text, a single space between neighbours.
pub open spec fn joined(ws: Seq<Seq<char>>) -> Seq<char>
    decreases ws.len(),
{
    if ws.len() == 0 {
        Seq::empty()
    } else if ws.len() == 1 {
        ws[0]
    } else {
        joined(ws.drop_last()) + seq![' '] + ws.last()
    }
}

/// A text that ends in a character other than white space has at least one
/// word.
pub proof fn lemma_words_nonempty(s: Seq<char>)
    requires
        s.len() > 0,
        !is_space(s.last()),
    ensures
        words(s).len() > 0,
    decreases s.len(),
{
    if s.len() >= 2 && !is_space(s[s.len() - 2]) {
        lemma_words_nonempty(s.drop_last());
    }
}

/// Every word holds at least one character, and none of them is white
/// space.
pub proof fn lemma_words_hold_no_space(s: Seq<char>)
    ensures
        forall|i: int|
            0 <= i < words(s).len() ==> (#[trigger] words(s)[i]).len() > 0 && forall|j: int|
                0 <= j < words(s)[i].len() ==> !is_space(#[trigger] words(s)[i][j]),
    decreases s.len(),
{
    if s.len() > 0 {
        let before = words(s.drop_last());
        lemma_words_hold_no_space(s.drop_last());
        if is_space(s.last()) {
        } else if s.len() >= 2 && !is_space(s[s.len() - 2]) {
            lemma_words_nonempty(s.drop_last());
            let grown = before.last().push(s.last());
            assert forall|i: int| 0 <= i < words(s).len() implies (#[trigger] words(s)[i]).len() > 0
                && forall|j: int|
                0 <= j < words(s)[i].len() ==> !is_space(#[trigger] words(s)[i][j]) by {
                if i < words(s).len() - 1 {
                    assert(words(s)[i] == before[i]);
                } else {
                    assert(words(s)[i] == grown);
                    assert forall|j: int| 0 <= j < grown.len() implies !is_space(
                        #[trigger] grown[j],
                    ) by {
                        if j < grown.len() - 1 {
                            assert(grown[j] == before.last()[j]);
                        }
                    }
                }
            }
        } else {
            assert forall|i: int| 0 <= i < words(s).len() implies (#[trigger] words(s)[i]).len() > 0
                && forall|j: int|
                0 <= j < words(s)[i].len() ==> !is_space(#[trigger] words(s)[i][j]) by {
                if i < words(s).len() - 1 {
                    assert(words(s)[i] == before[i]);
                }
            }
        }
    }
}

/// Whether the character is white space.
pub fn is_space_char(c: char) -> (r: bool)
    ensures
        r == is_space(c),
{
    ('\u{9}' <= c && c <= '\u{d}') || c == ' ' || c == '\u{85}' || c == '\u{a0}' || c == '\u{1680}'
        || ('\u{2000}' <= c && c <= '\u{200a}') || c == '\u{2028}' || c == '\u{2029}' || c
        == '\u{202f}' || c == '\u{205f}' || c == '\u{3000}'
}

/// The words of a line, in order.
pub fn split_words(line: &str) -> (r: Vec<String>)
    ensures
        texts_view(r@) == words(line@),
{
    let chars = chars_of(line);
    let mut done: Vec<String> = Vec::new();
    let mut current = String::new();
    let mut in_word = false;
    let mut i: usize = 0;
    assert(chars@.take(0) =~= Seq::<char>::empty());
    assert(texts_view(done@) =~= Seq::<Seq<char>>::empty());
    while i < chars.len()
        invariant
            i <= chars.len(),
            in_word <==> (i > 0 && !is_space(chars@[i - 1])),
            in_word ==> texts_view(done@).push(current@) == words(
                chars@.take(i as int),
            ),
            !in_word ==> texts_view(done@) == words(chars@.take(i as int)),
            !in_word ==> current@.len() == 0,
        decreases chars.len() - i,
    {
        let c = chars[i];
        let ghost prefix = chars@.take(i + 1);
        proof {
            assert(prefix.drop_last() == chars@.take(i as int));
            assert(prefix.last() == c);
            if i > 0 {
                assert(prefix[prefix.len() - 2] == chars@[i - 1]);
            }
        }
        if is_space_char(c) {
            if in_word {
                let ghost before = texts_view(done@);
                done.push(current);
                assert(texts_view(done@) =~= before.push(current@));
                current = String::new();
                in_word = false;
            }
        } else {
            let ghost earlier = current@;
            push_char(&mut current, c);
            proof {
                let shown = texts_view(done@);
                if in_word {
                    assert(shown.push(earlier).drop_last() =~= shown);
                    assert(shown.push(earlier).last() == earlier);
                } else {
                    assert(current@ =~= seq![c]);
                }
            }
            in_word = true;
        }
        i += 1;
    }
    assert(chars@.take(i as int) == chars@);
    if in_word {
        let ghost before = texts_view(done@);
        done.push(current);
        assert(texts_view(done@) =~= before.push(current@));
    }
    done
}

/// The words from place `from` on, joined by single spaces.
pub fn join_words(ws: &Vec<String>, from: usize) -> (r: String)
    requires
        from <= ws.len(),
    ensures
        r@ == joined(texts_view(ws@).skip(from as int)),
{
    let ghost all = texts_view(ws@).skip(from as int);
    let mut r = String::new();
    let mut i: usize = from;
    assert(all.take(0) =~= Seq::<Seq<char>>::empty());
    while i < ws.len()
        invariant
            from <= i <= ws.len(),
            all == texts_view(ws@).skip(from as int),
            r@ == joined(all.take(i - from)),
        decreases ws.len() - i,
    {
        proof {
            let grown = all.take(i - from + 1);
            assert(grown.drop_last() == all.take(i - from));
            assert(grown.last() == ws@[i as int]@);
            if i == from {
                assert(grown[0] == ws@[i as int]@);
                assert(Seq::<char>::empty() + ws@[i as int]@ =~= ws@[i as int]@);
            }
        }
        if i > from {
            push_char(&mut r, ' ');
            assert(r@ == joined(all.take(i - from)) + seq![' ']);
        }
        r.append(ws[i].as_str());
        i += 1;
    }
    assert(all.take(i - from) == all);
    r
}

/// A text that starts with `k` white-space characters, followed by the end
/// or by another character, has an indent of `k`.
pub proof fn lemma_indent_is(s: Seq<char>, k: int)
    requires
        0 <= k <= s.len(),
        forall|i: int| 0 <= i < k ==> is_space(#[trigger] s[i]),
        k < s.len() ==> !is_space(s[k]),
    ensures
        indent(s) == k,
    decreases s.len(),
{
    if k > 0 {
        assert(is_space(s[0]));
        let rest = s.drop_first();
        assert forall|i: int| 0 <= i < k - 1 implies is_space(#[trigger] rest[i]) by {
            assert(rest[i] == s[i + 1]);
        }
        lemma_indent_is(rest, k - 1);
    }
}

/// A text that ends with `k` white-space characters, preceded by the start
/// or by another character, has `k` trailing white-space characters.
pub proof fn lemma_trailing_is(s: Seq<char>, k: int)
    requires
        0 <= k <= s.len(),
        forall|i: int| s.len() - k <= i < s.len() ==> is_space(#[trigger] s[i]),
        k < s.len() ==> !is_space(s[s.len() - 1 - k]),
    ensures
        trailing(s) == k,
    decreases s.len(),
{
    if k > 0 {
        assert(is_space(s[s.len() - 1]));
        let rest = s.drop_last();
        assert forall|i: int| rest.len() - (k - 1) <= i < rest.len() implies is_space(
            #[trigger] rest[i],
        ) by {
            assert(rest[i] == s[i]);
        }
        lemma_trailing_is(rest, k - 1);
    }
}

/// The text without the white space at its two ends.
pub fn trim_text<'a>(s: &'a str) -> (r: &'a str)
    ensures
        r@ == trimmed(s@),
{
    let chars = chars_of(s);
    let mut start: usize = 0;
    while start < chars.len() && is_space_char(chars[start])
        invariant
            start <= chars.len(),
            forall|i: int| 0 <= i < start ==> is_space(#[trigger] chars@[i]),
        decreases chars.len() - start,
    {
        start += 1;
    }
    proof {
        lemma_indent_is(chars@, start as int);
    }
    if start == chars.len() {
        let r = s.substring_char(0, 0);
        assert(r@ =~= Seq::<char>::empty());
        return r;
    }
    let mut end: usize = chars.len();
    while end > start && is_space_char(chars[end - 1])
        invariant
            start < chars.len(),
            !is_space(chars@[start as int]),
            start <= end <= chars.len(),
            forall|i: int| end <= i < chars.len() ==> is_space(#[trigger] chars@[i]),
        decreases end,
    {
        end -= 1;
    }
    proof {
        lemma_trailing_is(chars@, chars.len() - end);
    }
    s.substring_char(start, end)
}

} // verus!
