//! Sentences of a text: what stands between full stops, without the white
//! space at its ends.

use vstd::prelude::*;
use crate::text::{chars_of, same_text};
use crate::words::{trim_text, trimmed};

verus! {

/// The sentences of a text that were found to hold a given text.
#[derive(Debug)]
pub struct SearchResult<'a, 'b> {
    /// The sentences found, in the order of the text.
    pub matches: Vec<&'a str>,
    /// The text that was looked for.
    pub contains: &'b str,
}

/// How often a sentence was found.
#[derive(Debug, PartialEq, Eq)]
pub struct Count<'a> {
    pub sentence: &'a str,
    pub times: i32,
}

/// How often a sentence was found, as a pair of the sentence and the
/// number.
pub struct CountView {
    pub sentence: Seq<char>,
    pub times: int,
}

/// The texts of a list of texts.
pub open spec fn strs_view(texts: Seq<&str>) -> Seq<Seq<char>> {
    Seq::new(texts.len(), |i: int| texts[i]@)
}

/// The counts of a list of counts.
pub open spec fn counts_view(counts: Seq<Count<'_>>) -> Seq<CountView> {
    Seq::new(
        counts.len(),
        |i: int| CountView { sentence: counts[i].sentence@, times: counts[i].times as int },
    )
}

/// The text `needle` stands somewhere in the text `hay`.
pub open spec fn occurs(hay: Seq<char>, needle: Seq<char>) -> bool {
    exists|i: int|
        0 <= i <= hay.len() - needle.len() && #[trigger] hay.subrange(i, i + needle.len())
            == needle
}

/// How many characters stand before the first full stop of the text, or
/// its length where it holds none.
pub open spec fn before_stop(s: Seq<char>) -> nat
    decreases s.len(),
{
    if s.len() > 0 && s[0] != '.' {
        1 + before_stop(s.drop_first())
    } else {
        0
    }
}

/// The sentences of the text from place `from` on that hold `needle`. A
/// sentence is what stands between two full stops, or before the first,
/// without the white space at its ends; one that is empty then is none.
/// What stands after the last full stop is a sentence whether or not it
/// holds `needle`.
pub open spec fn sentences(text: Seq<char>, needle: Seq<char>, from: int) -> Seq<Seq<char>>
    decreases text.len() - from,
{
    if from < 0 || from >= text.len() {
        Seq::empty()
    } else {
        let end = from + before_stop(text.skip(from));
        let sentence = trimmed(text.subrange(from, end));
        if end >= text.len() {
            if sentence.len() > 0 {
                seq![sentence]
            } else {
                Seq::empty()
            }
        } else if sentence.len() > 0 && occurs(sentence, needle) {
            seq![sentence] + sentences(text, needle, end + 1)
        } else {
            sentences(text, needle, end + 1)
        }
    }
}

/// The counts with one more finding of the sentence: its count grows by
/// one, or it gets a count of one behind the others.
pub open spec fn tallied(counts: Seq<CountView>, sentence: Seq<char>) -> Seq<CountView>
    decreases counts.len(),
{
    if counts.len() == 0 {
        seq![CountView { sentence, times: 1 }]
    } else if counts[0].sentence == sentence {
        seq![CountView { sentence, times: counts[0].times + 1 }] + counts.drop_first()
    } else {
        seq![counts[0]] + tallied(counts.drop_first(), sentence)
    }
}

/// The counts with one more finding of each of the sentences.
pub open spec fn tallied_all(counts: Seq<CountView>, found: Seq<Seq<char>>) -> Seq<CountView>
    decreases found.len(),
{
    if found.len() == 0 {
        counts
    } else {
        tallied_all(tallied(counts, found[0]), found.drop_first())
    }
}

/// The counts with the findings of each of the searches.
pub open spec fn tallied_searches(counts: Seq<CountView>, searches: Seq<Seq<Seq<char>>>) -> Seq<
    CountView,
>
    decreases searches.len(),
{
    if searches.len() == 0 {
        counts
    } else {
        tallied_searches(tallied_all(counts, searches[0]), searches.drop_first())
    }
}

/// The findings of each of the searches.
pub open spec fn findings(searches: Seq<SearchResult<'_, '_>>) -> Seq<Seq<Seq<char>>> {
    Seq::new(searches.len(), |i: int| strs_view(searches[i].matches@))
}

/// How many findings the searches hold in all.
pub open spec fn total(searches: Seq<Seq<Seq<char>>>) -> nat
    decreases searches.len(),
{
    if searches.len() == 0 {
        0
    } else {
        searches[0].len() + total(searches.drop_first())
    }
}

/// A text that starts with `k` characters other than the full stop,
/// followed by the end or by a full stop, has `k` characters before its
/// first full stop.
pub proof fn lemma_before_stop_is(s: Seq<char>, k: int)
    requires
        0 <= k <= s.len(),
        forall|i: int| 0 <= i < k ==> #[trigger] s[i] != '.',
        k < s.len() ==> s[k] == '.',
    ensures
        before_stop(s) == k,
    decreases s.len(),
{
    if k > 0 {
        assert(s[0] != '.');
        let rest = s.drop_first();
        assert forall|i: int| 0 <= i < k - 1 implies #[trigger] rest[i] != '.' by {
            assert(rest[i] == s[i + 1]);
        }
        lemma_before_stop_is(rest, k - 1);
    }
}

/// Whether the text `needle` stands in the text `hay` at place `at`.
fn stands_at(hay: &Vec<char>, needle: &Vec<char>, at: usize) -> (r: bool)
    requires
        at + needle.len() <= hay.len(),
    ensures
        r == (hay@.subrange(at as int, at + needle.len()) == needle@),
{
    let ghost part = hay@.subrange(at as int, at + needle.len());
    let mut j: usize = 0;
    while j < needle.len()
        invariant
            j <= needle.len(),
            at + needle.len() <= hay.len(),
            part == hay@.subrange(at as int, at + needle.len()),
            forall|k: int| 0 <= k < j ==> part[k] == needle@[k],
        decreases needle.len() - j,
    {
        if hay[at + j] != needle[j] {
            assert(part[j as int] != needle@[j as int]);
            return false;
        }
        j += 1;
    }
    assert(part =~= needle@);
    true
}

/// Whether the text `needle` stands somewhere in the text `hay`.
pub fn text_occurs(hay: &str, needle: &str) -> (r: bool)
    ensures
        r == occurs(hay@, needle@),
{
    let hay_chars = chars_of(hay);
    let needle_chars = chars_of(needle);
    if needle_chars.len() > hay_chars.len() {
        return false;
    }
    let last = hay_chars.len() - needle_chars.len();
    let mut at: usize = 0;
    loop
        invariant
            at <= last,
            last == hay_chars.len() - needle_chars.len(),
            hay_chars@ == hay@,
            needle_chars@ == needle@,
            forall|i: int|
                0 <= i < at ==> #[trigger] hay@.subrange(i, i + needle@.len()) != needle@,
        decreases last - at,
    {
        if stands_at(&hay_chars, &needle_chars, at) {
            return true;
        }
        if at == last {
            return false;
        }
        at += 1;
    }
}

/// The sentences of the text that hold `contains`, in the order of the
/// text, and after them what stands after the last full stop.
pub fn find_sentences_containing<'a, 'b>(text: &'a str, contains: &'b str) -> (r: SearchResult<
    'a,
    'b,
>)
    ensures
        r.contains@ == contains@,
        strs_view(r.matches@) == sentences(text@, contains@, 0),
{
    let chars = chars_of(text);
    let mut found: Vec<&'a str> = Vec::new();
    let mut from: usize = 0;
    assert(strs_view(found@) =~= Seq::<Seq<char>>::empty());
    while from < chars.len()
        invariant
            chars@ == text@,
            strs_view(found@) + sentences(text@, contains@, from as int) == sentences(
                text@,
                contains@,
                0,
            ),
        decreases chars.len() - from,
    {
        let mut end: usize = from;
        while end < chars.len() && chars[end] != '.'
            invariant
                from <= end <= chars.len(),
                forall|i: int| from <= i < end ==> #[trigger] chars@[i] != '.',
            decreases chars.len() - end,
        {
            end += 1;
        }
        proof {
            let rest = chars@.skip(from as int);
            assert forall|i: int| 0 <= i < end - from implies #[trigger] rest[i] != '.' by {
                assert(rest[i] == chars@[from + i]);
            }
            lemma_before_stop_is(rest, end - from);
        }
        let sentence = trim_text(text.substring_char(from, end));
        let ghost before = strs_view(found@);
        let is_last = end == chars.len();
        if sentence.unicode_len() > 0 && (is_last || text_occurs(sentence, contains)) {
            found.push(sentence);
            assert(strs_view(found@) =~= before + seq![sentence@]);
        }
        proof {
            let rest = sentences(text@, contains@, end + 1);
            assert(before + (seq![sentence@] + rest) =~= (before + seq![sentence@]) + rest);
            if is_last {
                assert(rest =~= Seq::<Seq<char>>::empty());
            }
        }
        if is_last {
            from = end;
        } else {
            from = end + 1;
        }
    }
    assert(strs_view(found@) + Seq::<Seq<char>>::empty() =~= strs_view(found@));
    SearchResult { matches: found, contains }
}

/// Adds one finding of the sentence to the counts.
fn tally<'a>(counts: &mut Vec<Count<'a>>, sentence: &'a str)
    requires
        forall|i: int| 0 <= i < old(counts).len() ==> 0 <= (#[trigger] old(counts)[i]).times < i32::MAX,
    ensures
        counts_view(final(counts)@) == tallied(counts_view(old(counts)@), sentence@),
{
    let ghost all = counts_view(counts@);
    let mut i: usize = 0;
    proof {
        assert(all.take(0) =~= Seq::<CountView>::empty());
        assert(all.skip(0) =~= all);
        assert(all.take(0) + tallied(all, sentence@) =~= tallied(all, sentence@));
    }
    while i < counts.len()
        invariant
            i <= counts.len(),
            counts@ == old(counts)@,
            forall|i: int| 0 <= i < counts.len() ==> 0 <= (#[trigger] counts[i]).times < i32::MAX,
            all == counts_view(counts@),
            forall|k: int| 0 <= k < i ==> (#[trigger] all[k]).sentence != sentence@,
            all.take(i as int) + tallied(all.skip(i as int), sentence@) == tallied(all, sentence@),
        decreases counts.len() - i,
    {
        assert(all[i as int].sentence == counts@[i as int].sentence@);
        assert(all.skip(i as int)[0] == all[i as int]);
        assert(all.skip(i as int).drop_first() =~= all.skip(i + 1));
        if same_text(counts[i].sentence, sentence) {
            let times = counts[i].times;
            counts[i].times = times + 1;
            proof {
                let now = counts_view(counts@);
                let grown = CountView { sentence: sentence@, times: times + 1 };
                assert(now =~= all.take(i as int) + (seq![grown] + all.skip(i + 1)));
            }
            return ;
        }
        proof {
            assert(all.take(i as int) + (seq![all[i as int]] + tallied(
                all.skip(i + 1),
                sentence@,
            )) =~= all.take(i + 1) + tallied(all.skip(i + 1), sentence@));
        }
        i += 1;
    }
    counts.push(Count { sentence, times: 1 });
    proof {
        assert(all.skip(i as int) =~= Seq::<CountView>::empty());
        assert(all.take(i as int) =~= all);
        assert(counts_view(counts@) =~= all + seq![CountView { sentence: sentence@, times: 1 }]);
    }
}

/// No count grows by more than one with one more finding, and none
/// shrinks below one.
pub proof fn lemma_tallied_bound(counts: Seq<CountView>, sentence: Seq<char>, bound: int)
    requires
        0 <= bound,
        forall|i: int| 0 <= i < counts.len() ==> 1 <= (#[trigger] counts[i]).times <= bound,
    ensures
        forall|i: int|
            0 <= i < tallied(counts, sentence).len() ==> 1 <= (#[trigger] tallied(
                counts,
                sentence,
            )[i]).times <= bound + 1,
    decreases counts.len(),
{
    let after = tallied(counts, sentence);
    if counts.len() == 0 {
    } else if counts[0].sentence == sentence {
        assert forall|i: int| 0 <= i < after.len() implies 1 <= (#[trigger] after[i]).times <= bound
            + 1 by {
            if i > 0 {
                assert(after[i] == counts[i]);
            }
        }
    } else {
        let rest = counts.drop_first();
        assert forall|i: int| 0 <= i < rest.len() implies 1 <= (#[trigger] rest[i]).times
            <= bound by {
            assert(rest[i] == counts[i + 1]);
        }
        lemma_tallied_bound(rest, sentence, bound);
        assert forall|i: int| 0 <= i < after.len() implies 1 <= (#[trigger] after[i]).times <= bound
            + 1 by {
            if i > 0 {
                assert(after[i] == tallied(rest, sentence)[i - 1]);
            }
        }
    }
}

/// How often each sentence was found by the searches: for each sentence its
/// number of findings in all the searches together, the sentences in the
/// order in which they were first found.
pub fn count_sentence_matches<'a, 'b>(searches: Vec<SearchResult<'a, 'b>>) -> (r: Vec<Count<'a>>)
    requires
        total(findings(searches@)) <= i32::MAX,
    ensures
        counts_view(r@) == tallied_searches(Seq::empty(), findings(searches@)),
{
    let ghost all = findings(searches@);
    let mut res: Vec<Count<'a>> = Vec::new();
    let mut k: usize = 0;
    let ghost mut done: nat = 0;
    proof {
        assert(all.skip(0) =~= all);
        assert(counts_view(res@) =~= Seq::<CountView>::empty());
    }
    while k < searches.len()
        invariant
            k <= searches.len(),
            all == findings(searches@),
            total(all) <= i32::MAX,
            done + total(all.skip(k as int)) == total(all),
            forall|i: int| 0 <= i < res.len() ==> 1 <= (#[trigger] res[i]).times <= done,
            tallied_searches(counts_view(res@), all.skip(k as int)) == tallied_searches(
                Seq::empty(),
                all,
            ),
        decreases searches.len() - k,
    {
        let search = &searches[k];
        let ghost found = strs_view(search.matches@);
        proof {
            assert(all.skip(k as int)[0] == found);
            assert(all.skip(k as int).drop_first() =~= all.skip(k + 1));
            assert(found.skip(0) =~= found);
        }
        let ghost start = done;
        let mut j: usize = 0;
        while j < search.matches.len()
            invariant
                j <= search.matches.len(),
                found == strs_view(search.matches@),
                done == start + j,
                start + found.len() + total(all.skip(k + 1)) == total(all),
                total(all) <= i32::MAX,
                forall|i: int| 0 <= i < res.len() ==> 1 <= (#[trigger] res[i]).times <= done,
                tallied_searches(
                    tallied_all(counts_view(res@), found.skip(j as int)),
                    all.skip(k + 1),
                ) == tallied_searches(Seq::empty(), all),
            decreases search.matches.len() - j,
        {
            proof {
                assert(found.skip(j as int)[0] == search.matches@[j as int]@);
                assert(found.skip(j as int).drop_first() =~= found.skip(j + 1));
                let views = counts_view(res@);
                assert forall|i: int| 0 <= i < views.len() implies 1 <= (#[trigger] views[i]).times
                    <= done by {
                    assert(views[i].times == res[i].times);
                }
                lemma_tallied_bound(views, search.matches@[j as int]@, done as int);
            }
            tally(&mut res, search.matches[j]);
            proof {
                let views = counts_view(res@);
                assert forall|i: int| 0 <= i < res.len() implies 1 <= (#[trigger] res[i]).times
                    <= done + 1 by {
                    assert(views[i].times == res[i].times);
                }
                done = done + 1;
            }
            j += 1;
        }
        assert(found.skip(j as int) =~= Seq::<Seq<char>>::empty());
        k += 1;
    }
    assert(all.skip(k as int) =~= Seq::<Seq<Seq<char>>>::empty());
    res
}

} // verus!
