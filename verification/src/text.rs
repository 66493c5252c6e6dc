//! Text as the statements need it: words, prefixes and decimal numbers.

use vstd::prelude::*;
use vstd::std_specs::iter::IteratorSpec;
use vstd::string::*;
use vstd::utf8::*;

verus! {

/// The characters that separate words: those with the Unicode property
/// White_Space.
pub open spec fn is_whitespace(c: char) -> bool {
    ||| '\u{9}' <= c && c <= '\u{d}'
    ||| c == ' '
    ||| c == '\u{85}'
    ||| c == '\u{a0}'
    ||| c == '\u{1680}'
    ||| '\u{2000}' <= c && c <= '\u{200a}'
    ||| c == '\u{2028}'
    ||| c == '\u{2029}'
    ||| c == '\u{202f}'
    ||| c == '\u{205f}'
    ||| c == '\u{3000}'
}

/// Whether `c` separates words.
pub fn char_is_whitespace(c: char) -> (r: bool)
    ensures
        r == is_whitespace(c),
{
    ('\u{9}' <= c && c <= '\u{d}') || c == ' ' || c == '\u{85}' || c == '\u{a0}' || c
        == '\u{1680}' || ('\u{2000}' <= c && c <= '\u{200a}') || c == '\u{2028}' || c
        == '\u{2029}' || c == '\u{202f}' || c == '\u{205f}' || c == '\u{3000}'
}

/// The words of a text: its longest runs of characters that are not
/// whitespace, in order. A character that is no whitespace goes on the word
/// that the character before it is in, or starts a new one.
pub open spec fn words(text: Seq<char>) -> Seq<Seq<char>>
    decreases text.len(),
{
    if text.len() == 0 {
        Seq::empty()
    } else {
        let before = words(text.drop_last());
        if is_whitespace(text.last()) {
            before
        } else if text.len() >= 2 && !is_whitespace(text[text.len() - 2]) {
            before.drop_last().push(before.last().push(text.last()))
        } else {
            before.push(seq![text.last()])
        }
    }
}

/// The words that the ranges cut out of `text`.
pub open spec fn words_at(text: Seq<char>, ranges: Seq<(usize, usize)>) -> Seq<Seq<char>> {
    ranges.map_values(|range: (usize, usize)| text.subrange(range.0 as int, range.1 as int))
}

/// A text has no more characters than its UTF-8 encoding has bytes.
pub proof fn lemma_chars_within_bytes(text: Seq<char>)
    ensures
        text.len() <= encode_utf8(text).len(),
    decreases text.len(),
{
    if text.len() > 0 {
        lemma_chars_within_bytes(text.drop_first());
    }
}

/// Where the words of `text` start and end, counted in characters.
pub fn word_ranges(text: &str) -> (ranges: Vec<(usize, usize)>)
    ensures
        words_at(text@, ranges@) == words(text@),
        forall|k: int|
            0 <= k < ranges@.len() ==> (#[trigger] ranges@[k]).0 <= ranges@[k].1 <= text@.len(),
{
    // The text fits in memory, so its characters can be counted in a `usize`.
    let byte_len: usize = text.as_bytes().len();
    proof {
        lemma_chars_within_bytes(text@);
    }
    let mut ranges: Vec<(usize, usize)> = Vec::new();
    let mut chars = text.chars();
    let mut i: usize = 0;
    let mut in_word: bool = false;
    let mut start: usize = 0;
    let ghost all = text@;
    assert(words_at(all, ranges@) =~= words(all.subrange(0, 0)));
    loop
        invariant
            all == text@,
            all.len() <= usize::MAX,
            i <= all.len(),
            chars.remaining() == all.subrange(i as int, all.len() as int),
            in_word == (i > 0 && !is_whitespace(all[i - 1])),
            in_word ==> start < i,
            forall|k: int|
                0 <= k < ranges@.len() ==> (#[trigger] ranges@[k]).0 <= ranges@[k].1 <= i,
            words(all.subrange(0, i as int)) == if in_word {
                words_at(all, ranges@).push(all.subrange(start as int, i as int))
            } else {
                words_at(all, ranges@)
            },
        ensures
            i == all.len(),
        decreases all.len() - i,
    {
        match chars.next() {
            Some(c) => {
                let ghost before = all.subrange(0, i as int);
                let ghost now = all.subrange(0, i + 1);
                assert(c == all[i as int]);
                assert(now.drop_last() =~= before);
                assert(now.last() == c);
                if char_is_whitespace(c) {
                    if in_word {
                        proof {
                            assert(words_at(all, ranges@.push((start, i))) =~= words_at(
                                all,
                                ranges@,
                            ).push(all.subrange(start as int, i as int)));
                        }
                        ranges.push((start, i));
                        in_word = false;
                    }
                } else {
                    if !in_word {
                        start = i;
                        in_word = true;
                        assert(all.subrange(i as int, i + 1) =~= seq![c]);
                    } else {
                        assert(now[now.len() - 2] == all[i - 1]);
                        assert(all.subrange(start as int, i as int).push(c) =~= all.subrange(
                            start as int,
                            i + 1,
                        ));
                        assert(words(before).drop_last() =~= words_at(all, ranges@));
                    }
                }
                i = i + 1;
            },
            None => {
                break ;
            },
        }
    }
    assert(all.subrange(0, i as int) =~= all);
    if in_word {
        proof {
            assert(words_at(all, ranges@.push((start, i))) =~= words_at(all, ranges@).push(
                all.subrange(start as int, i as int),
            ));
        }
        ranges.push((start, i));
    }
    ranges
}

/// Whether `text` begins with `prefix`.
pub fn starts_with(text: &str, prefix: &str) -> (r: bool)
    ensures
        r == prefix@.is_prefix_of(text@),
{
    // Both texts fit in memory, so their characters can be counted in a `usize`.
    let text_len: usize = text.as_bytes().len();
    let prefix_len: usize = prefix.as_bytes().len();
    proof {
        lemma_chars_within_bytes(text@);
        lemma_chars_within_bytes(prefix@);
    }
    let mut text_chars = text.chars();
    let mut prefix_chars = prefix.chars();
    let mut i: usize = 0;
    loop
        invariant
            i <= prefix@.len() <= usize::MAX,
            i <= text@.len() <= usize::MAX,
            text_chars.remaining() == text@.subrange(i as int, text@.len() as int),
            prefix_chars.remaining() == prefix@.subrange(i as int, prefix@.len() as int),
            text@.subrange(0, i as int) == prefix@.subrange(0, i as int),
        decreases prefix@.len() - i,
    {
        match prefix_chars.next() {
            None => {
                assert(prefix@.subrange(0, i as int) =~= prefix@);
                return true;
            },
            Some(expected) => {
                match text_chars.next() {
                    None => {
                        return false;
                    },
                    Some(c) => {
                        if c != expected {
                            assert(text@[i as int] != prefix@[i as int]);
                            proof {
                                if prefix@.len() <= text@.len() {
                                    assert(text@.subrange(0, prefix@.len() as int)[i as int]
                                        == text@[i as int]);
                                }
                            }
                            return false;
                        }
                        assert(text@.subrange(0, i + 1) =~= text@.subrange(0, i as int).push(c));
                        assert(prefix@.subrange(0, i + 1) =~= prefix@.subrange(0, i as int).push(
                            expected,
                        ));
                        i = i + 1;
                    },
                }
            },
        }
    }
}

/// A number in decimal digits, as ASCII.
pub open spec fn decimal(n: nat) -> Seq<u8>
    decreases n,
{
    if n < 10 {
        seq![('0' as u8 + n) as u8]
    } else {
        decimal(n / 10).push(('0' as u8 + n % 10) as u8)
    }
}

/// Appends `n` in decimal digits.
pub fn push_decimal(out: &mut Vec<u8>, n: u32)
    ensures
        final(out)@ == old(out)@ + decimal(n as nat),
    decreases n,
{
    if n >= 10 {
        push_decimal(out, n / 10);
    }
    out.push('0' as u8 + (n % 10) as u8);
    assert(out@ =~= old(out)@ + decimal(n as nat));
}

} // verus!
