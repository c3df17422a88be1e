use vstd::prelude::*;
use vstd::utf8::{char_is_scalar, encode_utf8};

verus! {

/// Whether `c` is white space: the code points that Unicode gives the
/// `White_Space` property.
pub open spec fn is_whitespace(c: char) -> bool {
    let n = c as u32;
    ||| 0x09 <= n <= 0x0D
    ||| n == 0x20
    ||| n == 0x85
    ||| n == 0xA0
    ||| n == 0x1680
    ||| 0x2000 <= n <= 0x200A
    ||| n == 0x2028
    ||| n == 0x2029
    ||| n == 0x202F
    ||| n == 0x205F
    ||| n == 0x3000
}

/// The word that is still open at the end of `s`: its longest suffix without
/// white space.
pub open spec fn pending_word(s: Seq<char>) -> Seq<char>
    decreases s.len(),
{
    if s.len() == 0 || is_whitespace(s.last()) {
        Seq::empty()
    } else {
        pending_word(s.drop_last()).push(s.last())
    }
}

/// The words of `s` that white space has closed, from left to right.
pub open spec fn closed_words(s: Seq<char>) -> Seq<Seq<char>>
    decreases s.len(),
{
    if s.len() == 0 {
        Seq::empty()
    } else if is_whitespace(s.last()) && pending_word(s.drop_last()).len() > 0 {
        closed_words(s.drop_last()).push(pending_word(s.drop_last()))
    } else {
        closed_words(s.drop_last())
    }
}

/// The words of a line: its maximal runs of characters that are not white
/// space, from left to right.
pub open spec fn split_words(s: Seq<char>) -> Seq<Seq<char>> {
    if pending_word(s).len() > 0 {
        closed_words(s).push(pending_word(s))
    } else {
        closed_words(s)
    }
}

/// Tells white space from the characters that words are made of.
pub fn char_is_whitespace(c: char) -> (b: bool)
    ensures
        b == is_whitespace(c),
{
    let n: u32 = c as u32;
    (0x09 <= n && n <= 0x0D) || n == 0x20 || n == 0x85 || n == 0xA0 || n == 0x1680 || (0x2000 <= n
        && n <= 0x200A) || n == 0x2028 || n == 0x2029 || n == 0x202F || n == 0x205F || n == 0x3000
}

/// The positions of `s` at which a word begins: a character that is not white
/// space, at the start of the line or behind white space.
pub open spec fn word_starts(s: Seq<char>) -> Set<int> {
    Set::new(
        |i: int|
            0 <= i < s.len() && !is_whitespace(s[i]) && (i == 0 || is_whitespace(s[i - 1])),
    )
}

/// Taken on trust, not proved: `String::push` of the standard library puts
/// `ch` behind the last character of the string and leaves the characters
/// before it as they were.
pub assume_specification[ String::push ](s: &mut String, ch: char)
    ensures
        final(s)@ == old(s)@.push(ch),
;

/// A line has at least as many bytes as characters.
pub proof fn lemma_chars_within_bytes(s: Seq<char>)
    ensures
        s.len() <= encode_utf8(s).len(),
    decreases s.len(),
{
    if s.len() > 0 {
        char_is_scalar(s[0]);
        lemma_chars_within_bytes(s.drop_first());
    }
}

/// The open word reaches back to the last white space: it is a suffix of the
/// line, without white space, and what stands before it ends in white space.
pub proof fn lemma_pending_word_is_suffix(s: Seq<char>)
    ensures
        pending_word(s).len() <= s.len(),
        pending_word(s) == s.skip(s.len() - pending_word(s).len()),
        forall|j: int| 0 <= j < pending_word(s).len() ==> !is_whitespace(#[trigger] pending_word(s)[j]),
        pending_word(s).len() < s.len() ==> is_whitespace(s[s.len() - pending_word(s).len() - 1]),
    decreases s.len(),
{
    if s.len() > 0 && !is_whitespace(s.last()) {
        lemma_pending_word_is_suffix(s.drop_last());
    }
}

/// Every word is a run of one or more characters, none of them white space.
pub proof fn lemma_words_hold_no_whitespace(s: Seq<char>)
    ensures
        forall|i: int|
            0 <= i < split_words(s).len() ==> (#[trigger] split_words(s)[i]).len() > 0,
        forall|i: int, j: int|
            0 <= i < split_words(s).len() && 0 <= j < split_words(s)[i].len() ==> !is_whitespace(
                #[trigger] split_words(s)[i][j],
            ),
{
    lemma_closed_words_hold_no_whitespace(s);
    lemma_pending_word_is_suffix(s);
}

proof fn lemma_closed_words_hold_no_whitespace(s: Seq<char>)
    ensures
        forall|i: int|
            0 <= i < closed_words(s).len() ==> (#[trigger] closed_words(s)[i]).len() > 0,
        forall|i: int, j: int|
            0 <= i < closed_words(s).len() && 0 <= j < closed_words(s)[i].len() ==> !is_whitespace(
                #[trigger] closed_words(s)[i][j],
            ),
    decreases s.len(),
{
    if s.len() > 0 {
        let p = s.drop_last();
        lemma_closed_words_hold_no_whitespace(p);
        lemma_pending_word_is_suffix(p);
        assert forall|i: int| 0 <= i < closed_words(s).len() implies (#[trigger] closed_words(
            s,
        )[i]).len() > 0 && forall|j: int|
            0 <= j < closed_words(s)[i].len() ==> !is_whitespace(
                #[trigger] closed_words(s)[i][j],
            ) by {
            if i < closed_words(p).len() {
                assert(closed_words(s)[i] == closed_words(p)[i]);
            } else {
                assert(closed_words(s)[i] == pending_word(p));
            }
        }
    }
}

/// A line has as many words as it has positions where a word begins.
pub proof fn lemma_word_count_is_word_starts(s: Seq<char>)
    ensures
        word_starts(s).finite(),
        split_words(s).len() == word_starts(s).len(),
    decreases s.len(),
{
    if s.len() == 0 {
        assert(word_starts(s) =~= Set::empty());
    } else {
        let p = s.drop_last();
        let k = s.len() - 1;
        lemma_word_count_is_word_starts(p);
        lemma_pending_word_is_suffix(p);
        assert(forall|i: int| 0 <= i < k ==> s[i] == p[i]);
        if !is_whitespace(s.last()) && pending_word(p).len() == 0 {
            assert(word_starts(s) =~= word_starts(p).insert(k));
        } else {
            assert(word_starts(s) =~= word_starts(p));
        }
    }
}

/// A line has no words exactly when it holds nothing but white space.
pub proof fn lemma_no_words_iff_blank(s: Seq<char>)
    ensures
        split_words(s).len() == 0 <==> forall|i: int| 0 <= i < s.len() ==> is_whitespace(s[i]),
    decreases s.len(),
{
    if s.len() > 0 {
        let p = s.drop_last();
        lemma_no_words_iff_blank(p);
        assert(forall|i: int| 0 <= i < p.len() ==> s[i] == p[i]);
        if is_whitespace(s.last()) {
            assert(split_words(s) == split_words(p));
            if forall|i: int| 0 <= i < p.len() ==> is_whitespace(p[i]) {
                assert forall|i: int| 0 <= i < s.len() implies is_whitespace(s[i]) by {
                    if i < p.len() {
                        assert(s[i] == p[i]);
                    }
                }
            }
        } else {
            assert(!is_whitespace(s[s.len() - 1]));
        }
    }
}

/// Splits a line into its words.
pub fn tokenize(line: &str) -> (words: Vec<String>)
    ensures
        words.deep_view() == split_words(line@),
{
    let mut words: Vec<String> = Vec::new();
    let mut word = String::new();
    for c in it: line.chars()
        invariant
            it.seq() == line@,
            words.deep_view() == closed_words(line@.take(it.index())),
            word@ == pending_word(line@.take(it.index())),
    {
        proof {
            let after = line@.take(it.index() + 1);
            assert(after.drop_last() == line@.take(it.index()));
            assert(after.last() == c);
        }
        if char_is_whitespace(c) {
            if !word.as_str().is_empty() {
                let ghost before = words.deep_view();
                words.push(word);
                word = String::new();
                assert(words.deep_view() == before.push(pending_word(line@.take(it.index()))));
            }
        } else {
            word.push(c);
        }
    }
    proof {
        assert(line@.take(line@.len() as int) == line@);
    }
    if !word.as_str().is_empty() {
        let ghost before = words.deep_view();
        let ghost last = word@;
        words.push(word);
        assert(words.deep_view() == before.push(last));
    }
    words
}

/// Counts the words of a line.
pub fn get_words_count(line: &String) -> (count: usize)
    ensures
        count == split_words(line@).len(),
{
    let limit = line.as_str().as_bytes().len();
    proof {
        lemma_chars_within_bytes(line@);
    }
    let mut closed: usize = 0;
    let mut open: bool = false;
    for c in it: line.as_str().chars()
        invariant
            it.seq() == line@,
            line@.len() <= limit,
            closed == closed_words(line@.take(it.index())).len(),
            open == (pending_word(line@.take(it.index())).len() > 0),
            closed + (if open { 1int } else { 0int }) <= it.index(),
    {
        proof {
            let after = line@.take(it.index() + 1);
            assert(after.drop_last() == line@.take(it.index()));
            assert(after.last() == c);
        }
        if char_is_whitespace(c) {
            if open {
                closed = closed + 1;
            }
            open = false;
        } else {
            open = true;
        }
    }
    proof {
        assert(line@.take(line@.len() as int) == line@);
    }
    if open {
        closed + 1
    } else {
        closed
    }
}

} // verus!
