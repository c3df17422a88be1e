use vstd::hash_map::StringHashMap;
use vstd::prelude::*;
use crate::ranking::{distinct_words, lemma_outranks_total, outranks, rank_top, WordCount};
use crate::text::{split_words, tokenize};

verus! {

/// How often `word` stands in `counts`: its count, or zero for a word that
/// `counts` does not hold.
pub open spec fn count_in(counts: Map<Seq<char>, nat>, word: Seq<char>) -> nat {
    if counts.contains_key(word) {
        counts[word]
    } else {
        0
    }
}

/// How often `word` stands among `words`.
pub open spec fn occurrences(words: Seq<Seq<char>>, word: Seq<char>) -> nat
    decreases words.len(),
{
    if words.len() == 0 {
        0
    } else {
        occurrences(words.drop_last(), word) + if words.last() == word {
            1nat
        } else {
            0nat
        }
    }
}

/// `counts` after every one of `words` has been counted once more.
pub open spec fn tally(counts: Map<Seq<char>, nat>, words: Seq<Seq<char>>) -> Map<Seq<char>, nat> {
    Map::new(
        |w: Seq<char>| counts.contains_key(w) || occurrences(words, w) > 0,
        |w: Seq<char>| count_in(counts, w) + occurrences(words, w),
    )
}

/// Whether counting `words` into `counts` keeps every count within the
/// machine word.
pub open spec fn tally_fits(counts: Map<Seq<char>, nat>, words: Seq<Seq<char>>) -> bool {
    forall|w: Seq<char>| count_in(counts, w) + #[trigger] occurrences(words, w) <= usize::MAX
}

/// Whether `top` ranks the `k` most frequent words of `counts`: as many as
/// `k` asks for and `counts` has, each with its count, the more frequent
/// first and words of equal count in dictionary order, and every word left
/// out ranking below every word taken.
pub open spec fn is_top(counts: Map<Seq<char>, nat>, k: nat, top: Seq<(Seq<char>, nat)>) -> bool {
    &&& top.len() == if k <= counts.dom().len() {
        k
    } else {
        counts.dom().len()
    }
    &&& forall|j: int|
        0 <= j < top.len() ==> counts.contains_key((#[trigger] top[j]).0) && counts[top[j].0]
            == top[j].1
    &&& forall|i: int, j: int| 0 <= i < j < top.len() ==> outranks(top[i], top[j])
    &&& forall|w: Seq<char>, j: int|
        counts.contains_key(w) && 0 <= j < top.len() ==> top.contains((w, counts[w])) || outranks(
            #[trigger] top[j],
            (w, #[trigger] counts[w]),
        )
}

/// The ranking of the `k` most frequent words of `counts`.
pub open spec fn top_of(counts: Map<Seq<char>, nat>, k: nat) -> Seq<(Seq<char>, nat)> {
    choose|top: Seq<(Seq<char>, nat)>| is_top(counts, k, top)
}

/// The ranking is decided by the counts alone: whatever ranks the `k` most
/// frequent words of `counts` is `top_of(counts, k)`.
pub proof fn lemma_top_unique(
    counts: Map<Seq<char>, nat>,
    k: nat,
    first: Seq<(Seq<char>, nat)>,
    second: Seq<(Seq<char>, nat)>,
)
    requires
        is_top(counts, k, first),
        is_top(counts, k, second),
    ensures
        first == second,
        first == top_of(counts, k),
{
    lemma_top_agrees(counts, k, first, second, first.len() as int);
    assert(first.take(first.len() as int) =~= first);
    assert(second.take(first.len() as int) =~= second);
    let chosen = top_of(counts, k);
    lemma_top_agrees(counts, k, first, chosen, first.len() as int);
    assert(chosen.take(first.len() as int) =~= chosen);
}

/// Two rankings of the same counts agree on their first `n` places.
proof fn lemma_top_agrees(
    counts: Map<Seq<char>, nat>,
    k: nat,
    first: Seq<(Seq<char>, nat)>,
    second: Seq<(Seq<char>, nat)>,
    n: int,
)
    requires
        is_top(counts, k, first),
        is_top(counts, k, second),
        0 <= n <= first.len(),
    ensures
        first.take(n) == second.take(n),
    decreases n,
{
    if n > 0 {
        lemma_top_agrees(counts, k, first, second, n - 1);
        let m = n - 1;
        assert(forall|j: int| 0 <= j < m ==> first[j] == first.take(m)[j]);
        assert(forall|j: int| 0 <= j < m ==> second[j] == second.take(m)[j]);
        lemma_place_decided(counts, k, first, second, m);
        lemma_place_decided(counts, k, second, first, m);
        lemma_outranks_total(first[m], second[m]);
        assert(first.take(n) =~= second.take(n));
    }
}

/// Where two rankings agree before place `m`, what the second holds there
/// does not rank above what the first holds there.
proof fn lemma_place_decided(
    counts: Map<Seq<char>, nat>,
    k: nat,
    first: Seq<(Seq<char>, nat)>,
    second: Seq<(Seq<char>, nat)>,
    m: int,
)
    requires
        is_top(counts, k, first),
        is_top(counts, k, second),
        0 <= m < first.len(),
        forall|j: int| 0 <= j < m ==> first[j] == second[j],
    ensures
        !outranks(second[m], first[m]),
{
    let x = second[m];
    assert(counts.contains_key(x.0) && counts[x.0] == x.1);
    assert(x == (x.0, counts[x.0]));
    assert(first.contains((x.0, counts[x.0])) || outranks(first[m], (x.0, counts[x.0])));
    if first.contains(x) {
        let p = choose|p: int| 0 <= p < first.len() && first[p] == x;
        if p < m {
            assert(second[p] == x);
            assert(outranks(second[p], second[m]));
            lemma_outranks_total(x, x);
        } else if p > m {
            assert(outranks(first[m], first[p]));
            lemma_outranks_total(first[m], x);
        } else {
            lemma_outranks_total(x, x);
        }
    } else {
        lemma_outranks_total(first[m], x);
    }
}

/// The words of `entries` before position `n`.
spec fn words_before(entries: Seq<(Seq<char>, nat)>, n: int) -> Set<Seq<char>> {
    Set::new(|w: Seq<char>| exists|i: int| 0 <= i < n && (#[trigger] entries[i]).0 == w)
}

/// Distinct words are as many as the entries that hold them.
proof fn lemma_words_before(entries: Seq<(Seq<char>, nat)>, n: int)
    requires
        distinct_words(entries),
        0 <= n <= entries.len(),
    ensures
        words_before(entries, n).finite(),
        words_before(entries, n).len() == n,
    decreases n,
{
    if n == 0 {
        assert(words_before(entries, n) =~= Set::empty());
    } else {
        lemma_words_before(entries, n - 1);
        let w = entries[n - 1].0;
        assert(words_before(entries, n) =~= words_before(entries, n - 1).insert(w)) by {
            assert forall|x: Seq<char>| words_before(entries, n).contains(x) implies words_before(
                entries,
                n - 1,
            ).insert(w).contains(x) by {
                let i = choose|i: int| 0 <= i < n && (#[trigger] entries[i]).0 == x;
                if i < n - 1 {
                    assert(words_before(entries, n - 1).contains(x));
                }
            }
            assert forall|x: Seq<char>|
                words_before(entries, n - 1).insert(w).contains(x) implies words_before(
                entries,
                n,
            ).contains(x) by {
                if x == w {
                    assert(entries[n - 1].0 == x);
                } else {
                    let i = choose|i: int| 0 <= i < n - 1 && (#[trigger] entries[i]).0 == x;
                    assert(entries[i].0 == x);
                }
            }
        }
        assert(!words_before(entries, n - 1).contains(w)) by {
            if words_before(entries, n - 1).contains(w) {
                let i = choose|i: int| 0 <= i < n - 1 && (#[trigger] entries[i]).0 == w;
                assert(entries[i].0 == entries[n - 1].0);
            }
        }
    }
}

/// The words of a text, each with the number of times it occurred.
pub struct FrequencyTable {
    /// One entry for each word, in the order in which the words first came.
    entries: Vec<WordCount>,
    /// For each word the position of its entry.
    index: StringHashMap<usize>,
}

impl View for FrequencyTable {
    type V = Map<Seq<char>, nat>;

    /// The count of every word that the table holds.
    closed spec fn view(&self) -> Map<Seq<char>, nat> {
        Map::new(
            |w: Seq<char>| self.index@.contains_key(w),
            |w: Seq<char>| self.entries@[self.index@[w] as int].count as nat,
        )
    }
}

impl FrequencyTable {
    /// Whether the table is consistent: every word has one entry, which the
    /// index finds, and a count of at least one.
    pub closed spec fn wf(&self) -> bool {
        &&& forall|i: int|
            0 <= i < self.entries@.len() ==> {
                &&& self.index@.contains_key((#[trigger] self.entries@[i]).word@)
                &&& self.index@[self.entries@[i].word@] == i
                &&& self.entries@[i].count >= 1
            }
        &&& forall|w: Seq<char>| #[trigger]
            self.index@.contains_key(w) ==> {
                &&& self.index@[w] < self.entries@.len()
                &&& self.entries@[self.index@[w] as int].word@ == w
            }
    }

    /// A consistent table holds finitely many words, each at least once.
    pub proof fn lemma_counts(&self)
        requires
            self.wf(),
        ensures
            self@.dom().finite(),
            forall|w: Seq<char>| self@.contains_key(w) ==> 1 <= #[trigger] self@[w] <= usize::MAX,
    {
        self.lemma_entries();
    }

    /// The entries are the pairs of the view, one for each word.
    proof fn lemma_entries(&self)
        requires
            self.wf(),
        ensures
            distinct_words(self.entries.deep_view()),
            self@.dom().finite(),
            self@.dom().len() == self.entries@.len(),
            forall|i: int|
                0 <= i < self.entries@.len() ==> {
                    &&& self@.contains_key((#[trigger] self.entries.deep_view()[i]).0)
                    &&& self@[self.entries.deep_view()[i].0] == self.entries.deep_view()[i].1
                },
            forall|w: Seq<char>|
                self@.contains_key(w) ==> self.entries.deep_view().contains((w, #[trigger] self@[w])),
            forall|w: Seq<char>| self@.contains_key(w) ==> 1 <= #[trigger] self@[w] <= usize::MAX,
    {
        let pairs = self.entries.deep_view();
        assert forall|i: int, j: int|
            0 <= i < pairs.len() && 0 <= j < pairs.len() && i != j implies (#[trigger] pairs[i]).0 != (
        #[trigger] pairs[j]).0 by {
            assert(self.entries@[i].word@ == pairs[i].0);
            assert(self.entries@[j].word@ == pairs[j].0);
        }
        lemma_words_before(pairs, pairs.len() as int);
        assert(self@.dom() =~= words_before(pairs, pairs.len() as int)) by {
            assert forall|w: Seq<char>| self@.dom().contains(w) implies words_before(
                pairs,
                pairs.len() as int,
            ).contains(w) by {
                assert(self.index@.contains_key(w));
                let i = self.index@[w] as int;
                assert(pairs[i].0 == w);
            }
            assert forall|w: Seq<char>|
                words_before(pairs, pairs.len() as int).contains(w) implies self@.dom().contains(
                w,
            ) by {
                let i = choose|i: int| 0 <= i < pairs.len() && (#[trigger] pairs[i]).0 == w;
                assert(self.entries@[i].word@ == w);
            }
        }
        assert forall|i: int| 0 <= i < self.entries@.len() implies {
            &&& self@.contains_key((#[trigger] pairs[i]).0)
            &&& self@[pairs[i].0] == pairs[i].1
        } by {
            assert(self.entries@[i].word@ == pairs[i].0);
        }
        assert forall|w: Seq<char>| self@.contains_key(w) implies pairs.contains(
            (w, #[trigger] self@[w]),
        ) by {
            assert(self.index@.contains_key(w));
            let i = self.index@[w] as int;
            assert(pairs[i] == (w, self@[w]));
        }
        assert forall|w: Seq<char>| self@.contains_key(w) implies 1 <= #[trigger] self@[w]
            <= usize::MAX by {
            assert(self.index@.contains_key(w));
        }
    }

    /// A table without words.
    pub fn new() -> (table: FrequencyTable)
        ensures
            table.wf(),
            table@ == Map::<Seq<char>, nat>::empty(),
    {
        let table = FrequencyTable { entries: Vec::new(), index: StringHashMap::new() };
        assert(table@ =~= Map::<Seq<char>, nat>::empty());
        table
    }

    /// The number of different words.
    pub fn len(&self) -> (n: usize)
        requires
            self.wf(),
        ensures
            n == self@.dom().len(),
    {
        proof {
            self.lemma_entries();
        }
        self.entries.len()
    }

    /// How often `word` was counted.
    pub fn count(&self, word: &str) -> (n: usize)
        requires
            self.wf(),
        ensures
            n == count_in(self@, word@),
    {
        match self.index.get(word) {
            Some(at) => self.entries[*at].count,
            None => 0,
        }
    }

    /// Counts `word` once more.
    pub fn record(&mut self, word: String)
        requires
            old(self).wf(),
            count_in(old(self)@, word@) < usize::MAX,
        ensures
            final(self).wf(),
            final(self)@ == old(self)@.insert(word@, count_in(old(self)@, word@) + 1),
    {
        let found = match self.index.get(word.as_str()) {
            Some(at) => Some(*at),
            None => None,
        };
        match found {
            Some(at) => {
                let count = self.entries[at].count;
                self.entries.set(at, WordCount { word, count: count + 1 });
            },
            None => {
                let at = self.entries.len();
                self.index.insert(word.clone(), at);
                self.entries.push(WordCount { word, count: 1 });
            },
        }
        assert(self@ =~= old(self)@.insert(word@, count_in(old(self)@, word@) + 1));
    }

    /// Ranks the `k` most frequent words.
    pub fn select(&self, k: usize) -> (top: Vec<WordCount>)
        requires
            self.wf(),
        ensures
            is_top(self@, k as nat, top.deep_view()),
            top.deep_view() == top_of(self@, k as nat),
    {
        proof {
            self.lemma_entries();
        }
        let top = rank_top(&self.entries, k);
        proof {
            let pairs = self.entries.deep_view();
            let ranked = top.deep_view();
            assert forall|j: int| 0 <= j < ranked.len() implies self@.contains_key(
                (#[trigger] ranked[j]).0,
            ) && self@[ranked[j].0] == ranked[j].1 by {
                assert(pairs.contains(ranked[j]));
                let i = choose|i: int| 0 <= i < pairs.len() && pairs[i] == ranked[j];
                assert(self@.contains_key(pairs[i].0));
            }
            assert forall|w: Seq<char>, j: int|
                self@.contains_key(w) && 0 <= j < ranked.len() implies ranked.contains(
                (w, self@[w]),
            ) || outranks(#[trigger] ranked[j], (w, #[trigger] self@[w])) by {
                assert(pairs.contains((w, self@[w])));
                let i = choose|i: int| 0 <= i < pairs.len() && pairs[i] == (w, self@[w]);
                assert(ranked.contains(pairs[i]) || outranks(ranked[j], pairs[i]));
            }
            lemma_top_unique(self@, k as nat, ranked, ranked);
        }
        top
    }

    /// Whether every word of `line` can be counted once more without a count
    /// leaving the machine word.
    pub fn has_room(&self, line: &String) -> (b: bool)
        requires
            self.wf(),
        ensures
            b == tally_fits(self@, split_words(line@)),
    {
        let words = tokenize(line.as_str());
        let ghost all = words.deep_view();
        let ghost none = Map::<Seq<char>, nat>::empty();
        let mut seen = FrequencyTable::new();
        let n = words.len();
        let mut i: usize = 0;
        assert(all.take(0) =~= Seq::<Seq<char>>::empty());
        assert(seen@ =~= tally(none, all.take(0)));
        while i < n
            invariant
                i <= n,
                n == words.len(),
                words.deep_view() == all,
                seen.wf(),
                none == Map::<Seq<char>, nat>::empty(),
                seen@ == tally(none, all.take(i as int)),
            decreases n - i,
        {
            let word = words[i].clone();
            proof {
                assert(word@ == all[i as int]);
                assert(all.take(i + 1).drop_last() =~= all.take(i as int));
                lemma_occurrences_bounded(all.take(i as int), word@);
                assert(all.take(i as int).len() == i);
                assert(count_in(seen@, word@) == occurrences(all.take(i as int), word@));
            }
            seen.record(word);
            assert(seen@ =~= tally(none, all.take(i + 1)));
            i = i + 1;
        }
        proof {
            assert(all.take(n as int) =~= all);
            seen.lemma_entries();
            self.lemma_entries();
        }
        let m = seen.entries.len();
        let mut j: usize = 0;
        while j < m
            invariant
                j <= m,
                m == seen.entries.len(),
                self.wf(),
                seen.wf(),
                none == Map::<Seq<char>, nat>::empty(),
                all == split_words(line@),
                seen@ == tally(none, all),
                forall|p: int|
                    0 <= p < j ==> count_in(self@, (#[trigger] seen.entries.deep_view()[p]).0)
                        + occurrences(all, seen.entries.deep_view()[p].0) <= usize::MAX,
            decreases m - j,
        {
            let entry = &seen.entries[j];
            proof {
                seen.lemma_entries();
                let pair = seen.entries.deep_view()[j as int];
                assert(pair == entry@);
                assert(seen@.contains_key(pair.0) && seen@[pair.0] == pair.1);
            }
            if self.count(entry.word.as_str()) > usize::MAX - entry.count {
                proof {
                    let w = entry.word@;
                    assert(seen@[w] == occurrences(all, w));
                    assert(count_in(self@, w) + occurrences(all, w) > usize::MAX);
                }
                return false;
            }
            j = j + 1;
        }
        proof {
            seen.lemma_entries();
            assert forall|w: Seq<char>| count_in(self@, w) + #[trigger] occurrences(all, w)
                <= usize::MAX by {
                if occurrences(all, w) > 0 {
                    assert(seen@.contains_key(w));
                    let pairs = seen.entries.deep_view();
                    assert(pairs.contains((w, seen@[w])));
                    let p = choose|p: int| 0 <= p < pairs.len() && pairs[p] == (w, seen@[w]);
                    assert(pairs[p].0 == w);
                }
            }
        }
        true
    }
}

/// Counts every word of `line` into `table`.
pub fn count_words(line: &String, table: &mut FrequencyTable)
    requires
        old(table).wf(),
        tally_fits(old(table)@, split_words(line@)),
    ensures
        final(table).wf(),
        final(table)@ == tally(old(table)@, split_words(line@)),
{
    let words = tokenize(line.as_str());
    let ghost all = words.deep_view();
    let n = words.len();
    let mut i: usize = 0;
    assert(all.take(0) =~= Seq::<Seq<char>>::empty());
    assert(table@ =~= tally(old(table)@, all.take(0)));
    while i < n
        invariant
            i <= n,
            n == words.len(),
            all == split_words(line@),
            words.deep_view() == all,
            table.wf(),
            tally_fits(old(table)@, all),
            table@ == tally(old(table)@, all.take(i as int)),
        decreases n - i,
    {
        let word = words[i].clone();
        proof {
            assert(word@ == all[i as int]);
            assert(all.take(i + 1).drop_last() =~= all.take(i as int));
            assert(all.take(i + 1).last() == word@);
            lemma_occurrences_grow(all, i + 1, word@);
            assert(occurrences(all, word@) >= occurrences(all.take(i + 1), word@));
        }
        let ghost before = table@;
        table.record(word);
        proof {
            assert(table@ =~= tally(old(table)@, all.take(i + 1))) by {
                assert forall|w: Seq<char>| #[trigger]
                    tally(old(table)@, all.take(i + 1)).contains_key(w) implies table@.contains_key(
                    w,
                ) && table@[w] == tally(old(table)@, all.take(i + 1))[w] by {
                    assert(all.take(i + 1).drop_last() =~= all.take(i as int));
                }
            }
        }
        i = i + 1;
    }
    assert(all.take(n as int) =~= all);
}

/// A word stands among `words` no more often than there are words.
proof fn lemma_occurrences_bounded(words: Seq<Seq<char>>, word: Seq<char>)
    ensures
        occurrences(words, word) <= words.len(),
    decreases words.len(),
{
    if words.len() > 0 {
        lemma_occurrences_bounded(words.drop_last(), word);
    }
}

/// A word stands no more often in the first `n` words than in all of them.
proof fn lemma_occurrences_grow(words: Seq<Seq<char>>, n: int, word: Seq<char>)
    requires
        0 <= n <= words.len(),
    ensures
        occurrences(words.take(n), word) <= occurrences(words, word),
    decreases words.len(),
{
    if n == words.len() {
        assert(words.take(n) =~= words);
    } else {
        assert(words.drop_last().take(n) =~= words.take(n));
        lemma_occurrences_grow(words.drop_last(), n, word);
    }
}

} // verus!
