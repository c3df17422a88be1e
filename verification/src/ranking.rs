use vstd::prelude::*;
use crate::order::{compare_words, lemma_precedes_total, lemma_precedes_transitive, precedes, WordOrder};

verus! {

/// A word and the number of times it occurred.
#[derive(Clone, Debug, PartialEq, Eq)]
pub struct WordCount {
    pub word: String,
    pub count: usize,
}

impl View for WordCount {
    type V = (Seq<char>, nat);

    open spec fn view(&self) -> (Seq<char>, nat) {
        (self.word@, self.count as nat)
    }
}

impl DeepView for WordCount {
    type V = (Seq<char>, nat);

    open spec fn deep_view(&self) -> (Seq<char>, nat) {
        self@
    }
}

/// Whether `a` ranks strictly above `b`: it occurred more often, or as often
/// and its word comes first in dictionary order.
pub open spec fn outranks(a: (Seq<char>, nat), b: (Seq<char>, nat)) -> bool {
    a.1 > b.1 || (a.1 == b.1 && precedes(a.0, b.0))
}

/// Whether no word stands twice in `items`.
pub open spec fn distinct_words(items: Seq<(Seq<char>, nat)>) -> bool {
    forall|i: int, j: int|
        0 <= i < items.len() && 0 <= j < items.len() && i != j ==> (#[trigger] items[i]).0 != (
        #[trigger] items[j]).0
}

/// Whether `top` is the ranking of the `k` best of `items`: as many of them
/// as `k` asks for and `items` has, best first, each ranking above the next,
/// and above every item that was left out.
pub open spec fn is_ranking(
    items: Seq<(Seq<char>, nat)>,
    k: nat,
    top: Seq<(Seq<char>, nat)>,
) -> bool {
    &&& top.len() == if k <= items.len() {
        k
    } else {
        items.len()
    }
    &&& forall|j: int| 0 <= j < top.len() ==> items.contains(#[trigger] top[j])
    &&& forall|i: int, j: int| 0 <= i < j < top.len() ==> outranks(top[i], top[j])
    &&& forall|i: int, j: int|
        0 <= i < items.len() && 0 <= j < top.len() ==> top.contains(#[trigger] items[i])
            || outranks(#[trigger] top[j], items[i])
}

/// Of two different entries exactly one ranks above the other, and none
/// ranks above itself.
pub proof fn lemma_outranks_total(a: (Seq<char>, nat), b: (Seq<char>, nat))
    ensures
        a != b ==> (outranks(a, b) <==> !outranks(b, a)),
        a == b ==> !outranks(a, b),
{
    lemma_precedes_total(a.0, b.0);
}

/// Ranking above is transitive.
pub proof fn lemma_outranks_transitive(
    a: (Seq<char>, nat),
    b: (Seq<char>, nat),
    c: (Seq<char>, nat),
)
    requires
        outranks(a, b),
        outranks(b, c),
    ensures
        outranks(a, c),
{
    if a.1 == b.1 && b.1 == c.1 {
        lemma_precedes_transitive(a.0, b.0, c.0);
    }
}

/// What does not rank above `b`, which does not rank above `c`, does not
/// rank above `c`.
proof fn lemma_not_above_chain(a: (Seq<char>, nat), b: (Seq<char>, nat), c: (Seq<char>, nat))
    requires
        !outranks(a, b),
        !outranks(b, c),
    ensures
        !outranks(a, c),
{
    lemma_outranks_total(a, b);
    lemma_outranks_total(b, c);
    lemma_outranks_total(a, c);
    if a != b && b != c {
        lemma_outranks_transitive(c, b, a);
    }
}

impl WordCount {
    /// Whether this entry ranks strictly above `other`.
    pub fn ranks_above(&self, other: &WordCount) -> (b: bool)
        ensures
            b == outranks(self@, other@),
    {
        if self.count != other.count {
            self.count > other.count
        } else {
            proof {
                lemma_precedes_total(self.word@, other.word@);
            }
            match compare_words(self.word.as_str(), other.word.as_str()) {
                WordOrder::Before => true,
                _ => false,
            }
        }
    }
}

/// The entry that position `i` of the heap refers to.
spec fn at(items: Seq<(Seq<char>, nat)>, order: Seq<usize>, i: int) -> (Seq<char>, nat) {
    items[order[i] as int]
}

/// Whether every position of the heap refers to one of `n` entries.
spec fn in_bounds(order: Seq<usize>, n: nat) -> bool {
    forall|i: int| 0 <= i < order.len() ==> #[trigger] order[i] < n
}

/// Whether position `c` of the heap does not rank above its parent.
spec fn settled(items: Seq<(Seq<char>, nat)>, order: Seq<usize>, c: int) -> bool {
    !outranks(at(items, order, c), at(items, order, (c - 1) / 2))
}

/// Whether no position with a parent at `start` or behind it ranks above
/// that parent.
spec fn heap_from(items: Seq<(Seq<char>, nat)>, order: Seq<usize>, start: int) -> bool {
    forall|c: int| 0 < c < order.len() && (c - 1) / 2 >= start ==> #[trigger] settled(items, order, c)
}

/// `s` with what stands at `a` and at `b` exchanged.
spec fn exchanged(s: Seq<usize>, a: int, b: int) -> Seq<usize> {
    s.update(a, s[b]).update(b, s[a])
}

/// An exchange keeps what a sequence holds, and holds nothing twice where
/// nothing stood twice.
proof fn lemma_exchange_keeps_members(s: Seq<usize>, a: int, b: int)
    requires
        0 <= a < s.len(),
        0 <= b < s.len(),
    ensures
        s.no_duplicates() ==> exchanged(s, a, b).no_duplicates(),
        forall|v: usize| s.contains(v) <==> exchanged(s, a, b).contains(v),
{
    let t = exchanged(s, a, b);
    assert forall|v: usize| s.contains(v) implies t.contains(v) by {
        let i = choose|i: int| 0 <= i < s.len() && s[i] == v;
        let j = if i == a {
            b
        } else if i == b {
            a
        } else {
            i
        };
        assert(t[j] == v);
    }
    assert forall|v: usize| t.contains(v) implies s.contains(v) by {
        let i = choose|i: int| 0 <= i < t.len() && t[i] == v;
        let j = if i == a {
            b
        } else if i == b {
            a
        } else {
            i
        };
        assert(s[j] == v);
    }
}

/// In a heap nothing ranks above what stands first.
proof fn lemma_first_is_best(items: Seq<(Seq<char>, nat)>, order: Seq<usize>, i: int)
    requires
        heap_from(items, order, 0),
        0 <= i < order.len(),
    ensures
        !outranks(at(items, order, i), at(items, order, 0)),
    decreases i,
{
    if i == 0 {
        lemma_outranks_total(at(items, order, 0), at(items, order, 0));
    } else {
        let p = (i - 1) / 2;
        assert(settled(items, order, i));
        lemma_first_is_best(items, order, p);
        lemma_not_above_chain(at(items, order, i), at(items, order, p), at(items, order, 0));
    }
}

/// Lets what stands at `start` sink to its place among what follows it.
fn sift_down(items: &Vec<WordCount>, order: &mut Vec<usize>, start: usize)
    requires
        start < old(order).len(),
        in_bounds(old(order)@, items.deep_view().len()),
        old(order)@.no_duplicates(),
        forall|c: int|
            0 < c < old(order).len() && (c - 1) / 2 > start ==> #[trigger] settled(
                items.deep_view(),
                old(order)@,
                c,
            ),
    ensures
        final(order).len() == old(order).len(),
        in_bounds(final(order)@, items.deep_view().len()),
        final(order)@.no_duplicates(),
        forall|v: usize| old(order)@.contains(v) <==> final(order)@.contains(v),
        heap_from(items.deep_view(), final(order)@, start as int),
{
    let ghost all = items.deep_view();
    let n = order.len();
    let mut cur = start;
    loop
        invariant
            all == items.deep_view(),
            n == order.len(),
            start <= cur < n,
            in_bounds(order@, all.len()),
            order@.no_duplicates(),
            forall|v: usize| old(order)@.contains(v) <==> order@.contains(v),
            forall|c: int|
                0 < c < n && (c - 1) / 2 >= start && (c - 1) / 2 != cur ==> #[trigger] settled(
                    all,
                    order@,
                    c,
                ),
            cur > start ==> forall|c: int|
                0 < c < n && (c - 1) / 2 == cur ==> !outranks(
                    #[trigger] at(all, order@, c),
                    at(all, order@, (cur - 1) / 2),
                ),
        ensures
            n == order.len(),
            in_bounds(order@, all.len()),
            order@.no_duplicates(),
            forall|v: usize| old(order)@.contains(v) <==> order@.contains(v),
            heap_from(all, order@, start as int),
        decreases n - cur,
    {
        if cur >= n / 2 {
            break;
        }
        let left = 2 * cur + 1;
        let right = left + 1;
        let mut best = left;
        assert(order@[left as int] < all.len());
        assert(order@[cur as int] < all.len());
        assert(items[order@[left as int] as int]@ == all[order@[left as int] as int]);
        assert(items[order@[cur as int] as int]@ == all[order@[cur as int] as int]);
        if right < n {
            assert(order@[right as int] < all.len());
            assert(items[order@[right as int] as int]@ == all[order@[right as int] as int]);
            if items[order[right]].ranks_above(&items[order[left]]) {
                best = right;
            }
        }
        let ghost other = if best == left {
            right
        } else {
            left
        };
        proof {
            if right < n {
                lemma_outranks_total(at(all, order@, right as int), at(all, order@, left as int));
                assert(!outranks(at(all, order@, other as int), at(all, order@, best as int)));
            }
        }
        if !items[order[best]].ranks_above(&items[order[cur]]) {
            proof {
                assert(settled(all, order@, best as int));
                if right < n {
                    lemma_not_above_chain(
                        at(all, order@, other as int),
                        at(all, order@, best as int),
                        at(all, order@, cur as int),
                    );
                    assert(settled(all, order@, other as int));
                }
                assert forall|c: int| 0 < c < n && (c - 1) / 2 >= start implies #[trigger] settled(
                    all,
                    order@,
                    c,
                ) by {
                    if (c - 1) / 2 == cur {
                        assert(c == left || c == right);
                    }
                }
            }
            break;
        }
        let ghost before = order@;
        let up = order[best];
        let down = order[cur];
        order.set(cur, up);
        order.set(best, down);
        proof {
            assert(order@ == exchanged(before, cur as int, best as int));
            lemma_exchange_keeps_members(before, cur as int, best as int);
            lemma_outranks_total(at(all, before, best as int), at(all, before, cur as int));
            assert forall|c: int|
                0 < c < n && (c - 1) / 2 >= start && (c - 1) / 2 != best implies #[trigger] settled(
                all,
                order@,
                c,
            ) by {
                let p = (c - 1) / 2;
                if p == cur {
                    assert(c == left || c == right);
                    if c == best {
                        assert(at(all, order@, c) == at(all, before, cur as int));
                        assert(at(all, order@, p) == at(all, before, best as int));
                    } else {
                        assert(c == other);
                        assert(at(all, order@, c) == at(all, before, other as int));
                        assert(at(all, order@, p) == at(all, before, best as int));
                    }
                } else if c == cur {
                    assert(cur > start);
                    assert(at(all, order@, c) == at(all, before, best as int));
                    assert(at(all, order@, p) == at(all, before, p));
                    assert(!outranks(at(all, before, best as int), at(all, before, (cur - 1) / 2)));
                } else {
                    assert(settled(all, before, c));
                    assert(at(all, order@, c) == at(all, before, c));
                    assert(at(all, order@, p) == at(all, before, p));
                }
            }
            assert forall|c: int| 0 < c < n && (c - 1) / 2 == best implies !outranks(
                #[trigger] at(all, order@, c),
                at(all, order@, (best - 1) / 2),
            ) by {
                assert(settled(all, before, c));
                assert(at(all, order@, c) == at(all, before, c));
                assert(at(all, order@, (best - 1) / 2) == at(all, before, best as int));
            }
        }
        cur = best;
    }
}

/// Ranks the `k` best of `items`, best first.
pub(crate) fn rank_top(items: &Vec<WordCount>, k: usize) -> (top: Vec<WordCount>)
    requires
        distinct_words(items.deep_view()),
    ensures
        is_ranking(items.deep_view(), k as nat, top.deep_view()),
{
    let ghost all = items.deep_view();
    let n = items.len();
    let mut top: Vec<WordCount> = Vec::new();
    if k == 0 {
        assert(top.deep_view() =~= Seq::<(Seq<char>, nat)>::empty());
        return top;
    }
    let mut order: Vec<usize> = Vec::new();
    let mut i: usize = 0;
    while i < n
        invariant
            i <= n,
            n == items.len(),
            order.len() == i,
            forall|p: int| 0 <= p < i ==> order@[p] == p,
        decreases n - i,
    {
        order.push(i);
        i = i + 1;
    }
    assert(forall|v: usize| v < n ==> order@[v as int] == v && order@.contains(v));
    let mut start = n / 2;
    while start > 0
        invariant
            all == items.deep_view(),
            n == items.len(),
            order.len() == n,
            start <= n / 2,
            in_bounds(order@, all.len()),
            order@.no_duplicates(),
            forall|v: usize| v < n ==> order@.contains(v),
            heap_from(all, order@, start as int),
        decreases start,
    {
        start = start - 1;
        sift_down(items, &mut order, start);
    }
    assert(top.deep_view() =~= Seq::<(Seq<char>, nat)>::empty());
    while top.len() < k && order.len() > 0
        invariant
            all == items.deep_view(),
            n == items.len(),
            distinct_words(all),
            top.len() + order.len() == n,
            top.len() <= k,
            in_bounds(order@, all.len()),
            order@.no_duplicates(),
            heap_from(all, order@, 0),
            forall|v: usize| v < n ==> order@.contains(v) || top.deep_view().contains(all[v as int]),
            forall|j: int| 0 <= j < top.len() ==> all.contains(#[trigger] top.deep_view()[j]),
            forall|i: int, j: int|
                0 <= i < j < top.len() ==> outranks(top.deep_view()[i], top.deep_view()[j]),
            forall|j: int, p: int|
                0 <= j < top.len() && 0 <= p < order.len() ==> outranks(
                    #[trigger] top.deep_view()[j],
                    #[trigger] at(all, order@, p),
                ),
        decreases order.len(),
    {
        let ghost before = order@;
        let ghost ranked = top.deep_view();
        let best = order.swap_remove(0);
        let ghost moved = order@;
        assert(best < all.len());
        proof {
            assert forall|p: int| 0 < p < before.len() implies outranks(
                all[best as int],
                #[trigger] at(all, before, p),
            ) by {
                lemma_first_is_best(all, before, p);
                lemma_outranks_total(at(all, before, p), at(all, before, 0));
                assert(before[p] != before[0]);
            }
            assert forall|v: usize| before.contains(v) && v != best implies moved.contains(v) by {
                let p = choose|p: int| 0 <= p < before.len() && before[p] == v;
                if p == before.len() - 1 {
                    assert(moved[0] == v);
                } else {
                    assert(moved[p] == v);
                }
            }
            assert forall|p: int| 0 <= p < moved.len() implies before.contains(#[trigger] moved[p])
                && moved[p] != best by {
                if p == 0 {
                    assert(moved[0] == before[before.len() - 1]);
                } else {
                    assert(moved[p] == before[p]);
                }
            }
            assert forall|c: int| 0 < c < moved.len() && (c - 1) / 2 > 0 implies #[trigger] settled(
                all,
                moved,
                c,
            ) by {
                assert(settled(all, before, c));
            }
        }
        if order.len() > 0 {
            sift_down(items, &mut order, 0);
        }
        let entry = WordCount { word: items[best].word.clone(), count: items[best].count };
        assert(entry@ == all[best as int]);
        top.push(entry);
        proof {
            assert(top.deep_view() =~= ranked.push(all[best as int]));
            let now = top.deep_view();
            assert forall|v: usize| v < n implies order@.contains(v) || now.contains(
                all[v as int],
            ) by {
                if v == best {
                    assert(now[ranked.len() as int] == all[v as int]);
                } else if before.contains(v) {
                    assert(moved.contains(v));
                } else {
                    let j = choose|j: int| 0 <= j < ranked.len() && ranked[j] == all[v as int];
                    assert(now[j] == all[v as int]);
                }
            }
            assert forall|j: int| 0 <= j < now.len() implies all.contains(#[trigger] now[j]) by {
                if j == ranked.len() {
                    assert(all[best as int] == now[j]);
                } else {
                    assert(now[j] == ranked[j]);
                }
            }
            assert forall|i: int, j: int| 0 <= i < j < now.len() implies outranks(
                now[i],
                now[j],
            ) by {
                if j == ranked.len() {
                    assert(now[i] == ranked[i]);
                    assert(at(all, before, 0) == all[best as int]);
                }
            }
            assert forall|j: int, p: int| 0 <= j < now.len() && 0 <= p < order.len() implies outranks(
                #[trigger] now[j],
                #[trigger] at(all, order@, p),
            ) by {
                let v = order@[p];
                assert(order@.contains(v));
                assert(moved.contains(v));
                let q = choose|q: int| 0 <= q < moved.len() && moved[q] == v;
                assert(before.contains(moved[q]) && moved[q] != best);
                let r = choose|r: int| 0 <= r < before.len() && before[r] == v;
                assert(at(all, before, r) == at(all, order@, p));
                if j == ranked.len() {
                    assert(r != 0);
                } else {
                    assert(now[j] == ranked[j]);
                }
            }
        }
    }
    proof {
        let now = top.deep_view();
        assert forall|i: int, j: int| 0 <= i < all.len() && 0 <= j < now.len() implies now.contains(
            #[trigger] all[i],
        ) || outranks(#[trigger] now[j], all[i]) by {
            let v = i as usize;
            if order@.contains(v) {
                let p = choose|p: int| 0 <= p < order.len() && order@[p] == v;
                assert(at(all, order@, p) == all[i]);
            }
        }
    }
    top
}

} // verus!
