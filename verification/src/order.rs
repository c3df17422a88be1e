use vstd::prelude::*;
use vstd::std_specs::iter::IteratorSpec;
use vstd::utf8::char_u32_cast;

verus! {

/// How one word stands to another in dictionary order.
#[derive(Clone, Copy, Debug, PartialEq, Eq, Structural)]
pub enum WordOrder {
    Before,
    Same,
    After,
}

/// Whether `a` comes strictly before `b` in dictionary order: at the first
/// place where they differ `a` has the smaller code point, or `a` ends there
/// and `b` goes on. Upper and lower case are different characters.
pub open spec fn precedes(a: Seq<char>, b: Seq<char>) -> bool
    decreases a.len(),
{
    if b.len() == 0 {
        false
    } else if a.len() == 0 {
        true
    } else if a[0] != b[0] {
        (a[0] as u32) < (b[0] as u32)
    } else {
        precedes(a.drop_first(), b.drop_first())
    }
}

/// The place of `a` relative to `b` in dictionary order.
pub open spec fn word_order(a: Seq<char>, b: Seq<char>) -> WordOrder {
    if a == b {
        WordOrder::Same
    } else if precedes(a, b) {
        WordOrder::Before
    } else {
        WordOrder::After
    }
}

/// No word comes before itself.
pub proof fn lemma_precedes_irreflexive(a: Seq<char>)
    ensures
        !precedes(a, a),
    decreases a.len(),
{
    if a.len() > 0 {
        lemma_precedes_irreflexive(a.drop_first());
    }
}

/// Of two different words exactly one comes before the other.
pub proof fn lemma_precedes_total(a: Seq<char>, b: Seq<char>)
    ensures
        a != b ==> (precedes(a, b) <==> !precedes(b, a)),
        a == b ==> !precedes(a, b) && !precedes(b, a),
    decreases a.len(),
{
    if a == b {
        lemma_precedes_irreflexive(a);
    } else if a.len() > 0 && b.len() > 0 {
        if a[0] == b[0] {
            lemma_precedes_total(a.drop_first(), b.drop_first());
            if a.drop_first() == b.drop_first() {
                assert(a =~= seq![a[0]] + a.drop_first());
                assert(b =~= seq![b[0]] + b.drop_first());
            }
        } else {
            char_u32_cast(a[0], a[0] as u32);
            char_u32_cast(b[0], b[0] as u32);
        }
    } else if a.len() == 0 && b.len() == 0 {
        assert(a =~= b);
    }
}

/// Dictionary order is transitive.
pub proof fn lemma_precedes_transitive(a: Seq<char>, b: Seq<char>, c: Seq<char>)
    requires
        precedes(a, b),
        precedes(b, c),
    ensures
        precedes(a, c),
    decreases a.len(),
{
    if a.len() > 0 && a[0] == b[0] && b[0] == c[0] {
        lemma_precedes_transitive(a.drop_first(), b.drop_first(), c.drop_first());
    }
}

/// Compares two words in dictionary order.
pub fn compare_words(a: &str, b: &str) -> (r: WordOrder)
    ensures
        r == word_order(a@, b@),
{
    let mut rest_a = a.chars();
    let mut rest_b = b.chars();
    let ghost mut at: int = 0;
    proof {
        lemma_precedes_total(a@, b@);
        assert(a@.skip(0) =~= a@);
        assert(b@.skip(0) =~= b@);
    }
    loop
        invariant
            rest_a.obeys_prophetic_iter_laws(),
            rest_b.obeys_prophetic_iter_laws(),
            0 <= at <= a@.len(),
            0 <= at <= b@.len(),
            rest_a.remaining() == a@.skip(at),
            rest_b.remaining() == b@.skip(at),
            word_order(a@, b@) == word_order(a@.skip(at), b@.skip(at)),
        decreases a@.len() - at,
    {
        let ghost tail_a = a@.skip(at);
        let ghost tail_b = b@.skip(at);
        proof {
            lemma_precedes_total(tail_a, tail_b);
        }
        match (rest_a.next(), rest_b.next()) {
            (None, None) => {
                assert(tail_a =~= tail_b);
                return WordOrder::Same;
            },
            (None, Some(_)) => {
                return WordOrder::Before;
            },
            (Some(_), None) => {
                return WordOrder::After;
            },
            (Some(x), Some(y)) => {
                if x != y {
                    return if (x as u32) < (y as u32) {
                        WordOrder::Before
                    } else {
                        WordOrder::After
                    };
                }
                proof {
                    assert(tail_a.drop_first() =~= a@.skip(at + 1));
                    assert(tail_b.drop_first() =~= b@.skip(at + 1));
                    lemma_precedes_total(tail_a.drop_first(), tail_b.drop_first());
                    if tail_a.drop_first() == tail_b.drop_first() {
                        assert(tail_a =~= seq![x] + tail_a.drop_first());
                        assert(tail_b =~= seq![y] + tail_b.drop_first());
                    }
                    at = at + 1;
                }
            },
        }
    }
}

} // verus!
