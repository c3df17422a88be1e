use vstd::prelude::*;

verus! {

/// Whether `c` is one of the ten decimal digits `0` to `9`.
pub open spec fn is_digit(c: char) -> bool {
    0x30 <= c as u32 <= 0x39
}

/// The number that the digit `c` stands for.
pub open spec fn digit_value(c: char) -> nat {
    (c as u32 - 0x30) as nat
}

/// The digit that stands for `d`, a number below ten.
pub open spec fn digit_char(d: nat) -> char {
    (0x30 + d) as char
}

/// Whether `s` is one or more decimal digits and nothing else.
pub open spec fn is_digits(s: Seq<char>) -> bool {
    s.len() > 0 && forall|i: int| 0 <= i < s.len() ==> is_digit(#[trigger] s[i])
}

/// The number that a run of decimal digits spells, most significant first.
pub open spec fn digits_value(s: Seq<char>) -> nat
    decreases s.len(),
{
    if s.len() == 0 {
        0
    } else {
        digits_value(s.drop_last()) * 10 + digit_value(s.last())
    }
}

/// `s` without the plus sign that may lead it.
pub open spec fn unsigned_part(s: Seq<char>) -> Seq<char> {
    if s.len() > 0 && s[0] == '+' {
        s.skip(1)
    } else {
        s
    }
}

/// The count that `s` spells: an optional `+`, then one or more decimal
/// digits whose value fits the machine word. Anything else spells none.
pub open spec fn count_of(s: Seq<char>) -> Option<usize> {
    let digits = unsigned_part(s);
    if is_digits(digits) && digits_value(digits) <= usize::MAX {
        Some(digits_value(digits) as usize)
    } else {
        None
    }
}

/// The decimal numeral of `n`, without sign or leading zeros.
pub open spec fn decimal(n: nat) -> Seq<char>
    decreases n,
{
    if n < 10 {
        seq![digit_char(n)]
    } else {
        decimal(n / 10).push(digit_char(n % 10))
    }
}

/// A run of digits is worth at least as much as any of its prefixes.
proof fn lemma_prefix_value(s: Seq<char>, k: int)
    requires
        0 <= k <= s.len(),
    ensures
        digits_value(s.take(k)) <= digits_value(s),
    decreases s.len(),
{
    if k == s.len() {
        assert(s.take(k) =~= s);
    } else {
        assert(s.drop_last().take(k) =~= s.take(k));
        lemma_prefix_value(s.drop_last(), k);
    }
}

/// A numeral is made of digits, and they spell the number it was written
/// for.
proof fn lemma_decimal_value(n: nat)
    ensures
        is_digits(decimal(n)),
        digits_value(decimal(n)) == n,
    decreases n,
{
    if n < 10 {
        assert(decimal(n).drop_last() =~= Seq::<char>::empty());
        assert(digits_value(decimal(n).drop_last()) == 0);
    } else {
        lemma_decimal_value(n / 10);
        assert(decimal(n).drop_last() =~= decimal(n / 10));
    }
}

/// Reading the numeral of a count gives the count back.
pub proof fn lemma_numeral_round_trip(n: usize)
    ensures
        count_of(decimal(n as nat)) == Some(n),
{
    lemma_decimal_value(n as nat);
}

/// Reads a count from its decimal numeral.
pub fn parse_count(text: &str) -> (r: Option<usize>)
    ensures
        r == count_of(text@),
{
    let mut value: usize = 0;
    let mut any: bool = false;
    let mut first: bool = true;
    for c in it: text.chars()
        invariant
            it.seq() == text@,
            first == (it.index() == 0),
            any == (unsigned_part(text@.take(it.index())).len() > 0),
            value == digits_value(unsigned_part(text@.take(it.index()))),
            forall|i: int|
                0 <= i < unsigned_part(text@.take(it.index())).len() ==> is_digit(
                    #[trigger] unsigned_part(text@.take(it.index()))[i],
                ),
    {
        let ghost before = unsigned_part(text@.take(it.index()));
        let ghost after = unsigned_part(text@.take(it.index() + 1));
        let ghost whole = unsigned_part(text@);
        proof {
            if first {
                if c != '+' {
                    assert(after =~= before.push(c));
                }
            } else {
                assert(after =~= before.push(c));
            }
            assert(after =~= whole.take(after.len() as int));
        }
        let n: u32 = c as u32;
        if first && c == '+' {
        } else if 0x30 <= n && n <= 0x39 {
            let d: usize = (n - 0x30) as usize;
            if value > (usize::MAX - d) / 10 {
                proof {
                    assert(after.drop_last() =~= before);
                    lemma_prefix_value(whole, after.len() as int);
                }
                return None;
            }
            proof {
                assert(after.drop_last() =~= before);
            }
            value = value * 10 + d;
            any = true;
        } else {
            proof {
                assert(whole[after.len() - 1] == c);
            }
            return None;
        }
        first = false;
    }
    proof {
        assert(text@.take(text@.len() as int) =~= text@);
    }
    if any {
        Some(value)
    } else {
        None
    }
}

/// Writes a count as its decimal numeral.
pub fn format_count(n: usize) -> (s: String)
    ensures
        s@ == decimal(n as nat),
    decreases n,
{
    let d: u8 = (n % 10) as u8;
    let c: char = (0x30u8 + d) as char;
    if n < 10 {
        let mut s = String::new();
        s.push(c);
        assert(s@ =~= seq![c]);
        s
    } else {
        let mut s = format_count(n / 10);
        s.push(c);
        s
    }
}

} // verus!
