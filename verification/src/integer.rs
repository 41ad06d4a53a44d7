//! Arbitrary-precision natural numbers, as integer literals carry them.

use num_bigint::BigInt;
use std::str::FromStr;
use vstd::prelude::*;

verus! {

/// The number that a little-endian sequence of base-2^32 limbs stands for.
pub open spec fn limbs_value(limbs: Seq<u32>) -> nat
    decreases limbs.len(),
{
    if limbs.len() == 0 {
        0
    } else {
        limbs[0] as nat + 0x1_0000_0000 * limbs_value(limbs.drop_first())
    }
}

/// No superfluous most significant limb: every number has one such sequence.
pub open spec fn limbs_canonical(limbs: Seq<u32>) -> bool {
    limbs.len() > 0 ==> limbs.last() != 0
}

/// `0` to `9`.
pub open spec fn is_digit(c: char) -> bool {
    '0' <= c <= '9'
}

/// The number that a digit stands for.
pub open spec fn digit_value(c: char) -> nat {
    (c as int - '0' as int) as nat
}

/// A digit, then any run of digits and `_` separators.
pub open spec fn is_decimal_literal(text: Seq<char>) -> bool {
    &&& text.len() > 0
    &&& is_digit(text[0])
    &&& forall|i: int| 0 <= i < text.len() ==> is_digit(#[trigger] text[i]) || text[i] == '_'
}

/// The number that a decimal literal denotes; `_` separators carry no value.
pub open spec fn decimal_value(text: Seq<char>) -> nat
    decreases text.len(),
{
    if text.len() == 0 {
        0
    } else if text.last() == '_' {
        decimal_value(text.drop_last())
    } else {
        10 * decimal_value(text.drop_last()) + digit_value(text.last())
    }
}

/// A natural number of unbounded magnitude.
#[derive(Debug, PartialEq, Eq)]
pub struct Integer {
    limbs: Vec<u32>,
}

impl View for Integer {
    type V = nat;

    closed spec fn view(&self) -> nat {
        limbs_value(self.limbs@)
    }
}

/// `num_bigint::BigInt::from_str`, read out with `BigInt::to_u32_digits`.
/// On a decimal literal the call succeeds, and the limbs it hands back, least
/// significant first, are the literal's value. Nothing is claimed for any
/// other text.
#[verifier::external_body]
fn parse_decimal_limbs(text: &str) -> (limbs: Option<Vec<u32>>)
    ensures
        is_decimal_literal(text@) ==> limbs is Some,
        is_decimal_literal(text@) ==> limbs_value(limbs->0@) == decimal_value(text@),
{
    match BigInt::from_str(text) {
        Ok(number) => Some(number.to_u32_digits().1),
        Err(_) => None,
    }
}

impl Integer {
    /// Without a zero limb at the most significant end.
    pub closed spec fn canonical(&self) -> bool {
        limbs_canonical(self.limbs@)
    }

    /// The limbs, least significant first.
    pub closed spec fn limbs(&self) -> Seq<u32> {
        self.limbs@
    }

    /// The number `n`.
    pub fn from_u64(n: u64) -> (result: Integer)
        ensures
            result@ == n,
            result.canonical(),
    {
        let low: u32 = (n % 0x1_0000_0000) as u32;
        let high: u32 = (n / 0x1_0000_0000) as u32;
        let mut limbs: Vec<u32> = Vec::new();
        if high != 0 {
            limbs.push(low);
            limbs.push(high);
            proof {
                let s = limbs@;
                assert(s.drop_first() =~= seq![high]);
                assert(s.drop_first().drop_first() =~= Seq::<u32>::empty());
                reveal_with_fuel(limbs_value, 3);
            }
        } else if low != 0 {
            limbs.push(low);
            proof {
                assert(limbs@.drop_first() =~= Seq::<u32>::empty());
                reveal_with_fuel(limbs_value, 2);
            }
        }
        Integer { limbs }
    }

    /// The number that the limbs stand for, least significant first; zero
    /// limbs at the most significant end are dropped.
    pub fn from_u32_digits(digits: Vec<u32>) -> (result: Integer)
        ensures
            result@ == limbs_value(digits@),
            result.canonical(),
    {
        let mut limbs = digits;
        while limbs.len() > 0 && limbs[limbs.len() - 1] == 0
            invariant
                limbs_value(limbs@) == limbs_value(digits@),
            decreases limbs.len(),
        {
            proof {
                lemma_leading_zero(limbs@);
            }
            limbs.pop();
        }
        Integer { limbs }
    }

    /// Reads a decimal literal: `Some` exactly for a digit followed by digits
    /// and `_` separators.
    pub fn from_decimal(text: &str) -> (result: Option<Integer>)
        ensures
            result is Some <==> is_decimal_literal(text@),
            result matches Some(n) ==> n@ == decimal_value(text@) && n.canonical(),
    {
        let mut seen: usize = 0;
        let mut valid = true;
        for c in it: text.chars()
            invariant
                it.seq() == text@,
                (seen == 0) == (it.index() == 0),
                valid == ((it.index() > 0 ==> is_digit(text@[0])) && forall|j: int|
                    0 <= j < it.index() ==> is_digit(#[trigger] text@[j]) || text@[j] == '_'),
        {
            let digit = '0' <= c && c <= '9';
            if !(digit || (seen > 0 && c == '_')) {
                valid = false;
            }
            seen = 1;
        }
        if !valid || seen == 0 {
            return None;
        }
        match parse_decimal_limbs(text) {
            Some(limbs) => Some(Integer::from_u32_digits(limbs)),
            None => None,
        }
    }

    /// The limbs, least significant first, as `num_bigint` takes them.
    pub fn to_u32_digits(&self) -> (digits: Vec<u32>)
        ensures
            digits@ == self.limbs(),
            limbs_value(digits@) == self@,
    {
        self.limbs.clone()
    }
}

/// A zero limb at the most significant end adds nothing.
proof fn lemma_leading_zero(limbs: Seq<u32>)
    requires
        limbs.len() > 0,
        limbs.last() == 0,
    ensures
        limbs_value(limbs.drop_last()) == limbs_value(limbs),
    decreases limbs.len(),
{
    if limbs.len() == 1 {
        assert(limbs.drop_first() =~= Seq::<u32>::empty());
        assert(limbs.drop_last() =~= Seq::<u32>::empty());
        reveal_with_fuel(limbs_value, 2);
    } else {
        lemma_leading_zero(limbs.drop_first());
        assert(limbs.drop_last().drop_first() =~= limbs.drop_first().drop_last());
    }
}

/// Only zero has no limbs.
proof fn lemma_canonical_is_positive(limbs: Seq<u32>)
    requires
        limbs.len() > 0,
        limbs_canonical(limbs),
    ensures
        limbs_value(limbs) > 0,
    decreases limbs.len(),
{
    if limbs.len() == 1 {
        assert(limbs.drop_first() =~= Seq::<u32>::empty());
        reveal_with_fuel(limbs_value, 2);
    } else {
        lemma_canonical_is_positive(limbs.drop_first());
    }
}

/// A number has one canonical sequence of limbs.
pub proof fn lemma_canonical_limbs(a: Seq<u32>, b: Seq<u32>)
    requires
        limbs_canonical(a),
        limbs_canonical(b),
        limbs_value(a) == limbs_value(b),
    ensures
        a == b,
    decreases a.len(),
{
    if a.len() == 0 {
        if b.len() > 0 {
            lemma_canonical_is_positive(b);
        }
        assert(a =~= b);
    } else {
        lemma_canonical_is_positive(a);
        assert(b.len() > 0);
        let high_a = limbs_value(a.drop_first());
        let high_b = limbs_value(b.drop_first());
        assert(a[0] + 0x1_0000_0000 * high_a == b[0] + 0x1_0000_0000 * high_b);
        assert(high_a == high_b && a[0] == b[0]) by {
            if high_a < high_b {
                assert(0x1_0000_0000 * high_b >= 0x1_0000_0000 * high_a + 0x1_0000_0000);
            }
            if high_b < high_a {
                assert(0x1_0000_0000 * high_a >= 0x1_0000_0000 * high_b + 0x1_0000_0000);
            }
        }
        lemma_canonical_limbs(a.drop_first(), b.drop_first());
        assert(a =~= seq![a[0]] + a.drop_first());
        assert(b =~= seq![b[0]] + b.drop_first());
    }
}

/// Canonical integers are the same exactly if they stand for the same
/// number: comparing their limbs compares their values.
pub proof fn lemma_equal_values_equal_limbs(a: Integer, b: Integer)
    requires
        a.canonical(),
        b.canonical(),
    ensures
        a@ == b@ <==> a.limbs() == b.limbs(),
{
    if a@ == b@ {
        lemma_canonical_limbs(a.limbs@, b.limbs@);
    }
}

impl Clone for Integer {
    fn clone(&self) -> (result: Integer)
        ensures
            result@ == self@,
            result.limbs() == self.limbs(),
            result.canonical() == self.canonical(),
    {
        Integer { limbs: self.limbs.clone() }
    }
}

} // verus!
