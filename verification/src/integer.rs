//! Arbitrary-precision integers as the interpreter sees them: a sign and a
//! magnitude in base 2^32, always normalised, viewed as a mathematical `int`.

use num_bigint::{BigInt, Sign};
use num_traits::cast::ToPrimitive;
use vstd::prelude::*;

verus! {

/// The base of the digits of a magnitude.
pub open spec fn radix() -> nat {
    0x1_0000_0000
}

/// The number that a little-endian sequence of base 2^32 digits denotes.
pub open spec fn digits_value(digits: Seq<u32>) -> nat
    decreases digits.len(),
{
    if digits.len() == 0 {
        0
    } else {
        digits[0] as nat + radix() * digits_value(digits.drop_first())
    }
}

/// A digit sequence is normalised when its most significant digit is not zero.
pub open spec fn normalised(digits: Seq<u32>) -> bool {
    digits.len() > 0 ==> digits.last() != 0
}

/// The integer with the given sign and magnitude.
pub open spec fn signed_value(negative: bool, magnitude: nat) -> int {
    if negative {
        -(magnitude as int)
    } else {
        magnitude as int
    }
}

/// Whether `b` is one of the characters `0` to `9`.
pub open spec fn is_decimal_digit(b: u8) -> bool {
    48 <= b <= 57
}

/// Whether `s` is a non-empty run of decimal digits.
pub open spec fn is_decimal(s: Seq<u8>) -> bool {
    s.len() > 0 && forall|i: int| 0 <= i < s.len() ==> is_decimal_digit(#[trigger] s[i])
}

/// The number that a run of decimal digits denotes, most significant first.
pub open spec fn decimal_value(s: Seq<u8>) -> nat
    decreases s.len(),
{
    if s.len() == 0 {
        0
    } else {
        (10 * decimal_value(s.drop_last()) + (s.last() - 48)) as nat
    }
}

pub proof fn lemma_digits_value_push_zero(digits: Seq<u32>)
    ensures
        digits_value(digits.push(0)) == digits_value(digits),
    decreases digits.len(),
{
    let extended = digits.push(0);
    assert(digits_value(extended) == extended[0] as nat + radix() * digits_value(
        extended.drop_first(),
    ));
    if digits.len() == 0 {
        assert(extended.drop_first() =~= Seq::<u32>::empty());
    } else {
        lemma_digits_value_push_zero(digits.drop_first());
        assert(extended.drop_first() =~= digits.drop_first().push(0));
    }
}

pub proof fn lemma_normalised_positive(digits: Seq<u32>)
    requires
        normalised(digits),
        digits.len() > 0,
    ensures
        digits_value(digits) > 0,
    decreases digits.len(),
{
    if digits.len() == 1 {
        assert(digits.drop_first().len() == 0);
    } else {
        let rest = digits.drop_first();
        assert(rest.last() == digits.last());
        lemma_normalised_positive(rest);
        assert(radix() * digits_value(rest) > 0) by (nonlinear_arith)
            requires
                digits_value(rest) > 0,
                radix() > 0,
        ;
    }
}

/// Two normalised digit sequences that denote the same number are the same
/// sequence.
pub proof fn lemma_digits_value_injective(a: Seq<u32>, b: Seq<u32>)
    requires
        normalised(a),
        normalised(b),
        digits_value(a) == digits_value(b),
    ensures
        a == b,
    decreases a.len(),
{
    if a.len() == 0 {
        if b.len() > 0 {
            lemma_normalised_positive(b);
        }
        assert(a =~= b);
    } else if b.len() == 0 {
        lemma_normalised_positive(a);
    } else {
        let ra = a.drop_first();
        let rb = b.drop_first();
        let va = digits_value(ra);
        let vb = digits_value(rb);
        assert(a[0] as nat + 0x1_0000_0000 * va == b[0] as nat + 0x1_0000_0000 * vb);
        assert(va == vb && a[0] == b[0]);
        if ra.len() > 0 {
            assert(ra.last() == a.last());
        }
        if rb.len() > 0 {
            assert(rb.last() == b.last());
        }
        lemma_digits_value_injective(ra, rb);
        assert(a =~= seq![a[0]] + ra);
        assert(b =~= seq![b[0]] + rb);
    }
}

/// An arbitrary-precision integer.
#[derive(Debug)]
pub struct Integer {
    negative: bool,
    magnitude: Vec<u32>,
}

impl View for Integer {
    type V = int;

    closed spec fn view(&self) -> int {
        signed_value(self.negative, digits_value(self.magnitude@))
    }
}

impl Integer {
    #[verifier::type_invariant]
    spec fn well_formed(self) -> bool {
        &&& normalised(self.magnitude@)
        &&& self.negative ==> self.magnitude@.len() > 0
    }

    /// The integer with the given sign and little-endian base 2^32 digits.
    /// Leading zero digits are dropped, and zero is never negative.
    pub fn new(negative: bool, digits: Vec<u32>) -> (r: Integer)
        ensures
            r@ == signed_value(negative, digits_value(digits@)),
    {
        let mut magnitude = digits;
        while magnitude.len() > 0 && magnitude[magnitude.len() - 1] == 0
            invariant
                digits_value(magnitude@) == digits_value(digits@),
            decreases magnitude.len(),
        {
            proof {
                lemma_digits_value_push_zero(magnitude@.drop_last());
                assert(magnitude@.drop_last().push(0) =~= magnitude@);
            }
            magnitude.pop();
        }
        let negative = negative && magnitude.len() > 0;
        Integer { negative, magnitude }
    }

    /// Whether the integer is below zero.
    pub fn is_negative(&self) -> (r: bool)
        ensures
            r == (self@ < 0),
    {
        proof {
            use_type_invariant(self);
            if self.magnitude@.len() > 0 {
                lemma_normalised_positive(self.magnitude@);
            }
        }
        self.negative
    }

    /// The little-endian base 2^32 digits of the absolute value, without
    /// leading zeros.
    pub fn digits(&self) -> (r: Vec<u32>)
        ensures
            normalised(r@),
            self@ == signed_value(self@ < 0, digits_value(r@)),
    {
        proof {
            use_type_invariant(self);
            if self.magnitude@.len() > 0 {
                lemma_normalised_positive(self.magnitude@);
            }
        }
        let r = self.magnitude.clone();
        assert(r@ =~= self.magnitude@);
        r
    }

    /// Whether two integers are the same number.
    pub fn equals(&self, other: &Integer) -> (r: bool)
        ensures
            r == (self@ == other@),
    {
        proof {
            use_type_invariant(self);
            use_type_invariant(other);
            if self.magnitude@.len() > 0 {
                lemma_normalised_positive(self.magnitude@);
            }
            if other.magnitude@.len() > 0 {
                lemma_normalised_positive(other.magnitude@);
            }
        }
        if self.negative != other.negative {
            return false;
        }
        if self.magnitude.len() != other.magnitude.len() {
            proof {
                if digits_value(self.magnitude@) == digits_value(other.magnitude@) {
                    lemma_digits_value_injective(self.magnitude@, other.magnitude@);
                }
            }
            return false;
        }
        let mut i: usize = 0;
        while i < self.magnitude.len()
            invariant
                i <= self.magnitude.len(),
                self.magnitude.len() == other.magnitude.len(),
                normalised(self.magnitude@),
                normalised(other.magnitude@),
                forall|j: int| 0 <= j < i ==> self.magnitude@[j] == other.magnitude@[j],
            decreases self.magnitude.len() - i,
        {
            if self.magnitude[i] != other.magnitude[i] {
                proof {
                    if digits_value(self.magnitude@) == digits_value(other.magnitude@) {
                        lemma_digits_value_injective(self.magnitude@, other.magnitude@);
                    }
                }
                return false;
            }
            i += 1;
        }
        assert(self.magnitude@ =~= other.magnitude@);
        true
    }

    /// The integer `n`.
    pub fn from_usize(n: usize) -> (r: Integer)
        ensures
            r@ == n,
    {
        let (negative, digits) = digits_of_usize(n);
        Integer::new(negative, digits)
    }

    /// The value as a `usize`, where it is one.
    pub fn to_usize(&self) -> (r: Option<usize>)
        ensures
            r == (if 0 <= self@ <= usize::MAX {
                Some(self@ as usize)
            } else {
                None
            }),
    {
        digits_to_usize(self.negative, &self.magnitude)
    }

    /// The number that the bytes of `text` from `from` up to `to` denote
    /// in decimal, where they are a non-empty run of digits.
    pub fn parse_decimal(text: &[u8], from: usize, to: usize) -> (r: Option<Integer>)
        requires
            from <= to <= text@.len(),
        ensures
            is_decimal(text@.subrange(from as int, to as int)) ==> r is Some && r->0@
                == decimal_value(text@.subrange(from as int, to as int)),
    {
        match digits_of_decimal(text, from, to) {
            Some((negative, digits)) => Some(Integer::new(negative, digits)),
            None => None,
        }
    }
}

/// The integer that a sign and digits stand for: whether it is below
/// zero, and its magnitude in base 2^32, least significant digit first.
pub open spec fn parts_value(parts: (bool, Vec<u32>)) -> int {
    signed_value(parts.0, digits_value(parts.1@))
}

/// The sign and the digits of `n`, as `num_bigint` has them: made by
/// `BigInt::from` for `usize` and read by `BigInt::to_u32_digits`.  The
/// contract claims that the digits, least significant first in base 2^32,
/// denote `n`, and that the sign is not `Minus`.
#[verifier::external_body]
fn digits_of_usize(n: usize) -> (r: (bool, Vec<u32>))
    ensures
        parts_value(r) == n,
{
    let (sign, digits) = BigInt::from(n).to_u32_digits();
    (matches!(sign, Sign::Minus), digits)
}

/// The number of the given sign and digits as a `usize`, computed by
/// `num_traits`' `ToPrimitive::to_usize` on the `BigInt` that
/// `BigInt::from_slice` builds from them.  The contract claims that the
/// call returns the number exactly when it lies in the range of `usize`,
/// and `None` otherwise.
#[verifier::external_body]
fn digits_to_usize(negative: bool, digits: &Vec<u32>) -> (r: Option<usize>)
    ensures
        r == (if 0 <= signed_value(negative, digits_value(digits@)) <= usize::MAX {
            Some(signed_value(negative, digits_value(digits@)) as usize)
        } else {
            None
        }),
{
    let sign = if negative { Sign::Minus } else { Sign::Plus };
    BigInt::from_slice(sign, digits).to_usize()
}

/// The sign and the digits of the number that the bytes of `text` from
/// `from` up to `to` denote, read by `num_bigint`'s `BigInt::parse_bytes`
/// in radix 10 and `BigInt::to_u32_digits`.  The contract claims that a
/// non-empty run of the characters `0` to `9` is accepted, and that the
/// digits then denote its decimal value; of any other text it claims
/// nothing.
#[verifier::external_body]
fn digits_of_decimal(text: &[u8], from: usize, to: usize) -> (r: Option<(bool, Vec<u32>)>)
    requires
        from <= to <= text@.len(),
    ensures
        is_decimal(text@.subrange(from as int, to as int)) ==> r is Some && parts_value(r->0)
            == decimal_value(text@.subrange(from as int, to as int)),
{
    match BigInt::parse_bytes(&text[from..to], 10) {
        Some(n) => {
            let (sign, digits) = n.to_u32_digits();
            Some((matches!(sign, Sign::Minus), digits))
        },
        None => None,
    }
}

impl Clone for Integer {
    fn clone(&self) -> (r: Integer)
        ensures
            r@ == self@,
    {
        proof {
            use_type_invariant(self);
        }
        let magnitude = self.magnitude.clone();
        assert(magnitude@ =~= self.magnitude@);
        Integer { negative: self.negative, magnitude }
    }
}

} // verus!
