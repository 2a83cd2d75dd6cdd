use crate::sha::SHA;
use vstd::prelude::*;

verus! {

/// Bytewise exclusive or of two byte strings of one length.
pub open spec fn xor_bytes(a: Seq<u8>, b: Seq<u8>) -> Seq<u8> {
    Seq::new(a.len(), |i: int| a[i] ^ b[i])
}

/// The number a byte string denotes when read with its first byte as the
/// most significant one.
pub open spec fn be_value(s: Seq<u8>) -> nat
    decreases s.len(),
{
    if s.len() == 0 {
        0
    } else {
        be_value(s.drop_last()) * 256 + s.last() as nat
    }
}

/// Number of zero bits in front of the highest set bit of a byte; 8 for zero.
pub open spec fn byte_leading_zeros(b: u8) -> nat {
    if b >= 128 {
        0
    } else if b >= 64 {
        1
    } else if b >= 32 {
        2
    } else if b >= 16 {
        3
    } else if b >= 8 {
        4
    } else if b >= 4 {
        5
    } else if b >= 2 {
        6
    } else if b >= 1 {
        7
    } else {
        8
    }
}

/// Number of zero bits in front of the first set bit of a byte string; the
/// string's width in bits when no bit is set.
pub open spec fn leading_zero_bits(s: Seq<u8>) -> nat
    decreases s.len(),
{
    if s.len() == 0 {
        0
    } else if s[0] == 0 {
        8 + leading_zero_bits(s.skip(1))
    } else {
        byte_leading_zeros(s[0])
    }
}

/// Length in bits of the prefix that two identifiers share: the index,
/// counted from the most significant bit, of the first bit in which they
/// differ, and the identifiers' width where they are equal.
pub open spec fn cpl(a: Seq<u8>, b: Seq<u8>) -> nat {
    leading_zero_bits(xor_bytes(a, b))
}

/// True when every byte of the string is zero.
pub open spec fn all_zero(s: Seq<u8>) -> bool {
    forall|i: int| 0 <= i < s.len() ==> s[i] == 0
}

/// The XOR metric between two identifiers: a 160-bit value ordered as an
/// unsigned big-endian number.
#[derive(Debug, Clone, Copy, Eq, PartialEq, Ord, PartialOrd, Hash)]
pub struct Distance(pub [u8; 20]);

impl View for Distance {
    type V = Seq<u8>;

    open spec fn view(&self) -> Seq<u8> {
        self.0@
    }
}

impl Distance {
    /// The distance as a natural number.
    pub open spec fn value(&self) -> nat {
        be_value(self@)
    }

    /// The distance between two identifiers.
    pub fn new(a: &SHA, b: &SHA) -> (d: Distance)
        ensures
            d@ == xor_bytes(a@, b@),
    {
        let mut dis = [0u8; 20];
        let mut i: usize = 0;
        while i < 20
            invariant
                i <= 20,
                forall|j: int| 0 <= j < i ==> dis@[j] == a@[j] ^ b@[j],
            decreases 20 - i,
        {
            dis[i] = a.0[i] ^ b.0[i];
            i += 1;
        }
        assert(dis@ =~= xor_bytes(a@, b@));
        Distance(dis)
    }

    /// Number of leading zero bits: the length of the prefix that the two
    /// identifiers this distance was taken between have in common.
    pub fn leading_zeros(&self) -> (n: usize)
        ensures
            n == leading_zero_bits(self@),
            n <= 160,
            n == 160 <==> all_zero(self@),
    {
        let mut i: usize = 0;
        proof {
            assert(self@.skip(0) =~= self@);
            lemma_leading_zero_bits_bound(self@);
        }
        while i < 20
            invariant
                i <= 20,
                forall|j: int| 0 <= j < i ==> self@[j] == 0,
                leading_zero_bits(self@) == 8 * i + leading_zero_bits(self@.skip(i as int)),
            decreases 20 - i,
        {
            let byte = self.0[i];
            assert(self@.skip(i as int)[0] == byte);
            if byte != 0 {
                return 8 * i + leading_zeros_of_byte(byte);
            }
            assert(self@.skip(i as int).skip(1) =~= self@.skip(i as int + 1));
            i += 1;
        }
        assert(self@.skip(20).len() == 0);
        160
    }

    /// True when the distance is zero, that is, between an identifier and
    /// itself.
    pub fn is_zero(&self) -> (r: bool)
        ensures
            r == all_zero(self@),
            r == (self.value() == 0),
    {
        proof {
            lemma_value_zero(self@);
        }
        self.leading_zeros() == 160
    }

    /// Strictly smaller, as unsigned big-endian numbers.
    pub fn lt(&self, other: &Distance) -> (r: bool)
        ensures
            r == (self.value() < other.value()),
    {
        let mut i: usize = 0;
        while i < 20
            invariant
                i <= 20,
                forall|j: int| 0 <= j < i ==> self@[j] == other@[j],
            decreases 20 - i,
        {
            let x = self.0[i];
            let y = other.0[i];
            if x < y {
                proof {
                    lemma_first_difference_orders(self@, other@, i as int);
                }
                return true;
            }
            if x > y {
                proof {
                    lemma_first_difference_orders(other@, self@, i as int);
                }
                return false;
            }
            i += 1;
        }
        assert(self@ =~= other@);
        false
    }

    /// Smaller or equal, as unsigned big-endian numbers.
    pub fn le(&self, other: &Distance) -> (r: bool)
        ensures
            r == (self.value() <= other.value()),
    {
        !other.lt(self)
    }
}

/// Leading zero bits of one non-zero byte.
fn leading_zeros_of_byte(b: u8) -> (n: usize)
    requires
        b != 0,
    ensures
        n == byte_leading_zeros(b),
        n < 8,
{
    if b >= 128 {
        0
    } else if b >= 64 {
        1
    } else if b >= 32 {
        2
    } else if b >= 16 {
        3
    } else if b >= 8 {
        4
    } else if b >= 4 {
        5
    } else if b >= 2 {
        6
    } else {
        7
    }
}

/// Two byte strings of one length that first differ at `i` are ordered, as
/// numbers, the way their bytes at `i` are.
pub proof fn lemma_first_difference_orders(a: Seq<u8>, b: Seq<u8>, i: int)
    requires
        a.len() == b.len(),
        0 <= i < a.len(),
        forall|j: int| 0 <= j < i ==> a[j] == b[j],
        a[i] < b[i],
    ensures
        be_value(a) < be_value(b),
    decreases a.len(),
{
    if i == a.len() - 1 {
        assert(a.drop_last() =~= b.drop_last());
    } else {
        lemma_first_difference_orders(a.drop_last(), b.drop_last(), i);
    }
}

/// A byte string denotes zero exactly when all its bytes are zero.
pub proof fn lemma_value_zero(s: Seq<u8>)
    ensures
        all_zero(s) <==> be_value(s) == 0,
    decreases s.len(),
{
    if s.len() > 0 {
        lemma_value_zero(s.drop_last());
        if all_zero(s) {
            assert(all_zero(s.drop_last()));
        }
        if be_value(s) == 0 {
            assert(be_value(s.drop_last()) == 0 && s.last() == 0);
            assert forall|i: int| 0 <= i < s.len() implies s[i] == 0 by {
                if i < s.len() - 1 {
                    assert(s.drop_last()[i] == 0);
                }
            }
        }
    }
}

/// Byte strings of one length denote the same number only when they are
/// equal.
pub proof fn lemma_value_injective(a: Seq<u8>, b: Seq<u8>)
    requires
        a.len() == b.len(),
        be_value(a) == be_value(b),
    ensures
        a == b,
    decreases a.len(),
{
    if a.len() > 0 {
        lemma_value_injective(a.drop_last(), b.drop_last());
        assert(a =~= a.drop_last().push(a.last()));
        assert(b =~= b.drop_last().push(b.last()));
    } else {
        assert(a =~= b);
    }
}

/// The XOR metric is symmetric.
pub proof fn lemma_xor_symmetric(a: Seq<u8>, b: Seq<u8>)
    requires
        a.len() == b.len(),
    ensures
        xor_bytes(a, b) == xor_bytes(b, a),
{
    assert forall|i: int| 0 <= i < a.len() implies #[trigger] xor_bytes(a, b)[i] == xor_bytes(
        b,
        a,
    )[i] by {
        let x = a[i];
        let y = b[i];
        assert(x ^ y == y ^ x) by (bit_vector);
    }
    assert(xor_bytes(a, b) =~= xor_bytes(b, a));
}

/// The distance from an identifier to itself is zero.
pub proof fn lemma_xor_self_zero(a: Seq<u8>)
    ensures
        all_zero(xor_bytes(a, a)),
        be_value(xor_bytes(a, a)) == 0,
{
    assert forall|i: int| 0 <= i < a.len() implies #[trigger] xor_bytes(a, a)[i] == 0 by {
        let x = a[i];
        assert(x ^ x == 0) by (bit_vector);
    }
    lemma_value_zero(xor_bytes(a, a));
}

/// Only an identifier itself is at distance zero from it.
pub proof fn lemma_xor_zero_same(a: Seq<u8>, b: Seq<u8>)
    requires
        a.len() == b.len(),
        all_zero(xor_bytes(a, b)),
    ensures
        a == b,
{
    assert forall|i: int| 0 <= i < a.len() implies a[i] == b[i] by {
        let x = a[i];
        let y = b[i];
        assert(xor_bytes(a, b)[i] == x ^ y);
        assert((x ^ y == 0) ==> x == y) by (bit_vector);
    }
    assert(a =~= b);
}

/// Different identifiers share a prefix shorter than their width; equal
/// ones share all of it.
pub proof fn lemma_cpl_bound(a: Seq<u8>, b: Seq<u8>)
    requires
        a.len() == b.len(),
    ensures
        cpl(a, b) <= 8 * a.len(),
        cpl(a, b) == 8 * a.len() <==> a == b,
        cpl(a, b) == cpl(b, a),
{
    lemma_leading_zero_bits_bound(xor_bytes(a, b));
    lemma_xor_symmetric(a, b);
    if all_zero(xor_bytes(a, b)) {
        lemma_xor_zero_same(a, b);
    }
    if a == b {
        lemma_xor_self_zero(a);
    }
}

/// Two identifiers at the same distance from a third are the same.
pub proof fn lemma_xor_cancels(a: Seq<u8>, b: Seq<u8>, t: Seq<u8>)
    requires
        a.len() == t.len(),
        b.len() == t.len(),
        xor_bytes(a, t) == xor_bytes(b, t),
    ensures
        a == b,
{
    assert forall|i: int| 0 <= i < a.len() implies a[i] == b[i] by {
        let x = a[i];
        let y = b[i];
        let z = t[i];
        assert(xor_bytes(a, t)[i] == x ^ z);
        assert(xor_bytes(b, t)[i] == y ^ z);
        assert((x ^ z == y ^ z) ==> x == y) by (bit_vector);
    }
    assert(a =~= b);
}

/// A byte string has fewer leading zero bits than bits exactly when some
/// byte of it is not zero.
pub proof fn lemma_leading_zero_bits_bound(s: Seq<u8>)
    ensures
        leading_zero_bits(s) <= 8 * s.len(),
        leading_zero_bits(s) == 8 * s.len() <==> all_zero(s),
    decreases s.len(),
{
    if s.len() > 0 {
        lemma_leading_zero_bits_bound(s.skip(1));
        if s[0] == 0 {
            if all_zero(s) {
                assert forall|i: int| 0 <= i < s.skip(1).len() implies s.skip(1)[i] == 0 by {
                    assert(s[i + 1] == 0);
                }
            }
            if all_zero(s.skip(1)) {
                assert forall|i: int| 0 <= i < s.len() implies s[i] == 0 by {
                    if i > 0 {
                        assert(s.skip(1)[i - 1] == 0);
                    }
                }
            }
        }
    }
}

/// 2 to the power `n`.
pub open spec fn pow2(n: nat) -> nat
    decreases n,
{
    if n == 0 {
        1
    } else {
        2 * pow2((n - 1) as nat)
    }
}

/// Powers of 2 multiply by adding their exponents.
pub proof fn lemma_pow2_adds(a: nat, b: nat)
    ensures
        pow2(a + b) == pow2(a) * pow2(b),
        pow2(a) > 0,
    decreases a,
{
    if a > 0 {
        lemma_pow2_adds((a - 1) as nat, b);
        assert(pow2(a + b) == 2 * pow2((a - 1 + b) as nat));
        assert(2 * (pow2((a - 1) as nat) * pow2(b)) == (2 * pow2((a - 1) as nat)) * pow2(b))
            by (nonlinear_arith);
    } else {
        assert(pow2(0) * pow2(b) == pow2(b)) by (nonlinear_arith)
            requires
                pow2(0) == 1,
        ;
    }
}

/// A byte string denotes its first byte, moved up by the width of the
/// rest, plus what the rest denotes; and the rest denotes less than 2 to
/// the power of its width.
pub proof fn lemma_value_front(s: Seq<u8>)
    requires
        s.len() > 0,
    ensures
        be_value(s) == s[0] as nat * pow2((8 * (s.len() - 1)) as nat) + be_value(s.skip(1)),
        be_value(s.skip(1)) < pow2((8 * (s.len() - 1)) as nat),
    decreases s.len(),
{
    reveal_with_fuel(pow2, 9);
    let n = s.len();
    if n == 1 {
        assert(s.drop_last().len() == 0);
        assert(s.skip(1).len() == 0);
        assert(be_value(s.drop_last()) == 0);
        assert(be_value(s.skip(1)) == 0);
        assert(s.last() == s[0]);
        assert(be_value(s) == s[0] as nat);
        assert(s[0] as nat * pow2(0) == s[0] as nat) by (nonlinear_arith)
            requires
                pow2(0) == 1,
        ;
    } else {
        let d = s.drop_last();
        let t = s.skip(1);
        lemma_value_front(d);
        assert(t.drop_last() =~= d.skip(1));
        let p = pow2((8 * (n - 2)) as nat);
        lemma_pow2_adds(8, (8 * (n - 2)) as nat);
        assert(pow2(8) == 256);
        assert(pow2((8 * (n - 1)) as nat) == 256 * p);
        let a = s[0] as nat;
        let r = be_value(d.skip(1));
        let l = s.last() as nat;
        assert(d[0] == s[0]);
        assert(t.last() == s.last());
        assert(be_value(d) == a * p + r);
        assert(be_value(t) == r * 256 + l);
        assert(be_value(s) == (a * p + r) * 256 + l);
        assert((a * p + r) * 256 + l == a * (256 * p) + (r * 256 + l)) by (nonlinear_arith);
        assert(r * 256 + l < 256 * p) by (nonlinear_arith)
            requires
                r < p,
                l <= 255,
        ;
    }
}

/// The number that a byte string with a set bit denotes has its highest
/// set bit where the leading zero bits end: with `z` leading zero bits
/// among `w` bits, it lies from `2^(w-1-z)` up to, but not including,
/// `2^(w-z)`. So the common-prefix length of two different identifiers is
/// 159 less the binary logarithm, rounded down, of their distance.
pub proof fn lemma_leading_zero_bits_magnitude(s: Seq<u8>)
    requires
        !all_zero(s),
    ensures
        leading_zero_bits(s) < 8 * s.len(),
        pow2((8 * s.len() - 1 - leading_zero_bits(s)) as nat) <= be_value(s),
        be_value(s) < pow2((8 * s.len() - leading_zero_bits(s)) as nat),
    decreases s.len(),
{
    lemma_leading_zero_bits_bound(s);
    let n = s.len();
    if n > 0 {
        lemma_value_front(s);
        let t = s.skip(1);
        let p = pow2((8 * (n - 1)) as nat);
        if s[0] == 0 {
            assert(!all_zero(t)) by {
                if all_zero(t) {
                    assert forall|i: int| 0 <= i < s.len() implies s[i] == 0 by {
                        if i > 0 {
                            assert(t[i - 1] == 0);
                        }
                    }
                }
            }
            lemma_leading_zero_bits_magnitude(t);
            assert(0 * p == 0) by (nonlinear_arith);
        } else {
            reveal_with_fuel(pow2, 9);
            let z = byte_leading_zeros(s[0]);
            let a = s[0] as nat;
            let r = be_value(t);
            assert(pow2((7 - z) as nat) <= a && a + 1 <= pow2((8 - z) as nat));
            lemma_pow2_adds((7 - z) as nat, (8 * (n - 1)) as nat);
            lemma_pow2_adds((8 - z) as nat, (8 * (n - 1)) as nat);
            let lo = pow2((7 - z) as nat);
            let hi = pow2((8 - z) as nat);
            assert(lo * p <= a * p + r && a * p + r < hi * p) by (nonlinear_arith)
                requires
                    lo <= a,
                    a + 1 <= hi,
                    r < p,
            ;
        }
    }
}

} // verus!
