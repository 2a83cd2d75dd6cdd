use crate::distance::be_value;
use vstd::prelude::*;

verus! {

/// 256 to the power `n`.
pub open spec fn pow256(n: nat) -> nat
    decreases n,
{
    if n == 0 {
        1
    } else {
        256 * pow256((n - 1) as nat)
    }
}

/// The `width` low-order base-256 digits of `x`, most significant first.
pub open spec fn be_bytes(x: nat, width: nat) -> Seq<u8>
    decreases width,
{
    if width == 0 {
        Seq::empty()
    } else {
        be_bytes(x / 256, (width - 1) as nat).push((x % 256) as u8)
    }
}

/// The array whose first `n` bytes are those of `s` and whose other bytes
/// are zero.
pub open spec fn array_prefix<const N: usize>(s: Seq<u8>, n: nat) -> [u8; N]
    decreases n,
{
    if n == 0 {
        vstd::array::spec_array_fill_for_copy_type::<u8, N>(0u8)
    } else {
        vstd::array::spec_array_update(array_prefix::<N>(s, (n - 1) as nat), n - 1, s[n - 1])
    }
}

/// The array that holds the `N` bytes of `s`.
pub open spec fn array_of<const N: usize>(s: Seq<u8>) -> [u8; N] {
    array_prefix::<N>(s, N as nat)
}

proof fn lemma_array_prefix<const N: usize>(s: Seq<u8>, n: nat)
    requires
        n <= N,
    ensures
        array_prefix::<N>(s, n)@.len() == N,
        forall|i: int| 0 <= i < n ==> array_prefix::<N>(s, n)@[i] == s[i],
    decreases n,
{
    broadcast use vstd::array::axiom_spec_array_update;
    broadcast use vstd::array::axiom_spec_array_fill_for_copy_type;
    broadcast use vstd::array::array_len_matches_n;

    if n > 0 {
        lemma_array_prefix::<N>(s, (n - 1) as nat);
    }
}

/// `array_of` holds the bytes it was made of, and is the only array that
/// does.
pub proof fn lemma_array_of<const N: usize>(s: Seq<u8>)
    requires
        s.len() == N,
    ensures
        array_of::<N>(s)@ == s,
        forall|a: [u8; N]| a@ == s ==> a == array_of::<N>(s),
{
    broadcast use vstd::array::array_len_matches_n;

    lemma_array_prefix::<N>(s, N as nat);
    let made = array_of::<N>(s);
    assert(made@ =~= s);
    assert forall|a: [u8; N]| a@ == s implies a == made by {
        assert(a =~= made);
    }
}

/// A byte string of length `n` denotes a number below `256^n`.
pub proof fn lemma_be_value_bound(s: Seq<u8>)
    ensures
        be_value(s) < pow256(s.len()),
    decreases s.len(),
{
    if s.len() > 0 {
        lemma_be_value_bound(s.drop_last());
    }
}

/// `256^n` grows with `n`.
pub proof fn lemma_pow256_monotonic(a: nat, b: nat)
    requires
        a <= b,
    ensures
        0 < pow256(a) <= pow256(b),
    decreases b,
{
    if a < b {
        lemma_pow256_monotonic(a, (b - 1) as nat);
    } else if a > 0 {
        lemma_pow256_monotonic((a - 1) as nat, (a - 1) as nat);
    }
}

/// The first powers of 256.
pub proof fn lemma_pow256_values()
    ensures
        pow256(1) == 0x100,
        pow256(2) == 0x1_0000,
        pow256(4) == 0x1_0000_0000,
        pow256(8) == 0x1_0000_0000_0000_0000,
{
    reveal_with_fuel(pow256, 9);
}

/// Reading back the digits of a number that fits gives the number.
pub proof fn lemma_be_value_of_bytes(x: nat, width: nat)
    requires
        x < pow256(width),
    ensures
        be_bytes(x, width).len() == width,
        be_value(be_bytes(x, width)) == x,
    decreases width,
{
    if width > 0 {
        let w = (width - 1) as nat;
        assert(x / 256 < pow256(w)) by (nonlinear_arith)
            requires
                x < 256 * pow256(w),
        ;
        lemma_be_value_of_bytes(x / 256, w);
        let s = be_bytes(x, width);
        assert(s.drop_last() =~= be_bytes(x / 256, w));
    }
}

/// The digits of a number have the length asked for.
pub proof fn lemma_be_bytes_len(x: nat, width: nat)
    ensures
        be_bytes(x, width).len() == width,
    decreases width,
{
    if width > 0 {
        lemma_be_bytes_len(x / 256, (width - 1) as nat);
    }
}

/// Appends the `width` low-order base-256 digits of `x`, most significant
/// first.
pub fn put_be(out: &mut Vec<u8>, x: u64, width: usize)
    ensures
        final(out)@ == old(out)@ + be_bytes(x as nat, width as nat),
    decreases width,
{
    if width > 0 {
        put_be(out, x / 256, width - 1);
        out.push((x % 256) as u8);
        assert(final(out)@ =~= old(out)@ + be_bytes(x as nat, width as nat));
    } else {
        assert(final(out)@ =~= old(out)@ + be_bytes(x as nat, width as nat));
    }
}

/// The number that the `width` bytes from `pos` on denote, most significant
/// byte first.
pub fn read_be(bytes: &[u8], pos: usize, width: usize) -> (x: u64)
    requires
        width <= 8,
        pos + width <= bytes@.len(),
    ensures
        x == be_value(bytes@.subrange(pos as int, pos + width)),
        x < pow256(width as nat),
{
    let mut x: u64 = 0;
    let mut i: usize = 0;
    let n = bytes.len();
    assert(bytes@.subrange(pos as int, pos as int).len() == 0);
    while i < width
        invariant
            i <= width <= 8,
            pos + width <= bytes@.len(),
            bytes@.len() == n,
            x == be_value(bytes@.subrange(pos as int, pos + i)),
        decreases width - i,
    {
        let b = bytes[pos + i];
        proof {
            let s = bytes@.subrange(pos as int, pos + i + 1);
            assert(s.drop_last() =~= bytes@.subrange(pos as int, pos + i));
            lemma_be_value_bound(s);
            lemma_pow256_monotonic((i + 1) as nat, 8);
            lemma_pow256_values();
        }
        x = x * 256 + b as u64;
        i += 1;
    }
    proof {
        lemma_be_value_bound(bytes@.subrange(pos as int, pos + width));
    }
    x
}

/// Appends every byte of `bytes`.
pub fn put_all(out: &mut Vec<u8>, bytes: &[u8])
    ensures
        final(out)@ == old(out)@ + bytes@,
{
    let mut i: usize = 0;
    while i < bytes.len()
        invariant
            i <= bytes@.len(),
            out@ == old(out)@ + bytes@.take(i as int),
        decreases bytes@.len() - i,
    {
        out.push(bytes[i]);
        assert(out@ =~= old(out)@ + bytes@.take(i as int + 1));
        i += 1;
    }
    assert(bytes@.take(bytes@.len() as int) =~= bytes@);
}

} // verus!
