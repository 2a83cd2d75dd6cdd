use crate::bytes::{array_of, lemma_array_of};
use crate::distance::{
    lemma_value_zero, lemma_xor_self_zero, lemma_xor_symmetric, lemma_xor_zero_same, xor_bytes,
    Distance,
};
use crate::text::{digit_char, digit_value, hex_char, hex_value, push_char};
use rand::Rng;
use sha1::{Digest, Sha1};
use vstd::prelude::*;
use vstd::string::StrSliceExecFns;
use vstd::utf8::encode_utf8;

verus! {

/// The SHA-1 digest of a byte string: twenty bytes.
pub uninterp spec fn sha1_digest(data: Seq<u8>) -> Seq<u8>;

/// The bytes an identifier is read from: the first twenty of `bytes`, with
/// zeros behind them where `bytes` has fewer.
pub open spec fn padded_prefix(bytes: Seq<u8>) -> Seq<u8> {
    Seq::new(
        20,
        |i: int|
            if i < bytes.len() {
                bytes[i]
            } else {
                0u8
            },
    )
}

/// An identifier written out: two lower-case hexadecimal digits for each
/// byte, the first byte first.
pub open spec fn hex_of(id: Seq<u8>) -> Seq<char> {
    Seq::new(
        2 * id.len(),
        |i: int|
            hex_char(
                if i % 2 == 0 {
                    id[i / 2] / 16
                } else {
                    id[i / 2] % 16
                },
            ),
    )
}

/// True when `text` is an identifier written out: forty hexadecimal
/// digits.
pub open spec fn is_hex(text: Seq<char>) -> bool {
    text.len() == 40 && forall|i: int| 0 <= i < 40 ==> hex_value(#[trigger] text[i]) is Some
}

/// The bytes that forty hexadecimal digits denote.
pub open spec fn unhex(text: Seq<char>) -> Seq<u8> {
    Seq::new(
        20,
        |i: int| (hex_value(text[2 * i]).unwrap() * 16 + hex_value(text[2 * i + 1]).unwrap()) as u8,
    )
}

/// An identifier written out and read back is the same identifier.
pub proof fn lemma_hex_round_trip(id: SHA)
    ensures
        is_hex(hex_of(id@)),
        unhex(hex_of(id@)) == id@,
{
    broadcast use vstd::array::array_len_matches_n;

    let text = hex_of(id@);
    assert forall|i: int| 0 <= i < 40 implies hex_value(#[trigger] text[i]) is Some by {}
    assert forall|i: int| 0 <= i < 20 implies unhex(text)[i] == id@[i] by {
        let b = id@[i];
        assert(text[2 * i] == hex_char(b / 16));
        assert(text[2 * i + 1] == hex_char(b % 16));
        assert(hex_value(hex_char(b / 16)) == Some((b / 16) as u8));
        assert(hex_value(hex_char(b % 16)) == Some((b % 16) as u8));
    }
    assert(unhex(text) =~= id@);
}

/// Calls `sha1::Sha1::digest` (the `Digest` trait's one-shot method) on
/// `data`. Trusted: the twenty bytes that come back are the SHA-1 digest
/// of `data`, a function of `data` alone.
#[verifier::external_body]
fn sha1_of(data: &[u8]) -> (out: [u8; 20])
    ensures
        out@ == sha1_digest(data@),
{
    let digest = Sha1::digest(data);
    let mut out = [0u8; 20];
    out.copy_from_slice(&digest);
    out
}

/// Fills twenty bytes from `rand::rng()` with `Rng::fill`. Nothing is
/// claimed of the bytes: they differ from call to call.
#[verifier::external_body]
fn random_id_bytes() -> (out: [u8; 20]) {
    let mut rng = rand::rng();
    let mut out = [0u8; 20];
    rng.fill(&mut out);
    out
}

/// A 160-bit identifier of a node or of a key, most significant byte first.
#[derive(Copy, Clone, Debug, Eq, PartialOrd, Ord, Hash)]
pub struct SHA(pub [u8; 20]);

impl View for SHA {
    type V = Seq<u8>;

    open spec fn view(&self) -> Seq<u8> {
        self.0@
    }
}

impl PartialEq for SHA {
    fn eq(&self, other: &SHA) -> (r: bool) {
        let mut i: usize = 0;
        while i < 20
            invariant
                i <= 20,
                forall|j: int| 0 <= j < i ==> self@[j] == other@[j],
            decreases 20 - i,
        {
            if self.0[i] != other.0[i] {
                return false;
            }
            i += 1;
        }
        assert(self@ =~= other@);
        true
    }
}

impl vstd::std_specs::cmp::PartialEqSpecImpl for SHA {
    open spec fn obeys_eq_spec() -> bool {
        true
    }

    open spec fn eq_spec(&self, other: &SHA) -> bool {
        self@ == other@
    }
}

impl core::ops::BitXor for SHA {
    type Output = Distance;

    fn bitxor(self, rhs: SHA) -> (d: Distance) {
        let d = Distance::new(&self, &rhs);
        proof {
            lemma_distance_to(self, rhs);
        }
        d
    }
}

impl vstd::std_specs::ops::BitXorSpecImpl for SHA {
    open spec fn obeys_bitxor_spec() -> bool {
        true
    }

    open spec fn bitxor_req(self, rhs: SHA) -> bool {
        true
    }

    open spec fn bitxor_spec(self, rhs: SHA) -> Distance {
        self.distance_to(rhs)
    }
}

impl SHA {
    /// The distance between this identifier and `other`.
    pub open spec fn distance_to(self, other: SHA) -> Distance {
        Distance(array_of::<20>(xor_bytes(self@, other@)))
    }

    /// A fresh random identifier, for a node that starts for the first time.
    pub fn generate() -> (id: SHA) {
        SHA(random_id_bytes())
    }

    /// Reads an identifier from the bytes of `id`: its first twenty bytes,
    /// padded with zeros where it is shorter.
    pub fn from_string(id: &str) -> (out: SHA)
        ensures
            out@ == padded_prefix(encode_utf8(id@)),
    {
        let bytes = id.as_bytes();
        let mut array = [0u8; 20];
        let mut i: usize = 0;
        while i < 20 && i < bytes.len()
            invariant
                i <= 20,
                i <= bytes@.len(),
                bytes@ == encode_utf8(id@),
                forall|j: int| 0 <= j < i ==> array@[j] == bytes@[j],
                forall|j: int| i <= j < 20 ==> array@[j] == 0,
            decreases 20 - i,
        {
            array[i] = bytes[i];
            i += 1;
        }
        assert(array@ =~= padded_prefix(encode_utf8(id@)));
        SHA(array)
    }

    /// The identifier written out as forty lower-case hexadecimal digits.
    pub fn to_hex(&self) -> (text: String)
        ensures
            text@ == hex_of(self@),
    {
        let mut text = String::new();
        let mut i: usize = 0;
        while i < 20
            invariant
                i <= 20,
                text@ == hex_of(self@).take(2 * i as int),
            decreases 20 - i,
        {
            let b = self.0[i];
            push_char(&mut text, digit_char(b / 16));
            push_char(&mut text, digit_char(b % 16));
            assert(text@ =~= hex_of(self@).take(2 * (i + 1) as int));
            i += 1;
        }
        assert(hex_of(self@).take(40) =~= hex_of(self@));
        text
    }

    /// Reads an identifier that is written out as forty hexadecimal digits
    /// of either case; anything else is refused.
    pub fn from_hex(text: &str) -> (r: Option<SHA>)
        ensures
            r is Some <==> is_hex(text@),
            r matches Some(id) ==> id@ == unhex(text@),
    {
        if text.unicode_len() != 40 {
            return None;
        }
        let mut array = [0u8; 20];
        let mut i: usize = 0;
        while i < 20
            invariant
                i <= 20,
                text@.len() == 40,
                forall|j: int| 0 <= j < 2 * i ==> hex_value(#[trigger] text@[j]) is Some,
                forall|j: int| 0 <= j < i ==> array@[j] == unhex(text@)[j],
            decreases 20 - i,
        {
            let high = digit_value(text.get_char(2 * i));
            let low = digit_value(text.get_char(2 * i + 1));
            match (high, low) {
                (Some(h), Some(l)) => {
                    array[i] = h * 16 + l;
                },
                _ => {
                    return None;
                },
            }
            i += 1;
        }
        assert(array@ =~= unhex(text@));
        Some(SHA(array))
    }

    /// The identifier of a key given as bytes: its SHA-1 digest.
    pub fn hash(key: &[u8]) -> (out: SHA)
        ensures
            out@ == sha1_digest(key@),
    {
        SHA(sha1_of(key))
    }

    /// The identifier of a key given as text: the SHA-1 digest of its UTF-8
    /// bytes.
    pub fn hash_string(key: &String) -> (out: SHA)
        ensures
            out@ == sha1_digest(encode_utf8(key@)),
    {
        SHA(sha1_of(key.as_str().as_bytes()))
    }
}

/// The distance between two identifiers is their bytewise exclusive or,
/// and the only distance with those bytes.
pub proof fn lemma_distance_to(a: SHA, b: SHA)
    ensures
        a.distance_to(b)@ == xor_bytes(a@, b@),
        forall|d: Distance| d@ == xor_bytes(a@, b@) ==> d == a.distance_to(b),
{
    lemma_array_of::<20>(xor_bytes(a@, b@));
}

/// The metric is symmetric, and every identifier is at distance zero from
/// itself and from no other.
pub proof fn lemma_distance_laws(a: SHA, b: SHA)
    ensures
        a.distance_to(b) == b.distance_to(a),
        a.distance_to(a).value() == 0,
        a.distance_to(b).value() == 0 <==> a == b,
{
    broadcast use vstd::array::array_len_matches_n;

    lemma_distance_to(a, b);
    lemma_distance_to(b, a);
    lemma_distance_to(a, a);
    lemma_xor_symmetric(a@, b@);
    lemma_xor_self_zero(a@);
    lemma_value_zero(xor_bytes(a@, b@));
    if a.distance_to(b).value() == 0 {
        lemma_xor_zero_same(a@, b@);
        assert(a.0 =~= b.0);
    }
}

} // verus!
