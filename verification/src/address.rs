use crate::text::push_char;
use vstd::prelude::*;
use vstd::string::{StrSliceExecFns, StringExecFns};

verus! {

/// True for the ten decimal digits.
pub open spec fn is_digit(c: char) -> bool {
    '0' <= c && c <= '9'
}

/// The number that a non-empty run of decimal digits denotes.
pub open spec fn decimal_value(digits: Seq<char>) -> Option<nat>
    decreases digits.len(),
{
    if digits.len() == 0 || !is_digit(digits.last()) {
        None
    } else if digits.len() == 1 {
        Some((digits.last() as u32 - 48) as nat)
    } else {
        match decimal_value(digits.drop_last()) {
            Some(v) => Some(v * 10 + (digits.last() as u32 - 48) as nat),
            None => None,
        }
    }
}

/// A number written in decimal, without leading zeros.
pub open spec fn decimal_of(n: nat) -> Seq<char>
    decreases n,
{
    if n < 10 {
        seq![(48 + n) as char]
    } else {
        decimal_of(n / 10).push((48 + n % 10) as char)
    }
}

/// The port that a text denotes: a decimal number up to 65535.
pub open spec fn port_of(text: Seq<char>) -> Option<u16> {
    match decimal_value(text) {
        Some(v) => if v <= 65535 {
            Some(v as u16)
        } else {
            None
        },
        None => None,
    }
}

/// Index of the last colon of `s`, or -1 where it has none.
pub open spec fn last_colon(s: Seq<char>) -> int
    decreases s.len(),
{
    if s.len() == 0 {
        -1
    } else if s.last() == ':' {
        s.len() - 1
    } else {
        last_colon(s.drop_last())
    }
}

/// The host and the port of an address written as `host:port`. The port is
/// what stands behind the last colon.
pub open spec fn address_of(s: Seq<char>) -> Option<(Seq<char>, u16)> {
    let k = last_colon(s);
    if k < 0 {
        None
    } else {
        match port_of(s.skip(k + 1)) {
            Some(port) => Some((s.take(k), port)),
            None => None,
        }
    }
}

/// An address written out: the host, a colon, the port in decimal.
pub open spec fn joined(host: Seq<char>, port: u16) -> Seq<char> {
    host + seq![':'] + decimal_of(port as nat)
}

/// `last_colon` points at a colon that no colon follows.
pub proof fn lemma_last_colon(s: Seq<char>)
    ensures
        -1 <= last_colon(s) < s.len(),
        last_colon(s) >= 0 ==> s[last_colon(s)] == ':',
        forall|j: int| last_colon(s) < j < s.len() ==> s[j] != ':',
    decreases s.len(),
{
    if s.len() > 0 && s.last() != ':' {
        let t = s.drop_last();
        lemma_last_colon(t);
        assert forall|j: int| last_colon(s) < j < s.len() implies s[j] != ':' by {
            if j < t.len() {
                assert(t[j] != ':');
            }
        }
    }
}

/// A text whose start is no number is no number.
pub proof fn lemma_decimal_prefix(s: Seq<char>, i: int)
    requires
        1 <= i <= s.len(),
    ensures
        decimal_value(s.take(i)) is None ==> decimal_value(s) is None,
        decimal_value(s) matches Some(v) ==> decimal_value(s.take(i)).unwrap() <= v,
    decreases s.len() - i,
{
    if i < s.len() {
        assert(s.drop_last().take(i) =~= s.take(i));
        lemma_decimal_prefix(s.drop_last(), i);
    } else {
        assert(s.take(i) =~= s);
    }
}

/// A number written in decimal consists of digits only and reads back as
/// the number.
pub proof fn lemma_decimal_round_trip(n: nat)
    ensures
        decimal_value(decimal_of(n)) == Some(n),
        forall|j: int| 0 <= j < decimal_of(n).len() ==> is_digit(#[trigger] decimal_of(n)[j]),
        decimal_of(n).len() >= 1,
    decreases n,
{
    if n >= 10 {
        lemma_decimal_round_trip(n / 10);
        let s = decimal_of(n);
        assert(s.drop_last() =~= decimal_of(n / 10));
    }
}

/// An address written out from a host and a port reads back as that host
/// and that port.
pub proof fn lemma_address_round_trip(host: Seq<char>, port: u16)
    ensures
        address_of(joined(host, port)) == Some((host, port)),
{
    let s = joined(host, port);
    let digits = decimal_of(port as nat);
    lemma_decimal_round_trip(port as nat);
    lemma_last_colon(s);
    let k = last_colon(s);
    assert(s[host.len() as int] == ':');
    assert(k == host.len()) by {
        if k > host.len() {
            assert(s[k] == digits[k - host.len() - 1]);
        }
    }
    assert(s.skip(k + 1) =~= digits);
    assert(s.take(k) =~= host);
}

/// Reads an address written as `host:port`: the host is what stands
/// before the last colon, the port the decimal number behind it.
pub fn parse_address(address: &str) -> (r: Option<(String, u16)>)
    ensures
        match address_of(address@) {
            Some((host, port)) => r matches Some((h, p)) && h@ == host && p == port,
            None => r is None,
        },
{
    let n = address.unicode_len();
    let mut k: usize = n;
    proof {
        assert(address@.take(n as int) =~= address@);
    }
    while k > 0 && address.get_char(k - 1) != ':'
        invariant
            k <= n,
            n == address@.len(),
            last_colon(address@) == last_colon(address@.take(k as int)),
        decreases k,
    {
        assert(address@.take(k as int).drop_last() =~= address@.take(k as int - 1));
        k -= 1;
    }
    if k == 0 {
        return None;
    }
    let colon = k - 1;
    assert(last_colon(address@) == colon);
    let ghost digits = address@.skip(k as int);
    let mut value: u32 = 0;
    let mut i: usize = k;
    while i < n
        invariant
            k <= i <= n,
            n == address@.len(),
            digits == address@.skip(k as int),
            k >= 1,
            last_colon(address@) == k - 1,
            value <= 65535,
            i == k ==> value == 0,
            i > k ==> decimal_value(digits.take(i - k)) == Some(value as nat),
        decreases n - i,
    {
        let c = address.get_char(i);
        let ghost seen = digits.take(i - k + 1);
        proof {
            assert(seen.last() == c);
            assert(seen.drop_last() =~= digits.take(i - k));
            lemma_decimal_prefix(digits, i - k + 1);
        }
        if !('0' <= c && c <= '9') {
            assert(decimal_value(seen) is None);
            return None;
        }
        let next = value * 10 + (c as u32 - 48);
        assert(decimal_value(seen) == Some(next as nat));
        if next > 65535 {
            return None;
        }
        value = next;
        i += 1;
    }
    if n == k {
        return None;
    }
    proof {
        assert(digits.take(n - k) =~= digits);
    }
    let host = String::from_str(address.substring_char(0, colon));
    Some((host, value as u16))
}

/// The digits of `n`, appended to `out`.
fn push_decimal(out: &mut String, n: u16)
    ensures
        final(out)@ == old(out)@ + decimal_of(n as nat),
    decreases n,
{
    if n < 10 {
        push_char(out, (48 + n as u8) as char);
        assert(final(out)@ =~= old(out)@ + decimal_of(n as nat));
    } else {
        push_decimal(out, n / 10);
        push_char(out, (48 + (n % 10) as u8) as char);
        assert(final(out)@ =~= old(out)@ + decimal_of(n as nat));
    }
}

/// The address of `host` and `port`, written as `host:port`.
pub fn join_address(host: &str, port: u16) -> (address: String)
    ensures
        address@ == joined(host@, port),
{
    let mut out = String::from_str(host);
    push_char(&mut out, ':');
    push_decimal(&mut out, port);
    assert(out@ =~= joined(host@, port));
    out
}

} // verus!
