use vstd::prelude::*;
use vstd::string::StrSliceExecFns;
use crate::constants::utils::{decimal_chars, digit_char};
use crate::network::key::Key;
use crate::network::node::address_chars;
use crate::network::rpc::Rpc;

verus! {

/// Whether a datagram asks, answers, or stops the receiving service.
#[derive(Clone, Copy, Debug, PartialEq, Eq, Structural)]
pub enum DatagramType {
    REQUEST,
    RESPONSE,
    KILL,
}

/// A message on the wire: its kind, the token that pairs a request with its
/// response, the addresses `ip:port` of both ends, and the payload.
#[derive(Clone, Debug)]
pub struct Datagram {
    pub data_type: DatagramType,
    pub token_id: Key,
    pub source: String,
    pub destination: String,
    pub data: Rpc,
}

/// Whether `c` is an ASCII decimal digit.
pub open spec fn is_digit(c: char) -> bool {
    '0' <= c && c <= '9'
}

/// The value of a string of decimal digits.
pub open spec fn digits_value(s: Seq<char>) -> nat
    decreases s.len(),
{
    if s.len() == 0 {
        0
    } else {
        digits_value(s.drop_last()) * 10 + (s.last() as nat - 48) as nat
    }
}

/// A port number: one or more decimal digits whose value fits in `u16`.
pub open spec fn spec_parse_port(s: Seq<char>) -> Option<u16> {
    if s.len() > 0 && (forall|i: int| 0 <= i < s.len() ==> is_digit(#[trigger] s[i]))
        && digits_value(s) <= u16::MAX {
        Some(digits_value(s) as u16)
    } else {
        None
    }
}

/// The position of the last `:` in `s`, if there is one.
pub open spec fn last_colon(s: Seq<char>) -> Option<int>
    decreases s.len(),
{
    if s.len() == 0 {
        None
    } else if s.last() == ':' {
        Some(s.len() - 1)
    } else {
        last_colon(s.drop_last())
    }
}

/// The host and port of an address `host:port`, split at its last `:`.
pub open spec fn spec_split_address(s: Seq<char>) -> Option<(Seq<char>, u16)> {
    match last_colon(s) {
        Some(i) => match spec_parse_port(s.subrange(i + 1, s.len() as int)) {
            Some(port) => Some((s.subrange(0, i), port)),
            None => None,
        },
        None => None,
    }
}

proof fn lemma_last_colon_at(s: Seq<char>, k: int)
    requires
        0 <= k < s.len(),
        s[k] == ':',
        forall|j: int| k < j < s.len() ==> s[j] != ':',
    ensures
        last_colon(s) == Some(k),
    decreases s.len(),
{
    if k < s.len() - 1 {
        lemma_last_colon_at(s.drop_last(), k);
    }
}

proof fn lemma_last_colon_prefix(s: Seq<char>, i: int)
    requires
        0 <= i <= s.len(),
        forall|j: int| i <= j < s.len() ==> s[j] != ':',
    ensures
        last_colon(s) == last_colon(s.subrange(0, i)),
    decreases s.len() - i,
{
    if i < s.len() {
        lemma_last_colon_prefix(s, i + 1);
        assert(s.subrange(0, i + 1).drop_last() =~= s.subrange(0, i));
    } else {
        assert(s.subrange(0, i) =~= s);
    }
}

proof fn lemma_digits_value_prefix_le(s: Seq<char>, k: int)
    requires
        0 <= k <= s.len(),
    ensures
        digits_value(s.subrange(0, k)) <= digits_value(s),
    decreases s.len() - k,
{
    if k < s.len() {
        lemma_digits_value_prefix_le(s, k + 1);
        assert(s.subrange(0, k + 1).drop_last() =~= s.subrange(0, k));
    } else {
        assert(s.subrange(0, k) =~= s);
    }
}

proof fn lemma_digit_char_value(d: nat)
    requires
        d < 10,
    ensures
        digit_char(d) as nat == d + 48,
        is_digit(digit_char(d)),
{
}

/// The decimal notation of `n` is all digits and has value `n`.
proof fn lemma_decimal_digits(n: nat)
    ensures
        decimal_chars(n).len() > 0,
        forall|i: int| 0 <= i < decimal_chars(n).len() ==> is_digit(#[trigger] decimal_chars(n)[i]),
        digits_value(decimal_chars(n)) == n,
    decreases n,
{
    if n < 10 {
        assert(decimal_chars(n).drop_last() =~= Seq::<char>::empty());
        assert(digits_value(Seq::<char>::empty()) == 0);
        lemma_digit_char_value(n);
    } else {
        lemma_decimal_digits(n / 10);
        let p = decimal_chars(n / 10);
        assert(decimal_chars(n).drop_last() =~= p);
        assert(decimal_chars(n).last() == digit_char(n % 10));
        lemma_digit_char_value(n % 10);
        assert(digits_value(decimal_chars(n)) == digits_value(p) * 10 + (n % 10));
        assert((n / 10) * 10 + n % 10 == n);
    }
}

/// Splitting the address that a node announces gives back its host and port.
pub proof fn lemma_split_address_round_trip(ip: Seq<char>, port: u16)
    ensures
        spec_split_address(address_chars(ip, port)) == Some((ip, port)),
{
    let s = address_chars(ip, port);
    let d = decimal_chars(port as nat);
    lemma_decimal_digits(port as nat);
    assert forall|j: int| ip.len() < j < s.len() implies s[j] != ':' by {
        assert(s[j] == d[j - ip.len() - 1]);
        assert(is_digit(d[j - ip.len() - 1]));
    }
    lemma_last_colon_at(s, ip.len() as int);
    assert(s.subrange(ip.len() as int + 1, s.len() as int) =~= d);
    assert(s.subrange(0, ip.len() as int) =~= ip);
}

impl Datagram {
    /// The host and port of this datagram's source address: the text before
    /// and after its last `:`. `None` where there is no `:`, or what follows
    /// the last one is not a decimal number that fits in `u16`.
    pub fn extract_src_ip_port(&self) -> (res: Option<(String, u16)>)
        ensures
            match spec_split_address(self.source@) {
                Some((ip, port)) => res matches Some((r_ip, r_port)) && r_ip@ == ip && r_port
                    == port,
                None => res is None,
            },
    {
        let s = self.source.as_str();
        let len = s.unicode_len();
        let mut i = len;
        while i > 0
            invariant
                i <= len,
                len == s@.len(),
                s@ == self.source@,
                forall|j: int| i <= j < len ==> s@[j] != ':',
            ensures
                i == 0 || s@[i - 1] == ':',
            decreases i,
        {
            if s.get_char(i - 1) == ':' {
                break;
            }
            i = i - 1;
        }
        if i == 0 {
            proof {
                lemma_last_colon_prefix(s@, 0);
            }
            return None;
        }
        let colon = i - 1;
        proof {
            lemma_last_colon_at(s@, colon as int);
        }
        let ghost tail = s@.subrange(colon + 1, len as int);
        if colon + 1 == len {
            return None;
        }
        let mut value: u32 = 0;
        let mut k = colon + 1;
        while k < len
            invariant
                colon + 1 <= k <= len,
                len == s@.len(),
                tail == s@.subrange(colon + 1, len as int),
                s@ == self.source@,
                last_colon(s@) == Some(colon as int),
                forall|j: int| colon + 1 <= j < k ==> is_digit(#[trigger] s@[j]),
                value == digits_value(s@.subrange(colon + 1, k as int)),
                value <= u16::MAX,
            decreases len - k,
        {
            let c = s.get_char(k);
            if !('0' <= c && c <= '9') {
                assert(tail[k - colon - 1] == c);
                assert(!is_digit(tail[k - colon - 1]));
                return None;
            }
            let next: u32 = value * 10 + (c as u32 - 48);
            assert(s@.subrange(colon + 1, k + 1).drop_last() =~= s@.subrange(colon + 1, k as int));
            if next > 65535 {
                proof {
                    lemma_digits_value_prefix_le(tail, k + 1 - colon - 1);
                    assert(tail.subrange(0, k + 1 - colon - 1) =~= s@.subrange(colon + 1, k + 1));
                }
                return None;
            }
            value = next;
            k = k + 1;
        }
        assert(s@.subrange(colon + 1, k as int) =~= tail);
        let ip = s.substring_char(0, colon).to_owned();
        Some((ip, value as u16))
    }
}

} // verus!
