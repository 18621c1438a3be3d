//! The text forms that capability state takes inside a token: escaped
//! strings, hexadecimal digests, decimal block numbers, network policies and
//! the Datalog facts built from them.

use vstd::prelude::*;
use crate::manifest::NetworkPolicy;
use crate::text::{chars_of, string_of};

verus! {

/// The facts a decoded token must carry.
#[derive(Clone, Copy, Debug, PartialEq, Eq, Structural)]
pub enum FactName {
    TaskId,
    ExpiresAt,
    Network,
    BindingArgHash,
    BindingNonce,
}

impl FactName {
    /// The predicate name of the fact.
    pub fn as_str(&self) -> (r: &'static str)
        ensures
            r@ == fact_name_text(*self),
    {
        match self {
            FactName::TaskId => "task_id",
            FactName::ExpiresAt => "expires_at",
            FactName::Network => "network",
            FactName::BindingArgHash => "binding_arg_hash",
            FactName::BindingNonce => "binding_nonce",
        }
    }
}

/// Why token state could not be written or read back.
#[derive(Debug, PartialEq, Eq)]
pub enum CodecError {
    /// The token library refused; its message.
    Biscuit(String),
    /// A required fact is absent from the token.
    MissingFact(FactName),
    /// A fact holds a value that does not parse.
    InvalidValue(FactName),
}

/// The escaped form of one character inside a quoted Datalog string.
pub open spec fn escaped_char(c: char) -> Seq<char> {
    if c == '\\' {
        seq!['\\', '\\']
    } else if c == '"' {
        seq!['\\', '"']
    } else {
        seq![c]
    }
}

/// `s` with every backslash and double quote preceded by a backslash.
pub open spec fn escaped(s: Seq<char>) -> Seq<char>
    decreases s.len(),
{
    if s.len() == 0 {
        Seq::empty()
    } else {
        escaped(s.drop_last()) + escaped_char(s.last())
    }
}

/// Appends the escaped form of `s` to `out`.
pub fn push_escaped(out: &mut Vec<char>, s: &str)
    ensures
        final(out)@ == old(out)@ + escaped(s@),
{
    let cs = chars_of(s);
    let mut i: usize = 0;
    while i < cs.len()
        invariant
            i <= cs@.len(),
            cs@ == s@,
            out@ == old(out)@ + escaped(cs@.subrange(0, i as int)),
        decreases cs@.len() - i,
    {
        let c = cs[i];
        if c == '\\' {
            out.push('\\');
            out.push('\\');
        } else if c == '"' {
            out.push('\\');
            out.push('"');
        } else {
            out.push(c);
        }
        proof {
            let next = cs@.subrange(0, i + 1);
            assert(next.drop_last() =~= cs@.subrange(0, i as int));
            assert(next.last() == c);
            assert(out@ =~= old(out)@ + escaped(next));
        }
        i = i + 1;
    }
    assert(cs@.subrange(0, cs@.len() as int) =~= cs@);
}

/// `s` escaped for use inside a quoted Datalog string.
pub fn escape(s: &str) -> (r: String)
    ensures
        r@ == escaped(s@),
{
    let mut out: Vec<char> = Vec::new();
    push_escaped(&mut out, s);
    assert(out@ =~= escaped(s@));
    string_of(&out)
}

/// The text that names a network policy in a token.
pub open spec fn network_text(policy: NetworkPolicy) -> Seq<char> {
    match policy {
        NetworkPolicy::DenyAll => "deny_all"@,
    }
}

/// The network policy a token text names, if any.
pub open spec fn network_parsed(s: Seq<char>) -> Option<NetworkPolicy> {
    if s == network_text(NetworkPolicy::DenyAll) {
        Some(NetworkPolicy::DenyAll)
    } else {
        None
    }
}

/// The text that names `policy` in a token.
pub fn network_to_str(policy: NetworkPolicy) -> (r: &'static str)
    ensures
        r@ == network_text(policy),
{
    match policy {
        NetworkPolicy::DenyAll => "deny_all",
    }
}

/// The network policy named by `s`, or `InvalidValue` for any other text.
pub fn parse_network(s: &str) -> (r: Result<NetworkPolicy, CodecError>)
    ensures
        r == match network_parsed(s@) {
            Some(p) => Ok::<NetworkPolicy, CodecError>(p),
            None => Err(CodecError::InvalidValue(FactName::Network)),
        },
{
    if crate::text::str_eq(s, "deny_all") {
        Ok(NetworkPolicy::DenyAll)
    } else {
        Err(CodecError::InvalidValue(FactName::Network))
    }
}

/// Every policy reads back from the text that names it.
pub proof fn lemma_network_round_trip(policy: NetworkPolicy)
    ensures
        network_parsed(network_text(policy)) == Some(policy),
{
}

/// The lowercase hexadecimal digit for `d` (below sixteen).
pub open spec fn hex_digit(d: nat) -> char {
    if d < 10 {
        (48 + d) as char
    } else {
        (87 + d) as char
    }
}

/// The two lowercase hexadecimal digits of a byte.
pub open spec fn hex_pair(b: u8) -> Seq<char> {
    seq![hex_digit((b / 16) as nat), hex_digit((b % 16) as nat)]
}

/// The lowercase hexadecimal text of `b`, two digits per byte.
pub open spec fn hex_text(b: Seq<u8>) -> Seq<char>
    decreases b.len(),
{
    if b.len() == 0 {
        Seq::empty()
    } else {
        hex_text(b.drop_last()) + hex_pair(b.last())
    }
}

/// The lowercase hexadecimal digit for `d`.
fn hex_digit_char(d: u8) -> (r: char)
    requires
        d < 16,
    ensures
        r == hex_digit(d as nat),
{
    if d < 10 {
        ((48 + d) as char)
    } else {
        ((87 + d) as char)
    }
}

/// Appends the hexadecimal text of `bytes` to `out`.
pub fn push_hex(out: &mut Vec<char>, bytes: &[u8])
    ensures
        final(out)@ == old(out)@ + hex_text(bytes@),
{
    let mut i: usize = 0;
    while i < bytes.len()
        invariant
            i <= bytes@.len(),
            out@ == old(out)@ + hex_text(bytes@.subrange(0, i as int)),
        decreases bytes@.len() - i,
    {
        let b = bytes[i];
        out.push(hex_digit_char(b / 16));
        out.push(hex_digit_char(b % 16));
        proof {
            let next = bytes@.subrange(0, i + 1);
            assert(next.drop_last() =~= bytes@.subrange(0, i as int));
            assert(next.last() == b);
            assert(out@ =~= old(out)@ + hex_text(next));
        }
        i = i + 1;
    }
    assert(bytes@.subrange(0, bytes@.len() as int) =~= bytes@);
}

/// The lowercase hexadecimal text of `bytes`.
pub fn encode_hex(bytes: &[u8]) -> (r: String)
    ensures
        r@ == hex_text(bytes@),
{
    let mut out: Vec<char> = Vec::new();
    push_hex(&mut out, bytes);
    assert(out@ =~= hex_text(bytes@));
    string_of(&out)
}

/// The value of a hexadecimal digit of either case.
pub open spec fn hex_value(c: char) -> Option<nat> {
    let v = c as u32;
    if 48 <= v <= 57 {
        Some((v - 48) as nat)
    } else if 97 <= v <= 102 {
        Some((v - 87) as nat)
    } else if 65 <= v <= 70 {
        Some((v - 55) as nat)
    } else {
        None
    }
}

/// The 32 bytes that 64 hexadecimal digits spell, or `None` for any other
/// text.
pub open spec fn hex32_decoded(s: Seq<char>) -> Option<Seq<u8>> {
    if s.len() == 64 && forall|i: int| 0 <= i < 64 ==> #[trigger] hex_value(s[i]) is Some {
        Some(Seq::new(32, |i: int| (hex_value(s[2 * i])->0 * 16 + hex_value(s[2 * i + 1])->0) as u8))
    } else {
        None
    }
}

/// The value of the hexadecimal digit `c`, if it is one.
fn hex_digit_value(c: char) -> (r: Option<u8>)
    ensures
        r == match hex_value(c) {
            Some(v) => Some(v as u8),
            None => None::<u8>,
        },
        r matches Some(v) ==> v < 16,
{
    let v = c as u32;
    if 48 <= v && v <= 57 {
        Some((v - 48) as u8)
    } else if 97 <= v && v <= 102 {
        Some((v - 87) as u8)
    } else if 65 <= v && v <= 70 {
        Some((v - 55) as u8)
    } else {
        None
    }
}

/// The 32 bytes spelled by 64 hexadecimal digits, or `None`.
pub fn decode_hex32(s: &str) -> (r: Option<[u8; 32]>)
    ensures
        match r {
            Some(a) => hex32_decoded(s@) == Some(a@),
            None => hex32_decoded(s@) is None,
        },
{
    let cs = chars_of(s);
    if cs.len() != 64 {
        return None;
    }
    let mut out = [0u8; 32];
    let mut i: usize = 0;
    while i < 32
        invariant
            i <= 32,
            cs@ == s@,
            cs@.len() == 64,
            forall|k: int| 0 <= k < 2 * i ==> #[trigger] hex_value(cs@[k]) is Some,
            forall|k: int|
                0 <= k < i ==> out@[k] == (hex_value(cs@[2 * k])->0 * 16 + hex_value(
                    cs@[2 * k + 1],
                )->0) as u8,
        decreases 32 - i,
    {
        let hi = match hex_digit_value(cs[2 * i]) {
            Some(v) => v,
            None => return None,
        };
        let lo = match hex_digit_value(cs[2 * i + 1]) {
            Some(v) => v,
            None => return None,
        };
        out[i] = hi * 16 + lo;
        i = i + 1;
    }
    assert(hex32_decoded(s@) == Some(out@)) by {
        assert(Seq::new(
            32,
            |i: int| (hex_value(s@[2 * i])->0 * 16 + hex_value(s@[2 * i + 1])->0) as u8,
        ) =~= out@);
    }
    Some(out)
}

/// The hexadecimal text of every 32 bytes decodes back to them.
pub proof fn lemma_hex32_round_trip(b: Seq<u8>)
    requires
        b.len() == 32,
    ensures
        hex32_decoded(hex_text(b)) == Some(b),
{
    lemma_hex_text_digits(b);
    let s = hex_text(b);
    assert forall|i: int| 0 <= i < 64 implies #[trigger] hex_value(s[i]) is Some by {
        if i % 2 == 0 {
            assert(s[2 * (i / 2)] == hex_digit((b[i / 2] / 16) as nat));
        } else {
            assert(s[2 * (i / 2) + 1] == hex_digit((b[i / 2] % 16) as nat));
        }
    }
    assert(Seq::new(32, |i: int| (hex_value(s[2 * i])->0 * 16 + hex_value(s[2 * i + 1])->0) as u8)
        =~= b);
}

/// The digits of the hexadecimal text of `b`, pair by pair.
proof fn lemma_hex_text_digits(b: Seq<u8>)
    ensures
        hex_text(b).len() == 2 * b.len(),
        forall|i: int|
            0 <= i < b.len() ==> hex_text(b)[2 * i] == hex_digit((b[i] / 16) as nat) && hex_text(
                b,
            )[2 * i + 1] == hex_digit((b[i] % 16) as nat),
        forall|i: int|
            0 <= i < b.len() ==> hex_value(#[trigger] hex_digit((b[i] / 16) as nat)) == Some(
                (b[i] / 16) as nat,
            ) && hex_value(hex_digit((b[i] % 16) as nat)) == Some((b[i] % 16) as nat),
    decreases b.len(),
{
    if b.len() > 0 {
        lemma_hex_text_digits(b.drop_last());
        assert forall|i: int| 0 <= i < b.len() implies hex_text(b)[2 * i] == hex_digit(
            (b[i] / 16) as nat,
        ) && hex_text(b)[2 * i + 1] == hex_digit((b[i] % 16) as nat) by {
            if i < b.len() - 1 {
                assert(b.drop_last()[i] == b[i]);
            }
        }
    }
}

/// The decimal digits of `n`, most significant first.
pub open spec fn decimal_text(n: nat) -> Seq<char>
    decreases n,
{
    if n < 10 {
        seq![hex_digit(n)]
    } else {
        decimal_text(n / 10).push(hex_digit(n % 10))
    }
}

/// Appends the decimal digits of `n` to `out`.
pub fn push_decimal(out: &mut Vec<char>, n: u64)
    ensures
        final(out)@ == old(out)@ + decimal_text(n as nat),
    decreases n,
{
    if n >= 10 {
        push_decimal(out, n / 10);
    }
    out.push(hex_digit_char((n % 10) as u8));
    assert(out@ =~= old(out)@ + decimal_text(n as nat)) by {
        if n >= 10 {
            assert(decimal_text(n as nat) == decimal_text((n / 10) as nat).push(hex_digit((n % 10) as nat)));
        }
    }
}

/// The message that describes a codec error.
pub open spec fn codec_error_text(e: CodecError) -> Seq<char> {
    match e {
        CodecError::Biscuit(m) => "biscuit error: "@ + m@,
        CodecError::MissingFact(f) => "biscuit token is missing required fact: "@ + fact_name_text(f),
        CodecError::InvalidValue(f) => "biscuit fact has unparseable value: "@ + fact_name_text(f),
    }
}

impl CodecError {
    /// The message that describes this error.
    pub fn message(&self) -> (r: String)
        ensures
            r@ == codec_error_text(*self),
    {
        match self {
            CodecError::Biscuit(m) => crate::text::concat("biscuit error: ", m.as_str()),
            CodecError::MissingFact(f) => crate::text::concat(
                "biscuit token is missing required fact: ",
                f.as_str(),
            ),
            CodecError::InvalidValue(f) => crate::text::concat(
                "biscuit fact has unparseable value: ",
                f.as_str(),
            ),
        }
    }
}

/// The predicate name of a fact.
pub open spec fn fact_name_text(f: FactName) -> Seq<char> {
    match f {
        FactName::TaskId => "task_id"@,
        FactName::ExpiresAt => "expires_at"@,
        FactName::Network => "network"@,
        FactName::BindingArgHash => "binding_arg_hash"@,
        FactName::BindingNonce => "binding_nonce"@,
    }
}

} // verus!
