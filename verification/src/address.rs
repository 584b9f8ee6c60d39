//! Chain account addresses and their hexadecimal text.
//!
//! An address is twenty bytes. Its canonical text is `0x` followed by forty
//! lower-case hexadecimal digits. Reading is more lenient than writing: the
//! prefix is optional, digits may be upper case, and blanks between digits are
//! skipped. Text is turned into bytes, and bytes into text, by `ethers`; the
//! two trusted functions at the end of this file say exactly what is relied on.

use std::str::FromStr;
use vstd::prelude::*;
use vstd::std_specs::cmp::PartialEqSpecImpl;

verus! {

/// A chain account address: twenty bytes, most significant first.
#[derive(Debug, Clone, Copy, Eq, Hash)]
pub struct Address {
    pub bytes: [u8; 20],
}

impl View for Address {
    type V = Seq<u8>;

    open spec fn view(&self) -> Seq<u8> {
        self.bytes@
    }
}

impl PartialEq for Address {
    fn eq(&self, other: &Address) -> (same: bool) {
        let mut i: usize = 0;
        while i < 20
            invariant
                i <= 20,
                forall|k: int| 0 <= k < i ==> self.bytes[k] == other.bytes[k],
            decreases 20 - i,
        {
            if self.bytes[i] != other.bytes[i] {
                return false;
            }
            i = i + 1;
        }
        proof {
            assert(self.bytes =~= other.bytes);
        }
        true
    }
}

impl PartialEqSpecImpl for Address {
    open spec fn obeys_eq_spec() -> bool {
        true
    }

    open spec fn eq_spec(&self, other: &Address) -> bool {
        *self == *other
    }
}

/// The array that holds the first twenty bytes of `s`.
pub open spec fn bytes20(s: Seq<u8>) -> [u8; 20] {
    [
        s[0],
        s[1],
        s[2],
        s[3],
        s[4],
        s[5],
        s[6],
        s[7],
        s[8],
        s[9],
        s[10],
        s[11],
        s[12],
        s[13],
        s[14],
        s[15],
        s[16],
        s[17],
        s[18],
        s[19],
    ]
}

/// The lower-case hexadecimal digit for a value below sixteen.
pub open spec fn hex_digit(n: int) -> char {
    if n < 10 {
        (n + 48) as char
    } else {
        (n + 87) as char
    }
}

/// Two lower-case digits for every byte, high half first.
pub open spec fn hex_pairs(bytes: Seq<u8>) -> Seq<char>
    decreases bytes.len(),
{
    if bytes.len() == 0 {
        Seq::empty()
    } else {
        hex_pairs(bytes.drop_last()).push(hex_digit(bytes.last() as int / 16)).push(
            hex_digit(bytes.last() as int % 16),
        )
    }
}

/// The canonical text of a byte string: `0x`, then its digits.
pub open spec fn hex_text(bytes: Seq<u8>) -> Seq<char> {
    seq!['0', 'x'] + hex_pairs(bytes)
}

/// Characters that may stand between digits and are skipped.
pub open spec fn is_blank(c: char) -> bool {
    c == ' ' || c == '\r' || c == '\n' || c == '\t'
}

/// The value of a hexadecimal digit of either case.
pub open spec fn hex_value(c: char) -> Option<int> {
    if '0' <= c && c <= '9' {
        Some(c as int - 48)
    } else if 'a' <= c && c <= 'f' {
        Some(c as int - 87)
    } else if 'A' <= c && c <= 'F' {
        Some(c as int - 55)
    } else {
        None
    }
}

/// The digit values of `text` in order, blanks skipped; `None` if anything
/// else occurs in it.
pub open spec fn hex_nibbles(text: Seq<char>) -> Option<Seq<int>>
    decreases text.len(),
{
    if text.len() == 0 {
        Some(Seq::empty())
    } else {
        match hex_nibbles(text.drop_last()) {
            None => None,
            Some(before) => if is_blank(text.last()) {
                Some(before)
            } else {
                match hex_value(text.last()) {
                    Some(v) => Some(before.push(v)),
                    None => None,
                }
            },
        }
    }
}

/// `text` without one leading `0x`, if it has one.
pub open spec fn without_prefix(text: Seq<char>) -> Seq<char> {
    if text.len() >= 2 && text[0] == '0' && text[1] == 'x' {
        text.skip(2)
    } else {
        text
    }
}

/// The twenty bytes that `text` denotes: after the optional prefix, exactly
/// forty digits, two to a byte.
pub open spec fn parse_hex_bytes(text: Seq<char>) -> Option<Seq<u8>> {
    match hex_nibbles(without_prefix(text)) {
        Some(n) => if n.len() == 40 {
            Some(Seq::new(20, |i: int| (n[2 * i] * 16 + n[2 * i + 1]) as u8))
        } else {
            None
        },
        None => None,
    }
}

impl Address {
    /// The address made of the first twenty bytes of `s`.
    pub open spec fn from_seq(s: Seq<u8>) -> Address {
        Address { bytes: bytes20(s) }
    }

    /// The address that `text` denotes, if it denotes one.
    pub open spec fn spec_parse(text: Seq<char>) -> Option<Address> {
        match parse_hex_bytes(text) {
            Some(b) => Some(Address::from_seq(b)),
            None => None,
        }
    }

    /// The canonical text of the address.
    pub open spec fn spec_text(self) -> Seq<char> {
        hex_text(self@)
    }

    /// The address with the given bytes.
    pub fn new(bytes: [u8; 20]) -> (a: Address)
        ensures
            a.bytes == bytes,
    {
        Address { bytes }
    }

    /// The address whose bytes are all zero.
    pub fn zero() -> (a: Address)
        ensures
            a@ == Seq::new(20, |i: int| 0u8),
    {
        let a = Address { bytes: [0u8; 20] };
        assert(a@ =~= Seq::new(20, |i: int| 0u8));
        a
    }

    /// Reads an address from text.
    pub fn parse(text: &str) -> (r: Option<Address>)
        ensures
            r == Address::spec_parse(text@),
    {
        match h160_from_text(text) {
            Some(bytes) => {
                let a = Address { bytes };
                proof {
                    lemma_from_seq_view(a);
                }
                Some(a)
            },
            None => None,
        }
    }

    /// Writes the address as canonical text.
    pub fn to_text(&self) -> (text: String)
        ensures
            text@ == self.spec_text(),
    {
        h160_to_text(&self.bytes)
    }
}

/// Two addresses with the same bytes are the same address.
pub proof fn lemma_address_ext(a: Address, b: Address)
    requires
        a@ == b@,
    ensures
        a == b,
{
    assert(a.bytes =~= b.bytes);
}

/// The address built from the bytes of an address is that address.
pub proof fn lemma_from_seq_view(a: Address)
    ensures
        Address::from_seq(a@) == a,
{
    assert(bytes20(a@)@ =~= a@);
    lemma_address_ext(Address::from_seq(a@), a);
}

/// The digit values of a byte string, high half first.
pub open spec fn nibbles_of(bytes: Seq<u8>) -> Seq<int> {
    Seq::new(
        2 * bytes.len(),
        |j: int|
            if j % 2 == 0 {
                bytes[j / 2] as int / 16
            } else {
                bytes[j / 2] as int % 16
            },
    )
}

proof fn lemma_hex_digit_value(n: int)
    requires
        0 <= n < 16,
    ensures
        hex_value(hex_digit(n)) == Some(n),
        !is_blank(hex_digit(n)),
        hex_digit(n) != 'x',
{
}

proof fn lemma_hex_pairs_len(bytes: Seq<u8>)
    ensures
        hex_pairs(bytes).len() == 2 * bytes.len(),
    decreases bytes.len(),
{
    if bytes.len() > 0 {
        lemma_hex_pairs_len(bytes.drop_last());
    }
}

proof fn lemma_nibbles_of_pairs(bytes: Seq<u8>)
    ensures
        hex_nibbles(hex_pairs(bytes)) == Some(nibbles_of(bytes)),
    decreases bytes.len(),
{
    if bytes.len() == 0 {
        assert(nibbles_of(bytes) =~= Seq::<int>::empty());
    } else {
        let front = bytes.drop_last();
        let hi = hex_digit(bytes.last() as int / 16);
        let lo = hex_digit(bytes.last() as int % 16);
        let mid = hex_pairs(front).push(hi);
        let all = mid.push(lo);
        lemma_nibbles_of_pairs(front);
        lemma_hex_digit_value(bytes.last() as int / 16);
        lemma_hex_digit_value(bytes.last() as int % 16);
        assert(mid.drop_last() =~= hex_pairs(front));
        assert(all.drop_last() =~= mid);
        assert(hex_nibbles(mid) == Some(nibbles_of(front).push(bytes.last() as int / 16)));
        assert(nibbles_of(front).push(bytes.last() as int / 16).push(bytes.last() as int % 16)
            =~= nibbles_of(bytes));
    }
}

/// The canonical text holds hexadecimal digits and the `x` of its prefix,
/// and nothing else.
pub proof fn lemma_hex_text_chars(bytes: Seq<u8>)
    ensures
        hex_text(bytes).len() == 2 + 2 * bytes.len(),
        forall|i: int|
            0 <= i < hex_text(bytes).len() ==> hex_value(#[trigger] hex_text(bytes)[i]) is Some
                || hex_text(bytes)[i] == 'x',
{
    lemma_hex_pairs_len(bytes);
    lemma_hex_pairs_chars(bytes);
    assert forall|i: int| 0 <= i < hex_text(bytes).len() implies hex_value(
        #[trigger] hex_text(bytes)[i],
    ) is Some || hex_text(bytes)[i] == 'x' by {
        if i >= 2 {
            assert(hex_text(bytes)[i] == hex_pairs(bytes)[i - 2]);
        }
    }
}

proof fn lemma_hex_pairs_chars(bytes: Seq<u8>)
    ensures
        forall|i: int|
            0 <= i < hex_pairs(bytes).len() ==> hex_value(#[trigger] hex_pairs(bytes)[i]) is Some,
    decreases bytes.len(),
{
    if bytes.len() > 0 {
        let front = hex_pairs(bytes.drop_last());
        lemma_hex_pairs_chars(bytes.drop_last());
        lemma_hex_pairs_len(bytes.drop_last());
        lemma_hex_digit_value(bytes.last() as int / 16);
        lemma_hex_digit_value(bytes.last() as int % 16);
        assert forall|i: int| 0 <= i < hex_pairs(bytes).len() implies hex_value(
            #[trigger] hex_pairs(bytes)[i],
        ) is Some by {
            if i < front.len() {
                assert(hex_pairs(bytes)[i] == front[i]);
            }
        }
    }
}

/// Reading the canonical text of a byte string of twenty bytes gives the
/// bytes back.
pub proof fn lemma_parse_hex_text(bytes: Seq<u8>)
    requires
        bytes.len() == 20,
    ensures
        parse_hex_bytes(hex_text(bytes)) == Some(bytes),
{
    let text = hex_text(bytes);
    lemma_hex_pairs_len(bytes);
    lemma_nibbles_of_pairs(bytes);
    assert(text[0] == '0' && text[1] == 'x');
    assert(without_prefix(text) =~= hex_pairs(bytes));
    let n = nibbles_of(bytes);
    assert(Seq::new(20, |i: int| (n[2 * i] * 16 + n[2 * i + 1]) as u8) =~= bytes);
}

/// Reading the canonical text of an address gives the address back.
pub proof fn lemma_parse_text(a: Address)
    ensures
        Address::spec_parse(a.spec_text()) == Some(a),
{
    lemma_parse_hex_text(a@);
    lemma_from_seq_view(a);
}

/// Calls `H160::from_str` of `ethers` and hands out the bytes of the result.
///
/// Trusted: the call succeeds exactly on the texts that `parse_hex_bytes`
/// accepts, and the bytes are those it gives. That is: one leading `0x` is
/// dropped; of what follows, space, tab, carriage return and line feed are
/// skipped; every other character must be a hexadecimal digit of either case;
/// there are forty digits, and each two make a byte, high half first.
#[verifier::external_body]
fn h160_from_text(text: &str) -> (bytes: Option<[u8; 20]>)
    ensures
        bytes matches Some(b) ==> parse_hex_bytes(text@) == Some(b@),
        bytes is None ==> parse_hex_bytes(text@) is None,
{
    match ethers::types::H160::from_str(text) {
        Ok(h) => Some(h.0),
        Err(_) => None,
    }
}

/// Formats the bytes as an `H160` of `ethers` with `{:?}`.
///
/// Trusted: the text is `0x` followed by two lower-case hexadecimal digits
/// for each byte in order.
#[verifier::external_body]
fn h160_to_text(bytes: &[u8; 20]) -> (text: String)
    ensures
        text@ == hex_text(bytes@),
{
    format!("{:?}", ethers::types::H160(*bytes))
}

} // verus!
