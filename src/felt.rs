//! Field elements held as canonical big-endian bytes.

use starknet_crypto::FieldElement;
use std::str::FromStr;
use vstd::string::StringExecFns;
use vstd::prelude::*;
use vstd::string::StringSliceAdditionalSpecFns;

verus! {

/// The integer that a big-endian byte string denotes.
pub open spec fn be_value(b: Seq<u8>) -> nat
    decreases b.len(),
{
    if b.len() == 0 {
        0
    } else {
        be_value(b.drop_last()) * 256 + b.last() as nat
    }
}

/// The field's prime, 2^251 + 17 * 2^192 + 1, as big-endian bytes.
pub open spec fn modulus_bytes() -> Seq<u8> {
    seq![
        8u8, 0u8, 0u8, 0u8, 0u8, 0u8, 0u8, 17u8,
        0u8, 0u8, 0u8, 0u8, 0u8, 0u8, 0u8, 0u8,
        0u8, 0u8, 0u8, 0u8, 0u8, 0u8, 0u8, 0u8,
        0u8, 0u8, 0u8, 0u8, 0u8, 0u8, 0u8, 1u8,
    ]
}

pub open spec fn modulus() -> nat {
    be_value(modulus_bytes())
}

/// An element of the Stark prime field, stored as 32 big-endian bytes.
#[derive(Clone, Copy, Debug)]
pub struct Felt {
    pub bytes: [u8; 32],
}

impl Felt {
    pub open spec fn value(&self) -> nat {
        be_value(self.bytes@)
    }

    /// The bytes denote a canonical element, below the modulus.
    pub open spec fn wf(&self) -> bool {
        self.value() < modulus()
    }

    /// The element whose value is `x`.
    pub fn from_u128(x: u128) -> (r: Felt)
        ensures
            r.wf(),
            r.value() == x as nat,
    {
        felt_of_u128(x)
    }

    /// Numeric comparison of the two elements.
    pub fn lt(&self, o: &Felt) -> (r: bool)
        ensures
            r == (self.value() < o.value()),
    {
        let mut i: usize = 0;
        while i < 32
            invariant
                0 <= i <= 32,
                self.bytes@.len() == 32,
                o.bytes@.len() == 32,
                self.bytes@.take(i as int) == o.bytes@.take(i as int),
            decreases 32 - i,
        {
            if self.bytes[i] != o.bytes[i] {
                proof {
                    if self.bytes[i as int] < o.bytes[i as int] {
                        lemma_lex_lt(self.bytes@, o.bytes@, i as int);
                    } else {
                        lemma_lex_lt(o.bytes@, self.bytes@, i as int);
                    }
                }
                return self.bytes[i] < o.bytes[i];
            }
            assert(self.bytes@.take(i + 1) =~= o.bytes@.take(i + 1)) by {
                assert(self.bytes@.take(i + 1) =~= self.bytes@.take(i as int).push(self.bytes@[i as int]));
                assert(o.bytes@.take(i + 1) =~= o.bytes@.take(i as int).push(o.bytes@[i as int]));
            }
            i += 1;
        }
        assert(self.bytes@ =~= self.bytes@.take(32));
        assert(o.bytes@ =~= o.bytes@.take(32));
        false
    }

    /// Equality of the two elements.
    pub fn same(&self, o: &Felt) -> (r: bool)
        ensures
            r == (self.value() == o.value()),
    {
        !self.lt(o) && !o.lt(self)
    }
}

/// Two byte strings of one length that first differ at `i`, where `a` is smaller,
/// denote integers in the same order.
pub proof fn lemma_lex_lt(a: Seq<u8>, b: Seq<u8>, i: int)
    requires
        a.len() == b.len(),
        0 <= i < a.len(),
        a.take(i) == b.take(i),
        a[i] < b[i],
    ensures
        be_value(a) < be_value(b),
    decreases a.len(),
{
    let n = a.len();
    if i == n - 1 {
        assert(a.drop_last() =~= a.take(i));
        assert(b.drop_last() =~= b.take(i));
    } else {
        assert(a.drop_last().take(i) =~= a.take(i));
        assert(b.drop_last().take(i) =~= b.take(i));
        lemma_lex_lt(a.drop_last(), b.drop_last(), i);
        let x = be_value(a.drop_last());
        let y = be_value(b.drop_last());
        let al = a.last() as nat;
        let bl = b.last() as nat;
        assert(x * 256 + al < y * 256 + bl) by (nonlinear_arith)
            requires
                x < y,
                al < 256,
        ;
    }
}

/// Relies on `FieldElement: From<u128>` and `FieldElement::to_bytes_be`: the element
/// whose value is the integer, in canonical big-endian bytes.
#[verifier::external_body]
fn felt_of_u128(x: u128) -> (r: Felt)
    ensures
        r.wf(),
        r.value() == x as nat,
{
    Felt { bytes: FieldElement::from(x).to_bytes_be() }
}


/// The sixteen lowercase hexadecimal digits.
pub open spec fn hex_digits() -> Seq<char> {
    seq!['0', '1', '2', '3', '4', '5', '6', '7', '8', '9', 'a', 'b', 'c', 'd', 'e', 'f']
}

pub open spec fn hex_digit(d: nat) -> char {
    hex_digits()[d as int]
}

/// Hexadecimal digits of `n`, most significant first, without leading zeros.
pub open spec fn hex_min(n: nat) -> Seq<char>
    decreases n,
{
    if n < 16 {
        seq![hex_digit(n)]
    } else {
        hex_min(n / 16).push(hex_digit(n % 16))
    }
}

/// Two lowercase hexadecimal digits for each byte, in order.
pub open spec fn hex_text(b: Seq<u8>) -> Seq<char>
    decreases b.len(),
{
    if b.len() == 0 {
        seq![]
    } else {
        hex_text(b.drop_last()) + seq![
            hex_digit(b.last() as nat / 16),
            hex_digit(b.last() as nat % 16),
        ]
    }
}

/// Renders an element as `0x` and its lowercase hexadecimal digits, no leading zeros.
///
/// Relies on `FieldElement`'s `LowerHex` with the alternate flag, which writes `0x`
/// and then the digits from the first nonzero one (the last one for zero).
#[verifier::external_body]
pub fn felt_to_b16(felt: &Felt) -> (r: String)
    requires
        felt.wf(),
    ensures
        r@ == seq!['0', 'x'] + hex_min(felt.value()),
{
    format!("{:#x}", FieldElement::from_bytes_be(&felt.bytes).unwrap())
}

/// Relies on `hex::encode`: two lowercase digits for each byte of the string.
#[verifier::external_body]
fn hex_encode(input: &str) -> (r: String)
    ensures
        r@ == hex_text(input.spec_bytes()),
{
    hex::encode(input)
}

/// Relies on `FieldElement::from_str`, which reads text that starts with `0x` as
/// big-endian hexadecimal: at most 64 digits, padded with leading zeros to 32 bytes,
/// and accepted when below the modulus.
#[verifier::external_body]
fn felt_from_hex(s: &str) -> (r: Option<Felt>)
    ensures
        forall|b: Seq<u8>|
            #![trigger hex_text(b)]
            s@ == seq!['0', 'x'] + hex_text(b) ==> {
                &&& r.is_some() <==> (b.len() <= 32 && be_value(b) < modulus())
                &&& r.is_some() ==> r.unwrap().wf() && r.unwrap().value() == be_value(b)
            },
{
    match FieldElement::from_str(s) {
        Ok(fe) => Some(Felt { bytes: fe.to_bytes_be() }),
        Err(_) => None,
    }
}

/// `0x` followed by the hexadecimal digits of the string's UTF-8 bytes.
pub fn string_to_hex(input: &str) -> (r: String)
    ensures
        r@ == seq!['0', 'x'] + hex_text(input.spec_bytes()),
{
    let digits = hex_encode(input);
    let mut r = "0x".to_owned();
    proof {
        reveal_strlit("0x");
    }
    r.append(digits.as_str());
    r
}

/// The element whose big-endian bytes are the string's UTF-8 bytes; `None` when
/// those denote an integer of more than 32 bytes or not below the modulus.
pub fn convert_to_felt(input: &str) -> (r: Option<Felt>)
    ensures
        r.is_some() <==> (input.spec_bytes().len() <= 32 && be_value(input.spec_bytes()) < modulus()),
        r.is_some() ==> r.unwrap().wf() && r.unwrap().value() == be_value(input.spec_bytes()),
{
    let text = string_to_hex(input);
    felt_from_hex(text.as_str())
}

} // verus!
