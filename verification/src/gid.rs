//! Identifiers of DDS entities.
use vstd::prelude::*;

verus! {

/// The identifier of a DDS participant, writer or reader: its sixteen bytes,
/// read as one number, the first byte the most significant.
#[derive(Clone, Copy, PartialEq, Eq, Structural, Hash, Debug)]
pub struct Gid {
    pub id: u128,
}

impl View for Gid {
    type V = Gid;

    open spec fn view(&self) -> Gid {
        *self
    }
}

/// The number that `bytes` write in base 256.
pub open spec fn number_of(bytes: Seq<u8>) -> nat
    decreases bytes.len(),
{
    if bytes.len() == 0 {
        0
    } else {
        number_of(bytes.drop_last()) * 256 + bytes.last() as nat
    }
}

/// `16` to the power of `n`.
pub open spec fn pow16(n: nat) -> nat
    decreases n,
{
    if n == 0 {
        1
    } else {
        16 * pow16((n - 1) as nat)
    }
}

/// The hexadecimal digit for `n`, in lower case.
pub open spec fn hex_digit(n: int) -> char {
    if n < 10 {
        (48 + n) as char
    } else {
        (87 + n) as char
    }
}

/// The last `len` hexadecimal digits of `n`.
pub open spec fn hex_of(n: nat, len: nat) -> Seq<char>
    decreases len,
{
    if len == 0 {
        Seq::empty()
    } else {
        hex_of(n / 16, (len - 1) as nat).push(hex_digit((n % 16) as int))
    }
}

impl Gid {
    /// The identifier as 32 hexadecimal digits.
    pub open spec fn hex(self) -> Seq<char> {
        hex_of(self.id as nat, 32)
    }
}

impl vstd::std_specs::convert::FromSpecImpl<[u8; 16]> for Gid {
    open spec fn obeys_from_spec() -> bool {
        true
    }

    open spec fn from_spec(bytes: [u8; 16]) -> Gid {
        Gid { id: number_of(bytes@) as u128 }
    }
}

impl From<[u8; 16]> for Gid {
    fn from(bytes: [u8; 16]) -> (r: Gid) {
        let mut id: u128 = 0;
        let ghost mut bound: nat = 1;
        for i in 0..16usize
            invariant
                id == number_of(bytes@.take(i as int)),
                bound == pow16((2 * i) as nat),
                id < bound,
                bytes@.len() == 16,
        {
            proof {
                assert(bytes@.take(i + 1).drop_last() =~= bytes@.take(i as int));
                assert(bytes@.take(i + 1).last() == bytes@[i as int]);
                lemma_pow16_monotone((2 * i + 2) as nat, 32);
                lemma_pow16_32();
                reveal_with_fuel(pow16, 3);
                assert(pow16((2 * i + 2) as nat) == 256 * bound);
                bound = 256 * bound;
            }
            id = id * 256 + bytes[i] as u128;
        }
        assert(bytes@.take(16) =~= bytes@);
        Gid { id }
    }
}

proof fn lemma_pow16_32()
    ensures
        pow16(32) == 0x1_0000_0000_0000_0000_0000_0000_0000_0000,
{
    reveal_with_fuel(pow16, 33);
}

proof fn lemma_pow16_monotone(a: nat, b: nat)
    requires
        a <= b,
    ensures
        0 < pow16(a) <= pow16(b),
    decreases b,
{
    if a < b {
        lemma_pow16_monotone(a, (b - 1) as nat);
    } else if b > 0 {
        lemma_pow16_monotone((a - 1) as nat, (b - 1) as nat);
    }
}

proof fn lemma_hex_injective(a: nat, b: nat, len: nat)
    requires
        a < pow16(len),
        b < pow16(len),
        hex_of(a, len) == hex_of(b, len),
    ensures
        a == b,
    decreases len,
{
    if len > 0 {
        let ha = hex_of(a / 16, (len - 1) as nat);
        let hb = hex_of(b / 16, (len - 1) as nat);
        assert(hex_of(a, len).drop_last() =~= ha);
        assert(hex_of(b, len).drop_last() =~= hb);
        assert(hex_of(a, len).last() == hex_digit((a % 16) as int));
        assert(hex_of(b, len).last() == hex_digit((b % 16) as int));
        lemma_hex_injective(a / 16, b / 16, (len - 1) as nat);
    }
}

proof fn lemma_hex_shape(n: nat, len: nat)
    ensures
        hex_of(n, len).len() == len,
        forall|i: int|
            0 <= i < len ==> {
                let c = #[trigger] hex_of(n, len)[i];
                ('0' <= c && c <= '9') || ('a' <= c && c <= 'f')
            },
    decreases len,
{
    if len > 0 {
        lemma_hex_shape(n / 16, (len - 1) as nat);
    }
}

/// Two identifiers with the same text are the same.
pub proof fn law_hex_injective(a: Gid, b: Gid)
    requires
        a.hex() == b.hex(),
    ensures
        a == b,
{
    lemma_pow16_32();
    lemma_hex_injective(a.id as nat, b.id as nat, 32);
}

/// The text of an identifier is 32 characters long, all of them hexadecimal
/// digits.
pub proof fn law_hex_shape(g: Gid)
    ensures
        g.hex().len() == 32,
        forall|i: int|
            0 <= i < 32 ==> {
                let c = #[trigger] g.hex()[i];
                ('0' <= c && c <= '9') || ('a' <= c && c <= 'f')
            },
{
    lemma_hex_shape(g.id as nat, 32);
}

fn hex_char(n: u8) -> (c: char)
    requires
        n < 16,
    ensures
        c == hex_digit(n as int),
{
    if n < 10 {
        (48 + n) as char
    } else {
        (87 + n) as char
    }
}

impl Gid {
    /// The identifier as text.
    pub fn to_hex(&self) -> (r: String)
        ensures
            r@ == self.hex(),
    {
        let mut digits: Vec<char> = Vec::new();
        let mut rest: u128 = self.id;
        let ghost whole: nat = self.id as nat;
        for i in 0..32usize
            invariant
                digits@.len() == i,
                hex_of(whole, 32) == hex_of(rest as nat, (32 - i) as nat) + digits@.reverse(),
        {
            let ghost before = digits@;
            let ghost left = rest as nat;
            let digit: u8 = (rest % 16) as u8;
            digits.push(hex_char(digit));
            rest = rest / 16;
            proof {
                let d = hex_digit((left % 16) as int);
                assert(before.push(d).reverse() =~= seq![d] + before.reverse());
                assert(hex_of(left, (32 - i) as nat) == hex_of(rest as nat, (31 - i) as nat).push(d));
                assert(hex_of(rest as nat, (31 - i) as nat).push(d) + before.reverse() =~= hex_of(
                    rest as nat,
                    (31 - i) as nat,
                ) + before.push(d).reverse());
            }
        }
        let mut text: Vec<char> = Vec::new();
        let n: usize = digits.len();
        for i in 0..n
            invariant
                n == digits@.len(),
                text@ == digits@.reverse().take(i as int),
        {
            text.push(digits[n - 1 - i]);
            assert(digits@.reverse().take(i + 1) =~= digits@.reverse().take(i as int).push(
                digits@.reverse()[i as int],
            ));
        }
        proof {
            assert(digits@.reverse().take(n as int) =~= digits@.reverse());
            assert(hex_of(rest as nat, 0) + digits@.reverse() =~= digits@.reverse());
        }
        crate::text::string_of(&text)
    }
}

/// The digits of a number whose last byte is known.
proof fn lemma_hex_byte(n: nat, byte: nat, len: nat)
    requires
        byte < 256,
    ensures
        hex_of(n * 256 + byte, len + 2) == hex_of(n, len).push(hex_digit((byte / 16) as int)).push(
            hex_digit((byte % 16) as int),
        ),
{
    let whole = n * 256 + byte;
    reveal_with_fuel(hex_of, 3);
    assert(whole % 16 == byte % 16);
    assert(whole / 16 == n * 16 + byte / 16);
    assert((whole / 16) % 16 == byte / 16);
    assert((whole / 16) / 16 == n);
}

proof fn lemma_hex_bytes(bytes: Seq<u8>)
    ensures
        hex_of(number_of(bytes), 2 * bytes.len()).len() == 2 * bytes.len(),
        forall|i: int|
            0 <= i < bytes.len() ==> hex_of(number_of(bytes), 2 * bytes.len())[2 * i] == hex_digit(
                (#[trigger] bytes[i] / 16) as int,
            ) && hex_of(number_of(bytes), 2 * bytes.len())[2 * i + 1] == hex_digit(
                (bytes[i] % 16) as int,
            ),
    decreases bytes.len(),
{
    if bytes.len() > 0 {
        let rest = bytes.drop_last();
        lemma_hex_bytes(rest);
        let n = number_of(rest);
        let b = bytes.last() as nat;
        lemma_hex_byte(n, b, 2 * rest.len());
        let before = hex_of(n, 2 * rest.len());
        let after = hex_of(number_of(bytes), 2 * bytes.len());
        assert(after == before.push(hex_digit((b / 16) as int)).push(hex_digit((b % 16) as int)));
        assert forall|i: int| 0 <= i < bytes.len() implies after[2 * i] == hex_digit(
            (#[trigger] bytes[i] / 16) as int,
        ) && after[2 * i + 1] == hex_digit((bytes[i] % 16) as int) by {
            if i < rest.len() {
                assert(rest[i] == bytes[i]);
                assert(rest[i] / 16 == bytes[i] / 16);
            }
        }
    }
}

proof fn lemma_number_bounded(bytes: Seq<u8>)
    ensures
        number_of(bytes) < pow16(2 * bytes.len()),
    decreases bytes.len(),
{
    if bytes.len() > 0 {
        lemma_number_bounded(bytes.drop_last());
        reveal_with_fuel(pow16, 3);
        assert(pow16(2 * bytes.len()) == 256 * pow16((2 * bytes.len() - 2) as nat));
    }
}

/// The text of an identifier spells its bytes in order, two digits for each, the
/// upper half first.
pub proof fn law_hex_spells_the_bytes(bytes: [u8; 16], i: int)
    requires
        0 <= i < 16,
    ensures
        ({
            let g = <Gid as vstd::std_specs::convert::FromSpec<[u8; 16]>>::from_spec(bytes);
            let digits = "0123456789abcdef"@;
            &&& g.hex().len() == 32
            &&& g.hex()[2 * i] == digits[bytes@[i] as int / 16]
            &&& g.hex()[2 * i + 1] == digits[bytes@[i] as int % 16]
        }),
{
    lemma_number_bounded(bytes@);
    lemma_pow16_32();
    lemma_hex_bytes(bytes@);
    reveal_strlit("0123456789abcdef");
    let b = bytes@[i];
    assert(bytes@[i] / 16 == b / 16);
    lemma_digit(b as int / 16);
    lemma_digit(b as int % 16);
}

proof fn lemma_digit(n: int)
    requires
        0 <= n < 16,
    ensures
        hex_digit(n) == "0123456789abcdef"@[n],
{
    reveal_strlit("0123456789abcdef");
}

} // verus!
