//! Keys as bytes: encodings that keep the order of the keys.

use vstd::prelude::*;
use crate::basic::ord_key::{bytes_lt, copy_bytes, differ_at};
use crate::common::VsError;

verus! {

/// Byte `i` of the big-endian form of `x`, counted from the most significant.
pub open spec fn be_byte(x: u64, i: int) -> u8 {
    ((x as int / pow256(7 - i)) % 256) as u8
}

/// 256 to the power of `n`, for the eight places of a 64-bit number.
pub open spec fn pow256(n: int) -> int {
    if n <= 0 {
        1
    } else if n == 1 {
        0x100
    } else if n == 2 {
        0x1_0000
    } else if n == 3 {
        0x100_0000
    } else if n == 4 {
        0x1_0000_0000
    } else if n == 5 {
        0x100_0000_0000
    } else if n == 6 {
        0x1_0000_0000_0000
    } else {
        0x100_0000_0000_0000
    }
}

/// The eight bytes of `x`, most significant first.
#[verifier::opaque]
pub open spec fn be_bytes(x: u64) -> Seq<u8> {
    Seq::new(8, |i: int| be_byte(x, i))
}

/// The number that eight bytes stand for, most significant first.
#[verifier::opaque]
pub open spec fn be_value(b: Seq<u8>) -> int {
    b[0] * pow256(7) + b[1] * pow256(6) + b[2] * pow256(5) + b[3] * pow256(4) + b[4] * pow256(3)
        + b[5] * pow256(2) + b[6] * pow256(1) + b[7]
}

/// The bytes of a number whose upper part is `hi` and whose lowest byte is `lo`
/// end in `lo`, and the bytes before it are those of `hi`.
proof fn lemma_div_step(x: int, d: int, q: int, r: int)
    requires
        d > 0,
        0 <= r < d,
        x == q * d + r,
    ensures
        x / d == q,
        x % d == r,
{
    vstd::arithmetic::div_mod::lemma_fundamental_div_mod_converse(x, d, q, r);
}

/// Byte `i` of a number that is `hi * 256^(7-i) + lo`, with `lo` below that
/// power, is the lowest byte of `hi`.
proof fn lemma_be_byte_at(x: u64, i: int, hi: int, top: int, byte: u8, lo: int)
    requires
        0 <= i <= 7,
        0 <= lo < pow256(7 - i),
        hi == top * 256 + byte,
        x == hi * pow256(7 - i) + lo,
    ensures
        be_byte(x, i) == byte,
        x as int / pow256(7 - i) == hi,
{
    lemma_div_step(x as int, pow256(7 - i), hi, lo);
    lemma_div_step(hi, 256, top, byte as int);
}

/// Decoding undoes encoding.
pub proof fn lemma_be_value_of_bytes(x: u64)
    ensures
        be_bytes(x).len() == 8,
        be_value(be_bytes(x)) == x,
{
    reveal(be_bytes);
    reveal(be_value);
    let b = be_bytes(x);
    let v = x as int;
    let q0 = v / pow256(7);
    let q1 = v / pow256(6);
    let q2 = v / pow256(5);
    let q3 = v / pow256(4);
    let q4 = v / pow256(3);
    let q5 = v / pow256(2);
    let q6 = v / pow256(1);
    assert(b[0] == be_byte(x, 0) && b[1] == be_byte(x, 1) && b[2] == be_byte(x, 2) && b[3]
        == be_byte(x, 3) && b[4] == be_byte(x, 4) && b[5] == be_byte(x, 5) && b[6] == be_byte(x, 6)
        && b[7] == be_byte(x, 7));
    assert(q0 < 256);
    assert(b[0] == q0);
    assert(q1 == q0 * 256 + b[1]) by {
        assert(q1 / 256 == q0);
    }
    assert(q2 == q1 * 256 + b[2]) by {
        assert(q2 / 256 == q1);
    }
    assert(q3 == q2 * 256 + b[3]) by {
        assert(q3 / 256 == q2);
    }
    assert(q4 == q3 * 256 + b[4]) by {
        assert(q4 / 256 == q3);
    }
    assert(q5 == q4 * 256 + b[5]) by {
        assert(q5 / 256 == q4);
    }
    assert(q6 == q5 * 256 + b[6]) by {
        assert(q6 / 256 == q5);
    }
    assert(v == q6 * 256 + b[7]) by {
        assert(v / 256 == q6);
    }
}

/// Encoding undoes decoding.
pub proof fn lemma_be_bytes_of_value(b: Seq<u8>)
    requires
        b.len() == 8,
    ensures
        0 <= be_value(b) <= u64::MAX,
        be_bytes(be_value(b) as u64) == b,
{
    reveal(be_bytes);
    reveal(be_value);
    let v = be_value(b);
    let x = v as u64;
    let lo7: int = 0;
    let lo6 = b[7] as int;
    let lo5 = b[6] * 0x100 + lo6;
    let lo4 = b[5] * 0x1_0000 + lo5;
    let lo3 = b[4] * 0x100_0000 + lo4;
    let lo2 = b[3] * 0x1_0000_0000 + lo3;
    let lo1 = b[2] * 0x100_0000_0000 + lo2;
    let lo0 = b[1] * 0x1_0000_0000_0000 + lo1;
    let hi0 = b[0] as int;
    let hi1 = hi0 * 256 + b[1];
    let hi2 = hi1 * 256 + b[2];
    let hi3 = hi2 * 256 + b[3];
    let hi4 = hi3 * 256 + b[4];
    let hi5 = hi4 * 256 + b[5];
    let hi6 = hi5 * 256 + b[6];
    let hi7 = hi6 * 256 + b[7];
    assert(0 <= v <= u64::MAX);
    assert(be_byte(x, 0) == b[0]) by {
        assert(pow256(7 - 0) == 0x100_0000_0000_0000);
        assert(v == hi0 * 0x100_0000_0000_0000 + lo0);
        assert(0 <= lo0 < 0x100_0000_0000_0000);
        lemma_be_byte_at(x, 0, hi0, 0, b[0], lo0);
    }
    assert(be_byte(x, 1) == b[1]) by {
        assert(pow256(7 - 1) == 0x1_0000_0000_0000);
        assert(v == hi1 * 0x1_0000_0000_0000 + lo1);
        assert(0 <= lo1 < 0x1_0000_0000_0000);
        lemma_be_byte_at(x, 1, hi1, hi0, b[1], lo1);
    }
    assert(be_byte(x, 2) == b[2]) by {
        assert(pow256(7 - 2) == 0x100_0000_0000);
        assert(v == hi2 * 0x100_0000_0000 + lo2);
        assert(0 <= lo2 < 0x100_0000_0000);
        lemma_be_byte_at(x, 2, hi2, hi1, b[2], lo2);
    }
    assert(be_byte(x, 3) == b[3]) by {
        assert(pow256(7 - 3) == 0x1_0000_0000);
        assert(v == hi3 * 0x1_0000_0000 + lo3);
        assert(0 <= lo3 < 0x1_0000_0000);
        lemma_be_byte_at(x, 3, hi3, hi2, b[3], lo3);
    }
    assert(be_byte(x, 4) == b[4]) by {
        assert(pow256(7 - 4) == 0x100_0000);
        assert(v == hi4 * 0x100_0000 + lo4);
        assert(0 <= lo4 < 0x100_0000);
        lemma_be_byte_at(x, 4, hi4, hi3, b[4], lo4);
    }
    assert(be_byte(x, 5) == b[5]) by {
        assert(pow256(7 - 5) == 0x1_0000);
        assert(v == hi5 * 0x1_0000 + lo5);
        assert(0 <= lo5 < 0x1_0000);
        lemma_be_byte_at(x, 5, hi5, hi4, b[5], lo5);
    }
    assert(be_byte(x, 6) == b[6]) by {
        assert(pow256(7 - 6) == 0x100);
        assert(v == hi6 * 0x100 + lo6);
        assert(0 <= lo6 < 0x100);
        lemma_be_byte_at(x, 6, hi6, hi5, b[6], lo6);
    }
    assert(be_byte(x, 7) == b[7]) by {
        assert(pow256(7 - 7) == 1);
        assert(v == hi7 * 1 + lo7);
        assert(0 <= lo7 < 1);
        lemma_be_byte_at(x, 7, hi7, hi6, b[7], lo7);
    }
    assert(be_bytes(x) =~= b);
}

/// The big-endian form keeps the order: the smaller number has the smaller bytes.
pub proof fn lemma_be_order(x: u64, y: u64)
    ensures
        x < y <==> bytes_lt(be_bytes(x), be_bytes(y)),
{
    reveal(be_bytes);
    reveal(be_value);
    let a = be_bytes(x);
    let b = be_bytes(y);
    lemma_be_value_of_bytes(x);
    lemma_be_value_of_bytes(y);
    if bytes_lt(a, b) {
        let i = choose|i: int| #[trigger] differ_at(a, b, i);
        assert forall|j: int| 0 <= j < i implies a[j] == b[j] by {
            assert(a.subrange(0, i)[j] == b.subrange(0, i)[j]);
        }
        assert(a[i] < b[i]);
        assert(x < y);
    }
    if x < y {
        lemma_first_difference(a, b, 0);
    }
}

/// Eight bytes that stand for the smaller number come first.
proof fn lemma_first_difference(a: Seq<u8>, b: Seq<u8>, i: int)
    requires
        a.len() == 8,
        b.len() == 8,
        0 <= i <= 8,
        forall|j: int| 0 <= j < i ==> a[j] == b[j],
        be_value(a) < be_value(b),
    ensures
        bytes_lt(a, b),
    decreases 8 - i,
{
    reveal(be_bytes);
    reveal(be_value);
    if i == 8 {
        assert(be_value(a) == be_value(b));
    } else if a[i] == b[i] {
        lemma_first_difference(a, b, i + 1);
    } else {
        assert(a.subrange(0, i) =~= b.subrange(0, i));
        assert(a[i] < b[i]);
        assert(differ_at(a, b, i));
    }
}

/// The eight bytes of `x`, most significant first.
pub fn u64_to_be_bytes(x: u64) -> (r: [u8; 8])
    ensures
        r@ == be_bytes(x),
{
    let b0: u64 = (x >> 56) & 0xff;
    let b1: u64 = (x >> 48) & 0xff;
    let b2: u64 = (x >> 40) & 0xff;
    let b3: u64 = (x >> 32) & 0xff;
    let b4: u64 = (x >> 24) & 0xff;
    let b5: u64 = (x >> 16) & 0xff;
    let b6: u64 = (x >> 8) & 0xff;
    let b7: u64 = x & 0xff;
    assert(b0 == (x / 0x100_0000_0000_0000) % 256 && b1 == (x / 0x1_0000_0000_0000) % 256 && b2
        == (x
        / 0x100_0000_0000) % 256 && b3 == (x / 0x1_0000_0000) % 256 && b4 == (x / 0x100_0000) % 256
        && b5 == (x / 0x1_0000) % 256 && b6 == (x / 0x100) % 256 && b7 == x % 256) by (bit_vector)
        requires
            b0 == (x >> 56) & 0xff,
            b1 == (x >> 48) & 0xff,
            b2 == (x >> 40) & 0xff,
            b3 == (x >> 32) & 0xff,
            b4 == (x >> 24) & 0xff,
            b5 == (x >> 16) & 0xff,
            b6 == (x >> 8) & 0xff,
            b7 == x & 0xff,
    ;
    let r = [b0 as u8, b1 as u8, b2 as u8, b3 as u8, b4 as u8, b5 as u8, b6 as u8, b7 as u8];
    proof {
        reveal(be_bytes);
    }
    assert(r@ =~= be_bytes(x));
    r
}

/// The number that eight bytes stand for, most significant first.
pub fn u64_from_be_bytes(b: &[u8; 8]) -> (x: u64)
    ensures
        x == be_value(b@),
        be_bytes(x) == b@,
{
    proof {
        lemma_be_bytes_of_value(b@);
        reveal(be_value);
    }
    let x: u64 = b[0] as u64 * 0x100_0000_0000_0000 + b[1] as u64 * 0x1_0000_0000_0000 + b[2] as u64
        * 0x100_0000_0000 + b[3] as u64 * 0x1_0000_0000 + b[4] as u64 * 0x100_0000 + b[5] as u64
        * 0x1_0000 + b[6] as u64 * 0x100 + b[7] as u64;
    x
}

/// Keys whose bytes are ordered as the keys are: with such keys a map can be
/// searched for the nearest key and walked in order.
pub trait KeyEnDeOrdered: Sized {
    /// The bytes that stand for the key.
    spec fn encoded(&self) -> Seq<u8>;

    /// Whether the bytes stand for a key.
    spec fn decodable(b: Seq<u8>) -> bool;

    /// The key as bytes.
    fn to_bytes(&self) -> (r: Vec<u8>)
        ensures
            r@ == self.encoded(),
            Self::decodable(r@),
    ;

    /// The key as bytes, giving the key up.
    fn into_bytes(self) -> (r: Vec<u8>)
        ensures
            r@ == self.encoded(),
            Self::decodable(r@),
    ;

    /// The key that the bytes stand for; refused if they stand for none.
    fn from_slice(b: &[u8]) -> (r: Result<Self, VsError>)
        ensures
            match r {
                Ok(k) => Self::decodable(b@) && k.encoded() == b@,
                Err(e) => !Self::decodable(b@) && e == VsError::InvalidArg,
            },
    ;

    /// The key that the bytes stand for, giving the bytes up.
    fn from_bytes(b: Vec<u8>) -> (r: Result<Self, VsError>)
        ensures
            match r {
                Ok(k) => Self::decodable(b@) && k.encoded() == b@,
                Err(e) => !Self::decodable(b@) && e == VsError::InvalidArg,
            },
    ;
}

impl KeyEnDeOrdered for Vec<u8> {
    open spec fn encoded(&self) -> Seq<u8> {
        self@
    }

    open spec fn decodable(b: Seq<u8>) -> bool {
        true
    }

    fn to_bytes(&self) -> (r: Vec<u8>) {
        copy_bytes(self.as_slice())
    }

    fn into_bytes(self) -> (r: Vec<u8>) {
        self
    }

    fn from_slice(b: &[u8]) -> (r: Result<Self, VsError>) {
        Ok(copy_bytes(b))
    }

    fn from_bytes(b: Vec<u8>) -> (r: Result<Self, VsError>) {
        Ok(b)
    }
}

impl KeyEnDeOrdered for u64 {
    open spec fn encoded(&self) -> Seq<u8> {
        be_bytes(*self)
    }

    open spec fn decodable(b: Seq<u8>) -> bool {
        b.len() == 8
    }

    fn to_bytes(&self) -> (r: Vec<u8>) {
        let a = u64_to_be_bytes(*self);
        copy_bytes(a.as_slice())
    }

    fn into_bytes(self) -> (r: Vec<u8>) {
        let a = u64_to_be_bytes(self);
        copy_bytes(a.as_slice())
    }

    fn from_slice(b: &[u8]) -> (r: Result<Self, VsError>) {
        if b.len() != 8 {
            return Err(VsError::InvalidArg);
        }
        let a: [u8; 8] = [b[0], b[1], b[2], b[3], b[4], b[5], b[6], b[7]];
        assert(a@ =~= b@);
        Ok(u64_from_be_bytes(&a))
    }

    fn from_bytes(b: Vec<u8>) -> (r: Result<Self, VsError>) {
        Self::from_slice(b.as_slice())
    }
}

/// A number is the only one with its bytes.
pub proof fn lemma_be_bytes_injective(x: u64, y: u64)
    requires
        be_bytes(x) == be_bytes(y),
    ensures
        x == y,
{
    lemma_be_value_of_bytes(x);
    lemma_be_value_of_bytes(y);
}

/// The last `width` of the eight bytes of `x`.
pub open spec fn be_tail(x: u64, width: nat) -> Seq<u8> {
    be_bytes(x).skip(8 - width)
}

/// Eight bytes that begin with `z` zero bytes stand for a number below
/// 256 to the power of what is left.
pub proof fn lemma_leading_zeros(a: Seq<u8>, z: int)
    requires
        a.len() == 8,
        1 <= z <= 7,
        forall|i: int| 0 <= i < z ==> a[i] == 0,
    ensures
        0 <= be_value(a) < pow256(8 - z),
{
    reveal(be_value);
    assert(a[0] == 0);
    if z >= 2 {
        assert(a[1] == 0);
    }
    if z >= 3 {
        assert(a[2] == 0);
    }
    if z >= 4 {
        assert(a[3] == 0);
    }
    if z >= 5 {
        assert(a[4] == 0);
    }
    if z >= 6 {
        assert(a[5] == 0);
    }
    if z >= 7 {
        assert(a[6] == 0);
    }
}

/// The last `width` of the eight bytes of `x`, most significant first.
pub fn to_be_tail(x: u64, width: usize) -> (r: Vec<u8>)
    requires
        1 <= width <= 8,
    ensures
        r@ == be_tail(x, width as nat),
        r@.len() == width,
{
    let a = u64_to_be_bytes(x);
    proof {
        lemma_be_value_of_bytes(x);
    }
    let mut r: Vec<u8> = Vec::new();
    let mut i: usize = 8 - width;
    assert(r@ =~= a@.subrange(8 - width, 8 - width));
    while i < 8
        invariant
            1 <= width <= 8,
            8 - width <= i <= 8,
            a@.len() == 8,
            r@ == a@.subrange(8 - width, i as int),
        decreases 8 - i,
    {
        r.push(a[i]);
        assert(r@ =~= a@.subrange(8 - width, i + 1));
        i = i + 1;
    }
    assert(a@.subrange(8 - width, 8) =~= a@.skip(8 - width));
    r
}

/// The number whose last bytes are `b`, most significant first.
pub fn from_be_tail(b: &[u8]) -> (x: u64)
    requires
        1 <= b@.len() <= 8,
    ensures
        be_tail(x, b@.len()) == b@,
        b@.len() < 8 ==> x < pow256(b@.len() as int),
{
    let n = b.len();
    let mut padded: Vec<u8> = Vec::new();
    let mut i: usize = 0;
    while i < 8 - n
        invariant
            i <= 8 - n,
            n <= 8,
            padded@.len() == i,
            forall|j: int| 0 <= j < i ==> padded@[j] == 0,
        decreases 8 - n - i,
    {
        padded.push(0);
        i = i + 1;
    }
    let mut k: usize = 0;
    while k < n
        invariant
            k <= n,
            n == b@.len(),
            n <= 8,
            padded@.len() == 8 - n + k,
            forall|j: int| 0 <= j < 8 - n ==> padded@[j] == 0,
            forall|j: int| 0 <= j < k ==> padded@[8 - n + j] == b@[j],
        decreases n - k,
    {
        padded.push(b[k]);
        k = k + 1;
    }
    let a: [u8; 8] = [
        padded[0],
        padded[1],
        padded[2],
        padded[3],
        padded[4],
        padded[5],
        padded[6],
        padded[7],
    ];
    assert(a@ =~= padded@);
    let x = u64_from_be_bytes(&a);
    proof {
        assert(be_bytes(x).skip(8 - n) =~= b@);
        if n < 8 {
            lemma_leading_zeros(a@, 8 - n);
        }
    }
    x
}

impl KeyEnDeOrdered for u8 {
    open spec fn encoded(&self) -> Seq<u8> {
        be_tail(*self as u64, 1)
    }

    open spec fn decodable(b: Seq<u8>) -> bool {
        b.len() == 1
    }

    fn to_bytes(&self) -> (r: Vec<u8>) {
        to_be_tail(*self as u64, 1)
    }

    fn into_bytes(self) -> (r: Vec<u8>) {
        to_be_tail(self as u64, 1)
    }

    fn from_slice(b: &[u8]) -> (r: Result<Self, VsError>) {
        if b.len() != 1 {
            return Err(VsError::InvalidArg);
        }
        let v = from_be_tail(b);
        Ok(v as u8)
    }

    fn from_bytes(b: Vec<u8>) -> (r: Result<Self, VsError>) {
        Self::from_slice(b.as_slice())
    }
}

impl KeyEnDeOrdered for u16 {
    open spec fn encoded(&self) -> Seq<u8> {
        be_tail(*self as u64, 2)
    }

    open spec fn decodable(b: Seq<u8>) -> bool {
        b.len() == 2
    }

    fn to_bytes(&self) -> (r: Vec<u8>) {
        to_be_tail(*self as u64, 2)
    }

    fn into_bytes(self) -> (r: Vec<u8>) {
        to_be_tail(self as u64, 2)
    }

    fn from_slice(b: &[u8]) -> (r: Result<Self, VsError>) {
        if b.len() != 2 {
            return Err(VsError::InvalidArg);
        }
        let v = from_be_tail(b);
        Ok(v as u16)
    }

    fn from_bytes(b: Vec<u8>) -> (r: Result<Self, VsError>) {
        Self::from_slice(b.as_slice())
    }
}

impl KeyEnDeOrdered for u32 {
    open spec fn encoded(&self) -> Seq<u8> {
        be_tail(*self as u64, 4)
    }

    open spec fn decodable(b: Seq<u8>) -> bool {
        b.len() == 4
    }

    fn to_bytes(&self) -> (r: Vec<u8>) {
        to_be_tail(*self as u64, 4)
    }

    fn into_bytes(self) -> (r: Vec<u8>) {
        to_be_tail(self as u64, 4)
    }

    fn from_slice(b: &[u8]) -> (r: Result<Self, VsError>) {
        if b.len() != 4 {
            return Err(VsError::InvalidArg);
        }
        let v = from_be_tail(b);
        Ok(v as u32)
    }

    fn from_bytes(b: Vec<u8>) -> (r: Result<Self, VsError>) {
        Self::from_slice(b.as_slice())
    }
}

impl KeyEnDeOrdered for i8 {
    open spec fn encoded(&self) -> Seq<u8> {
        be_tail(
            (if *self < 0 {
                *self + 0x100
            } else {
                *self as int
            }) as u64,
            1,
        )
    }

    open spec fn decodable(b: Seq<u8>) -> bool {
        b.len() == 1
    }

    fn to_bytes(&self) -> (r: Vec<u8>) {
        let t: i64 = *self as i64;
        let u: u64 = if t < 0 {
            (t + 0x100) as u64
        } else {
            t as u64
        };
        to_be_tail(u, 1)
    }

    fn into_bytes(self) -> (r: Vec<u8>) {
        self.to_bytes()
    }

    fn from_slice(b: &[u8]) -> (r: Result<Self, VsError>) {
        if b.len() != 1 {
            return Err(VsError::InvalidArg);
        }
        let v = from_be_tail(b);
        if v >= 0x80 {
            Ok((v as i64 - 0x100) as i8)
        } else {
            Ok(v as i8)
        }
    }

    fn from_bytes(b: Vec<u8>) -> (r: Result<Self, VsError>) {
        Self::from_slice(b.as_slice())
    }
}

impl KeyEnDeOrdered for i16 {
    open spec fn encoded(&self) -> Seq<u8> {
        be_tail(
            (if *self < 0 {
                *self + 0x1_0000
            } else {
                *self as int
            }) as u64,
            2,
        )
    }

    open spec fn decodable(b: Seq<u8>) -> bool {
        b.len() == 2
    }

    fn to_bytes(&self) -> (r: Vec<u8>) {
        let t: i64 = *self as i64;
        let u: u64 = if t < 0 {
            (t + 0x1_0000) as u64
        } else {
            t as u64
        };
        to_be_tail(u, 2)
    }

    fn into_bytes(self) -> (r: Vec<u8>) {
        self.to_bytes()
    }

    fn from_slice(b: &[u8]) -> (r: Result<Self, VsError>) {
        if b.len() != 2 {
            return Err(VsError::InvalidArg);
        }
        let v = from_be_tail(b);
        if v >= 0x8000 {
            Ok((v as i64 - 0x1_0000) as i16)
        } else {
            Ok(v as i16)
        }
    }

    fn from_bytes(b: Vec<u8>) -> (r: Result<Self, VsError>) {
        Self::from_slice(b.as_slice())
    }
}

impl KeyEnDeOrdered for i32 {
    open spec fn encoded(&self) -> Seq<u8> {
        be_tail(
            (if *self < 0 {
                *self + 0x1_0000_0000
            } else {
                *self as int
            }) as u64,
            4,
        )
    }

    open spec fn decodable(b: Seq<u8>) -> bool {
        b.len() == 4
    }

    fn to_bytes(&self) -> (r: Vec<u8>) {
        let t: i64 = *self as i64;
        let u: u64 = if t < 0 {
            (t + 0x1_0000_0000) as u64
        } else {
            t as u64
        };
        to_be_tail(u, 4)
    }

    fn into_bytes(self) -> (r: Vec<u8>) {
        self.to_bytes()
    }

    fn from_slice(b: &[u8]) -> (r: Result<Self, VsError>) {
        if b.len() != 4 {
            return Err(VsError::InvalidArg);
        }
        let v = from_be_tail(b);
        if v >= 0x8000_0000 {
            Ok((v as i64 - 0x1_0000_0000) as i32)
        } else {
            Ok(v as i32)
        }
    }

    fn from_bytes(b: Vec<u8>) -> (r: Result<Self, VsError>) {
        Self::from_slice(b.as_slice())
    }
}

impl KeyEnDeOrdered for i64 {
    open spec fn encoded(&self) -> Seq<u8> {
        be_tail(
            (if *self < 0 {
                *self + 0x1_0000_0000_0000_0000
            } else {
                *self as int
            }) as u64,
            8,
        )
    }

    open spec fn decodable(b: Seq<u8>) -> bool {
        b.len() == 8
    }

    fn to_bytes(&self) -> (r: Vec<u8>) {
        let t: i128 = *self as i128;
        let u: u64 = if t < 0 {
            (t + 0x1_0000_0000_0000_0000) as u64
        } else {
            t as u64
        };
        to_be_tail(u, 8)
    }

    fn into_bytes(self) -> (r: Vec<u8>) {
        self.to_bytes()
    }

    fn from_slice(b: &[u8]) -> (r: Result<Self, VsError>) {
        if b.len() != 8 {
            return Err(VsError::InvalidArg);
        }
        let v = from_be_tail(b);
        if v >= 0x8000_0000_0000_0000 {
            Ok((v as i128 - 0x1_0000_0000_0000_0000) as i64)
        } else {
            Ok(v as i64)
        }
    }

    fn from_bytes(b: Vec<u8>) -> (r: Result<Self, VsError>) {
        Self::from_slice(b.as_slice())
    }
}

/// The sixteen bytes of a number of 128 bits whose upper half is `hi` and
/// whose lower half is `lo`.
pub open spec fn be_pair(hi: u64, lo: u64) -> Seq<u8> {
    be_bytes(hi) + be_bytes(lo)
}

/// The upper half of a number of 128 bits that is not negative.
pub open spec fn upper_half(x: int) -> u64 {
    (x / 0x1_0000_0000_0000_0000) as u64
}

/// The lower half of a number of 128 bits that is not negative.
pub open spec fn lower_half(x: int) -> u64 {
    (x % 0x1_0000_0000_0000_0000) as u64
}

/// The sixteen bytes of `x`, most significant first.
pub fn u128_to_be_bytes(x: u128) -> (r: Vec<u8>)
    ensures
        r@ == be_pair(upper_half(x as int), lower_half(x as int)),
        r@.len() == 16,
{
    let hi: u64 = (x / 0x1_0000_0000_0000_0000) as u64;
    let lo: u64 = (x % 0x1_0000_0000_0000_0000) as u64;
    let mut r = to_be_tail(hi, 8);
    let low = to_be_tail(lo, 8);
    let ghost high = r@;
    let mut i: usize = 0;
    while i < 8
        invariant
            i <= 8,
            low@.len() == 8,
            r@ == high + low@.subrange(0, i as int),
        decreases 8 - i,
    {
        r.push(low[i]);
        assert(r@ =~= high + low@.subrange(0, i + 1));
        i = i + 1;
    }
    proof {
        assert(low@.subrange(0, 8) =~= low@);
        assert(be_bytes(hi).skip(0) =~= be_bytes(hi));
        assert(be_bytes(lo).skip(0) =~= be_bytes(lo));
    }
    r
}

/// The number of 128 bits that sixteen bytes stand for, most significant first.
pub fn u128_from_be_bytes(b: &[u8]) -> (x: u128)
    requires
        b@.len() == 16,
    ensures
        be_pair(upper_half(x as int), lower_half(x as int)) == b@,
{
    let hi_bytes: [u8; 8] = [b[0], b[1], b[2], b[3], b[4], b[5], b[6], b[7]];
    let lo_bytes: [u8; 8] = [b[8], b[9], b[10], b[11], b[12], b[13], b[14], b[15]];
    let hi = u64_from_be_bytes(&hi_bytes);
    let lo = u64_from_be_bytes(&lo_bytes);
    let x: u128 = hi as u128 * 0x1_0000_0000_0000_0000 + lo as u128;
    proof {
        lemma_div_step(x as int, 0x1_0000_0000_0000_0000, hi as int, lo as int);
        assert(hi_bytes@ + lo_bytes@ =~= b@);
    }
    x
}

impl KeyEnDeOrdered for u128 {
    open spec fn encoded(&self) -> Seq<u8> {
        be_pair(upper_half(*self as int), lower_half(*self as int))
    }

    open spec fn decodable(b: Seq<u8>) -> bool {
        b.len() == 16
    }

    fn to_bytes(&self) -> (r: Vec<u8>) {
        u128_to_be_bytes(*self)
    }

    fn into_bytes(self) -> (r: Vec<u8>) {
        u128_to_be_bytes(self)
    }

    fn from_slice(b: &[u8]) -> (r: Result<Self, VsError>) {
        if b.len() != 16 {
            return Err(VsError::InvalidArg);
        }
        Ok(u128_from_be_bytes(b))
    }

    fn from_bytes(b: Vec<u8>) -> (r: Result<Self, VsError>) {
        Self::from_slice(b.as_slice())
    }
}

/// A signed number of 128 bits as the number without sign that has the
/// same bits.
pub open spec fn same_bits(x: i128) -> int {
    if x < 0 {
        x + 0x1_0000_0000_0000_0000_0000_0000_0000_0000
    } else {
        x as int
    }
}

impl KeyEnDeOrdered for i128 {
    open spec fn encoded(&self) -> Seq<u8> {
        be_pair(upper_half(same_bits(*self)), lower_half(same_bits(*self)))
    }

    open spec fn decodable(b: Seq<u8>) -> bool {
        b.len() == 16
    }

    fn to_bytes(&self) -> (r: Vec<u8>) {
        let x = *self;
        let u: u128 = if x < 0 {
            ((x + i128::MAX) + 1) as u128 + 0x8000_0000_0000_0000_0000_0000_0000_0000
        } else {
            x as u128
        };
        u128_to_be_bytes(u)
    }

    fn into_bytes(self) -> (r: Vec<u8>) {
        self.to_bytes()
    }

    fn from_slice(b: &[u8]) -> (r: Result<Self, VsError>) {
        if b.len() != 16 {
            return Err(VsError::InvalidArg);
        }
        let u = u128_from_be_bytes(b);
        if u >= 0x8000_0000_0000_0000_0000_0000_0000_0000 {
            Ok((u - 0x8000_0000_0000_0000_0000_0000_0000_0000) as i128 + i128::MIN)
        } else {
            Ok(u as i128)
        }
    }

    fn from_bytes(b: Vec<u8>) -> (r: Result<Self, VsError>) {
        Self::from_slice(b.as_slice())
    }
}

impl KeyEnDeOrdered for usize {
    open spec fn encoded(&self) -> Seq<u8> {
        be_tail(*self as u64, (usize::BITS / 8) as nat)
    }

    open spec fn decodable(b: Seq<u8>) -> bool {
        b.len() == usize::BITS / 8
    }

    fn to_bytes(&self) -> (r: Vec<u8>) {
        to_be_tail(*self as u64, (usize::BITS / 8) as usize)
    }

    fn into_bytes(self) -> (r: Vec<u8>) {
        to_be_tail(self as u64, (usize::BITS / 8) as usize)
    }

    fn from_slice(b: &[u8]) -> (r: Result<Self, VsError>) {
        if b.len() != (usize::BITS / 8) as usize {
            return Err(VsError::InvalidArg);
        }
        let v = from_be_tail(b);
        Ok(v as usize)
    }

    fn from_bytes(b: Vec<u8>) -> (r: Result<Self, VsError>) {
        Self::from_slice(b.as_slice())
    }
}

/// The number of values of a machine word.
pub open spec fn word_values() -> int {
    if usize::BITS == 64 {
        0x1_0000_0000_0000_0000
    } else {
        0x1_0000_0000
    }
}

impl KeyEnDeOrdered for isize {
    open spec fn encoded(&self) -> Seq<u8> {
        be_tail(
            (if *self < 0 {
                *self + word_values()
            } else {
                *self as int
            }) as u64,
            (usize::BITS / 8) as nat,
        )
    }

    open spec fn decodable(b: Seq<u8>) -> bool {
        b.len() == usize::BITS / 8
    }

    fn to_bytes(&self) -> (r: Vec<u8>) {
        let t: i128 = *self as i128;
        let values: i128 = if usize::BITS == 64 {
            0x1_0000_0000_0000_0000
        } else {
            0x1_0000_0000
        };
        let u: u64 = if t < 0 {
            (t + values) as u64
        } else {
            t as u64
        };
        to_be_tail(u, (usize::BITS / 8) as usize)
    }

    fn into_bytes(self) -> (r: Vec<u8>) {
        self.to_bytes()
    }

    fn from_slice(b: &[u8]) -> (r: Result<Self, VsError>) {
        if b.len() != (usize::BITS / 8) as usize {
            return Err(VsError::InvalidArg);
        }
        let v = from_be_tail(b);
        let values: i128 = if usize::BITS == 64 {
            0x1_0000_0000_0000_0000
        } else {
            0x1_0000_0000
        };
        if v as i128 >= values / 2 {
            Ok((v as i128 - values) as isize)
        } else {
            Ok(v as isize)
        }
    }

    fn from_bytes(b: Vec<u8>) -> (r: Result<Self, VsError>) {
        Self::from_slice(b.as_slice())
    }
}

/// `String::from_utf8` of the standard library: the string whose bytes are
/// `b`. By its documentation it fails exactly if `b` is not well-formed
/// UTF-8, and the string that it gives holds the bytes as they are. This
/// contract is taken on trust.
#[verifier::external_body]
fn string_from_utf8(b: Vec<u8>) -> (r: Option<String>)
    ensures
        match r {
            Some(s) => vstd::utf8::valid_utf8(b@) && vstd::utf8::encode_utf8(s@) == b@,
            None => !vstd::utf8::valid_utf8(b@),
        },
{
    match String::from_utf8(b) {
        Ok(s) => Some(s),
        Err(_) => None,
    }
}

impl KeyEnDeOrdered for String {
    open spec fn encoded(&self) -> Seq<u8> {
        vstd::utf8::encode_utf8(self@)
    }

    open spec fn decodable(b: Seq<u8>) -> bool {
        vstd::utf8::valid_utf8(b)
    }

    fn to_bytes(&self) -> (r: Vec<u8>) {
        proof {
            vstd::utf8::encode_utf8_valid_utf8(self@);
        }
        copy_bytes(self.as_str().as_bytes())
    }

    fn into_bytes(self) -> (r: Vec<u8>) {
        self.to_bytes()
    }

    fn from_slice(b: &[u8]) -> (r: Result<Self, VsError>) {
        match string_from_utf8(copy_bytes(b)) {
            Some(s) => Ok(s),
            None => Err(VsError::InvalidArg),
        }
    }

    fn from_bytes(b: Vec<u8>) -> (r: Result<Self, VsError>) {
        match string_from_utf8(b) {
            Some(s) => Ok(s),
            None => Err(VsError::InvalidArg),
        }
    }
}

} // verus!
