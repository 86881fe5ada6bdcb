use vstd::prelude::*;

use crate::error::Error;
use vstd::endian::endianness;

verus! {

/// Order in which the bytes of a scalar lie in memory.
#[derive(Clone, Copy, Debug, PartialEq, Eq, Structural)]
pub enum ByteOrder {
    /// Least significant byte first.
    Little,
    /// Most significant byte first.
    Big,
}

/// `256` to the power `n`.
pub open spec fn pow256(n: nat) -> nat
    decreases n,
{
    if n == 0 {
        1
    } else {
        256 * pow256((n - 1) as nat)
    }
}

/// Unsigned value of bytes read least significant first.
pub open spec fn le_value(b: Seq<u8>) -> nat
    decreases b.len(),
{
    if b.len() == 0 {
        0
    } else {
        b[0] as nat + 256 * le_value(b.drop_first())
    }
}

/// The `len` lowest bytes of `n`, least significant first.
pub open spec fn le_bytes(n: nat, len: nat) -> Seq<u8>
    decreases len,
{
    if len == 0 {
        Seq::empty()
    } else {
        seq![(n % 256) as u8] + le_bytes(n / 256, (len - 1) as nat)
    }
}

/// Unsigned value of a byte sequence laid out in `order`.
pub open spec fn bytes_value(b: Seq<u8>, order: ByteOrder) -> nat {
    match order {
        ByteOrder::Little => le_value(b),
        ByteOrder::Big => le_value(b.reverse()),
    }
}

/// The `len` lowest bytes of `n`, laid out in `order`.
pub open spec fn value_bytes(n: nat, len: nat, order: ByteOrder) -> Seq<u8> {
    match order {
        ByteOrder::Little => le_bytes(n, len),
        ByteOrder::Big => le_bytes(n, len).reverse(),
    }
}

/// Value of the bit pattern `bits` of a `width`-byte integer, signed in two's
/// complement or unsigned.
pub open spec fn signed_value(bits: int, width: nat, signed: bool) -> int {
    if signed && bits >= pow256(width) / 2 {
        bits - pow256(width)
    } else {
        bits
    }
}

/// Bit pattern of the value `v` of a `width`-byte integer.
pub open spec fn unsigned_bits(v: int, width: nat) -> int {
    if v < 0 {
        v + pow256(width)
    } else {
        v
    }
}

/// Whether `v` is a value of a `width`-byte integer.
pub open spec fn in_range(v: int, width: nat, signed: bool) -> bool {
    if signed {
        -(pow256(width) / 2) <= v < pow256(width) / 2
    } else {
        0 <= v < pow256(width)
    }
}

/// The widths, in bytes, that a scalar can have.
pub open spec fn valid_width(w: nat) -> bool {
    w == 1 || w == 2 || w == 4 || w == 8
}

pub proof fn lemma_pow256_values()
    ensures
        pow256(0) == 1,
        pow256(1) == 256,
        pow256(2) == 0x1_0000,
        pow256(3) == 0x100_0000,
        pow256(4) == 0x1_0000_0000,
        pow256(5) == 0x100_0000_0000,
        pow256(6) == 0x1_0000_0000_0000,
        pow256(7) == 0x100_0000_0000_0000,
        pow256(8) == 0x1_0000_0000_0000_0000,
{
    reveal_with_fuel(pow256, 9);
}

pub proof fn lemma_pow256_monotone(a: nat, b: nat)
    requires
        a <= b,
    ensures
        pow256(a) <= pow256(b),
    decreases b,
{
    if a < b {
        lemma_pow256_monotone(a, (b - 1) as nat);
    }
}

pub proof fn lemma_le_value_bound(b: Seq<u8>)
    ensures
        le_value(b) < pow256(b.len()),
    decreases b.len(),
{
    if b.len() > 0 {
        lemma_le_value_bound(b.drop_first());
        let x = le_value(b.drop_first());
        let p = pow256(b.drop_first().len());
        assert(b[0] as nat + 256 * x < 256 * p) by (nonlinear_arith)
            requires
                x < p,
                b[0] < 256,
        ;
    }
}

pub proof fn lemma_le_bytes_len(n: nat, len: nat)
    ensures
        le_bytes(n, len).len() == len,
    decreases len,
{
    if len > 0 {
        lemma_le_bytes_len(n / 256, (len - 1) as nat);
    }
}

/// Reading back the bytes of a value gives the value.
pub proof fn lemma_le_value_of_bytes(n: nat, len: nat)
    requires
        n < pow256(len),
    ensures
        le_value(le_bytes(n, len)) == n,
    decreases len,
{
    if len > 0 {
        let rest = le_bytes(n / 256, (len - 1) as nat);
        assert(n / 256 < pow256((len - 1) as nat)) by (nonlinear_arith)
            requires
                n < 256 * pow256((len - 1) as nat),
        ;
        lemma_le_value_of_bytes(n / 256, (len - 1) as nat);
        assert(le_bytes(n, len).drop_first() =~= rest);
    }
}

/// Writing out the value of some bytes gives the bytes.
pub proof fn lemma_le_bytes_of_value(b: Seq<u8>)
    ensures
        le_bytes(le_value(b), b.len()) == b,
    decreases b.len(),
{
    if b.len() > 0 {
        let t = b.drop_first();
        lemma_le_bytes_of_value(t);
        let n = le_value(b);
        assert(n % 256 == b[0] as nat && n / 256 == le_value(t)) by (nonlinear_arith)
            requires
                n == b[0] as nat + 256 * le_value(t),
                b[0] < 256,
        ;
        assert(le_bytes(n, b.len()) =~= b);
    }
}

pub proof fn lemma_reverse_reverse(b: Seq<u8>)
    ensures
        b.reverse().reverse() == b,
        b.reverse().len() == b.len(),
{
    assert(b.reverse().reverse() =~= b);
}

/// Decoding the encoding of `n` in either order gives `n` back.
pub proof fn lemma_bytes_round_trip(n: nat, len: nat, order: ByteOrder)
    requires
        n < pow256(len),
    ensures
        value_bytes(n, len, order).len() == len,
        bytes_value(value_bytes(n, len, order), order) == n,
{
    lemma_le_bytes_len(n, len);
    lemma_le_value_of_bytes(n, len);
    lemma_reverse_reverse(le_bytes(n, len));
}

/// Encoding the value of some bytes in either order gives the bytes back.
pub proof fn lemma_value_round_trip(b: Seq<u8>, order: ByteOrder)
    ensures
        value_bytes(bytes_value(b, order), b.len(), order) == b,
        bytes_value(b, order) < pow256(b.len()),
{
    lemma_reverse_reverse(b);
    match order {
        ByteOrder::Little => {
            lemma_le_bytes_of_value(b);
            lemma_le_value_bound(b);
        },
        ByteOrder::Big => {
            lemma_le_bytes_of_value(b.reverse());
            lemma_le_value_bound(b.reverse());
        },
    }
}

/// Unsigned value of the `width` bytes of `bytes` that start at `offset`.
fn read_bits(bytes: &[u8], offset: usize, width: usize, order: ByteOrder) -> (r: u64)
    requires
        1 <= width <= 8,
        offset + width <= bytes@.len(),
    ensures
        r == bytes_value(bytes@.subrange(offset as int, offset + width), order),
{
    let ghost s = bytes@.subrange(offset as int, offset + width);
    let n = bytes.len();
    proof {
        lemma_pow256_values();
        lemma_pow256_monotone(width as nat, 8);
    }
    let mut acc: u64 = 0;
    match order {
        ByteOrder::Little => {
            let mut j: usize = width;
            while j > 0
                invariant
                    j <= width <= 8,
                    offset + width <= n,
                    n == bytes@.len(),
                    s == bytes@.subrange(offset as int, offset + width),
                    acc == le_value(s.subrange(j as int, width as int)),
                    pow256(width as nat) <= pow256(8),
                    pow256(8) == 0x1_0000_0000_0000_0000,
                decreases j,
            {
                let ghost tail = s.subrange(j as int, width as int);
                let ghost next = s.subrange(j - 1, width as int);
                proof {
                    assert(next.drop_first() =~= tail);
                    lemma_le_value_bound(tail);
                    lemma_pow256_monotone((width - j) as nat, 7);
                    assert(acc * 256 + 255 < 0x1_0000_0000_0000_0000) by (nonlinear_arith)
                        requires
                            acc < pow256((width - j) as nat),
                            pow256((width - j) as nat) <= pow256(7),
                            pow256(7) == 0x100_0000_0000_0000,
                    ;
                }
                acc = acc * 256 + bytes[offset + j - 1] as u64;
                j = j - 1;
            }
            assert(s.subrange(0, width as int) =~= s);
        },
        ByteOrder::Big => {
            let mut j: usize = 0;
            while j < width
                invariant
                    j <= width <= 8,
                    offset + width <= n,
                    n == bytes@.len(),
                    s == bytes@.subrange(offset as int, offset + width),
                    acc == le_value(s.subrange(0, j as int).reverse()),
                decreases width - j,
            {
                let ghost head = s.subrange(0, j as int).reverse();
                let ghost next = s.subrange(0, j + 1).reverse();
                proof {
                    assert(next.drop_first() =~= head);
                    lemma_le_value_bound(head);
                    lemma_pow256_values();
                    lemma_pow256_monotone(j as nat, 7);
                    assert(acc * 256 + 255 < 0x1_0000_0000_0000_0000) by (nonlinear_arith)
                        requires
                            acc < pow256(j as nat),
                            pow256(j as nat) <= pow256(7),
                            pow256(7) == 0x100_0000_0000_0000,
                    ;
                }
                acc = acc * 256 + bytes[offset + j] as u64;
                j = j + 1;
            }
            assert(s.subrange(0, width as int) =~= s);
        },
    }
    acc
}

/// The `width` lowest bytes of `bits`, laid out in `order`.
fn write_bits(bits: u64, width: usize, order: ByteOrder) -> (r: Vec<u8>)
    requires
        1 <= width <= 8,
    ensures
        r@ == value_bytes(bits as nat, width as nat, order),
{
    let mut out: Vec<u8> = Vec::new();
    let mut x: u64 = bits;
    let mut k: usize = 0;
    while k < width
        invariant
            k <= width,
            out@ + le_bytes(x as nat, (width - k) as nat) == le_bytes(bits as nat, width as nat),
        decreases width - k,
    {
        let ghost rest = le_bytes(x as nat, (width - k) as nat);
        proof {
            assert(rest == seq![(x % 256) as u8] + le_bytes((x / 256) as nat, (width - k - 1) as nat));
            assert(out@.push((x % 256) as u8) + le_bytes((x / 256) as nat, (width - k - 1) as nat)
                =~= out@ + rest);
        }
        out.push((x % 256) as u8);
        x = x / 256;
        k = k + 1;
    }
    assert(out@ =~= out@ + le_bytes(x as nat, 0));
    match order {
        ByteOrder::Little => out,
        ByteOrder::Big => {
            let ghost le = out@;
            proof {
                lemma_le_bytes_len(bits as nat, width as nat);
            }
            let mut rev: Vec<u8> = Vec::new();
            let mut k: usize = 0;
            while k < width
                invariant
                    k <= width,
                    out@ == le,
                    le.len() == width,
                    rev@ == le.reverse().subrange(0, k as int),
                decreases width - k,
            {
                rev.push(out[width - 1 - k]);
                k = k + 1;
                assert(rev@ =~= le.reverse().subrange(0, k as int));
            }
            assert(le.reverse().subrange(0, width as int) =~= le.reverse());
            rev
        },
    }
}

/// A fixed-width integer type that the engines search memory for.
pub trait Scalar: Sized + Copy {
    /// Width of the type in bytes.
    spec fn width() -> nat;

    /// Whether the type is signed, in two's complement.
    spec fn signed() -> bool;

    /// The value as a mathematical integer.
    spec fn value(self) -> int;

    /// The width is a supported one.
    proof fn lemma_width()
        ensures
            valid_width(Self::width()),
    ;

    /// Every value lies in the type's range.
    proof fn lemma_range(x: Self)
        ensures
            valid_width(Self::width()),
            in_range(x.value(), Self::width(), Self::signed()),
    ;

    /// A value is determined by its mathematical value.
    proof fn lemma_injective(x: Self, y: Self)
        ensures
            x.value() == y.value() ==> x == y,
    ;

    /// Width of the type in bytes.
    fn byte_width() -> (r: usize)
        ensures
            r as nat == Self::width(),
    ;

    /// The value whose bit pattern is `bits`.
    fn from_bits(bits: u64) -> (r: Self)
        requires
            bits < pow256(Self::width()),
        ensures
            r.value() == signed_value(bits as int, Self::width(), Self::signed()),
    ;

    /// The bit pattern of the value.
    fn to_bits(self) -> (r: u64)
        ensures
            r == unsigned_bits(self.value(), Self::width()),
    ;

    /// Whether the two values are equal.
    fn same(self, other: Self) -> (r: bool)
        ensures
            r == (self.value() == other.value()),
    ;

    /// Whether `self` is less than `other`.
    fn less(self, other: Self) -> (r: bool)
        ensures
            r == (self.value() < other.value()),
    ;
}

impl Scalar for u8 {
    open spec fn width() -> nat {
        1
    }

    open spec fn signed() -> bool {
        false
    }

    open spec fn value(self) -> int {
        self as int
    }

    proof fn lemma_width() {
    }

    proof fn lemma_range(x: Self) {
        lemma_pow256_values();
    }

    proof fn lemma_injective(x: Self, y: Self) {
    }

    fn byte_width() -> (r: usize) {
        1
    }

    fn from_bits(bits: u64) -> (r: Self) {
        proof {
            lemma_pow256_values();
        }
        bits as u8
    }

    fn to_bits(self) -> (r: u64) {
        self as u64
    }

    fn same(self, other: Self) -> (r: bool) {
        self == other
    }

    fn less(self, other: Self) -> (r: bool) {
        self < other
    }
}

impl Scalar for u16 {
    open spec fn width() -> nat {
        2
    }

    open spec fn signed() -> bool {
        false
    }

    open spec fn value(self) -> int {
        self as int
    }

    proof fn lemma_width() {
    }

    proof fn lemma_range(x: Self) {
        lemma_pow256_values();
    }

    proof fn lemma_injective(x: Self, y: Self) {
    }

    fn byte_width() -> (r: usize) {
        2
    }

    fn from_bits(bits: u64) -> (r: Self) {
        proof {
            lemma_pow256_values();
        }
        bits as u16
    }

    fn to_bits(self) -> (r: u64) {
        self as u64
    }

    fn same(self, other: Self) -> (r: bool) {
        self == other
    }

    fn less(self, other: Self) -> (r: bool) {
        self < other
    }
}

impl Scalar for u32 {
    open spec fn width() -> nat {
        4
    }

    open spec fn signed() -> bool {
        false
    }

    open spec fn value(self) -> int {
        self as int
    }

    proof fn lemma_width() {
    }

    proof fn lemma_range(x: Self) {
        lemma_pow256_values();
    }

    proof fn lemma_injective(x: Self, y: Self) {
    }

    fn byte_width() -> (r: usize) {
        4
    }

    fn from_bits(bits: u64) -> (r: Self) {
        proof {
            lemma_pow256_values();
        }
        bits as u32
    }

    fn to_bits(self) -> (r: u64) {
        self as u64
    }

    fn same(self, other: Self) -> (r: bool) {
        self == other
    }

    fn less(self, other: Self) -> (r: bool) {
        self < other
    }
}

impl Scalar for u64 {
    open spec fn width() -> nat {
        8
    }

    open spec fn signed() -> bool {
        false
    }

    open spec fn value(self) -> int {
        self as int
    }

    proof fn lemma_width() {
    }

    proof fn lemma_range(x: Self) {
        lemma_pow256_values();
    }

    proof fn lemma_injective(x: Self, y: Self) {
    }

    fn byte_width() -> (r: usize) {
        8
    }

    fn from_bits(bits: u64) -> (r: Self) {
        proof {
            lemma_pow256_values();
        }
        bits as u64
    }

    fn to_bits(self) -> (r: u64) {
        self as u64
    }

    fn same(self, other: Self) -> (r: bool) {
        self == other
    }

    fn less(self, other: Self) -> (r: bool) {
        self < other
    }
}

impl Scalar for usize {
    open spec fn width() -> nat {
        (usize::BITS / 8) as nat
    }

    open spec fn signed() -> bool {
        false
    }

    open spec fn value(self) -> int {
        self as int
    }

    proof fn lemma_width() {
    }

    proof fn lemma_range(x: Self) {
        lemma_pow256_values();
    }

    proof fn lemma_injective(x: Self, y: Self) {
    }

    fn byte_width() -> (r: usize) {
        (usize::BITS / 8) as usize
    }

    fn from_bits(bits: u64) -> (r: Self) {
        proof {
            lemma_pow256_values();
        }
        bits as usize
    }

    fn to_bits(self) -> (r: u64) {
        self as u64
    }

    fn same(self, other: Self) -> (r: bool) {
        self == other
    }

    fn less(self, other: Self) -> (r: bool) {
        self < other
    }
}

impl Scalar for i8 {
    open spec fn width() -> nat {
        1
    }

    open spec fn signed() -> bool {
        true
    }

    open spec fn value(self) -> int {
        self as int
    }

    proof fn lemma_width() {
    }

    proof fn lemma_range(x: Self) {
        lemma_pow256_values();
    }

    proof fn lemma_injective(x: Self, y: Self) {
    }

    fn byte_width() -> (r: usize) {
        1
    }

    fn from_bits(bits: u64) -> (r: Self) {
        proof {
            lemma_pow256_values();
        }
        if bits < 0x80 {
            bits as i8
        } else {
            (bits as i16 - 0x100) as i8
        }
    }

    fn to_bits(self) -> (r: u64) {
        proof {
            lemma_pow256_values();
        }
        if self >= 0 {
            self as u64
        } else {
            (self as i16 + 0x100) as u64
        }
    }

    fn same(self, other: Self) -> (r: bool) {
        self == other
    }

    fn less(self, other: Self) -> (r: bool) {
        self < other
    }
}

impl Scalar for i16 {
    open spec fn width() -> nat {
        2
    }

    open spec fn signed() -> bool {
        true
    }

    open spec fn value(self) -> int {
        self as int
    }

    proof fn lemma_width() {
    }

    proof fn lemma_range(x: Self) {
        lemma_pow256_values();
    }

    proof fn lemma_injective(x: Self, y: Self) {
    }

    fn byte_width() -> (r: usize) {
        2
    }

    fn from_bits(bits: u64) -> (r: Self) {
        proof {
            lemma_pow256_values();
        }
        if bits < 0x8000 {
            bits as i16
        } else {
            (bits as i32 - 0x1_0000) as i16
        }
    }

    fn to_bits(self) -> (r: u64) {
        proof {
            lemma_pow256_values();
        }
        if self >= 0 {
            self as u64
        } else {
            (self as i32 + 0x1_0000) as u64
        }
    }

    fn same(self, other: Self) -> (r: bool) {
        self == other
    }

    fn less(self, other: Self) -> (r: bool) {
        self < other
    }
}

impl Scalar for i32 {
    open spec fn width() -> nat {
        4
    }

    open spec fn signed() -> bool {
        true
    }

    open spec fn value(self) -> int {
        self as int
    }

    proof fn lemma_width() {
    }

    proof fn lemma_range(x: Self) {
        lemma_pow256_values();
    }

    proof fn lemma_injective(x: Self, y: Self) {
    }

    fn byte_width() -> (r: usize) {
        4
    }

    fn from_bits(bits: u64) -> (r: Self) {
        proof {
            lemma_pow256_values();
        }
        if bits < 0x8000_0000 {
            bits as i32
        } else {
            (bits as i64 - 0x1_0000_0000) as i32
        }
    }

    fn to_bits(self) -> (r: u64) {
        proof {
            lemma_pow256_values();
        }
        if self >= 0 {
            self as u64
        } else {
            (self as i64 + 0x1_0000_0000) as u64
        }
    }

    fn same(self, other: Self) -> (r: bool) {
        self == other
    }

    fn less(self, other: Self) -> (r: bool) {
        self < other
    }
}

impl Scalar for i64 {
    open spec fn width() -> nat {
        8
    }

    open spec fn signed() -> bool {
        true
    }

    open spec fn value(self) -> int {
        self as int
    }

    proof fn lemma_width() {
    }

    proof fn lemma_range(x: Self) {
        lemma_pow256_values();
    }

    proof fn lemma_injective(x: Self, y: Self) {
    }

    fn byte_width() -> (r: usize) {
        8
    }

    fn from_bits(bits: u64) -> (r: Self) {
        proof {
            lemma_pow256_values();
        }
        if bits < 0x8000_0000_0000_0000 {
            bits as i64
        } else {
            -((u64::MAX - bits) as i64) - 1
        }
    }

    fn to_bits(self) -> (r: u64) {
        proof {
            lemma_pow256_values();
        }
        if self >= 0 {
            self as u64
        } else {
            ((self + i64::MAX + 1) as u64) + 0x8000_0000_0000_0000
        }
    }

    fn same(self, other: Self) -> (r: bool) {
        self == other
    }

    fn less(self, other: Self) -> (r: bool) {
        self < other
    }
}

impl Scalar for isize {
    open spec fn width() -> nat {
        (usize::BITS / 8) as nat
    }

    open spec fn signed() -> bool {
        true
    }

    open spec fn value(self) -> int {
        self as int
    }

    proof fn lemma_width() {
    }

    proof fn lemma_range(x: Self) {
        lemma_pow256_values();
    }

    proof fn lemma_injective(x: Self, y: Self) {
    }

    fn byte_width() -> (r: usize) {
        (usize::BITS / 8) as usize
    }

    fn from_bits(bits: u64) -> (r: Self) {
        proof {
            lemma_pow256_values();
        }
        if bits <= isize::MAX as u64 {
            bits as isize
        } else {
            -((usize::MAX as u64 - bits) as isize) - 1
        }
    }

    fn to_bits(self) -> (r: u64) {
        proof {
            lemma_pow256_values();
        }
        if self >= 0 {
            self as u64
        } else {
            ((self + isize::MAX + 1) as u64) + (isize::MAX as u64) + 1
        }
    }

    fn same(self, other: Self) -> (r: bool) {
        self == other
    }

    fn less(self, other: Self) -> (r: bool) {
        self < other
    }
}

/// Value of type `T` that the bytes `b` encode in `order`.
pub open spec fn decoded_value<T: Scalar>(b: Seq<u8>, order: ByteOrder) -> int {
    signed_value(bytes_value(b, order) as int, T::width(), T::signed())
}

/// The bytes of `v` in `order`.
pub open spec fn encoding<T: Scalar>(v: T, order: ByteOrder) -> Seq<u8> {
    value_bytes(unsigned_bits(v.value(), T::width()) as nat, T::width(), order)
}

/// Decodes the value of type `T` held by the bytes of `bytes` at `offset`.
pub fn decode_at<T: Scalar>(bytes: &[u8], offset: usize, order: ByteOrder) -> (r: T)
    requires
        offset + T::width() <= bytes@.len(),
    ensures
        r.value() == decoded_value::<T>(bytes@.subrange(offset as int, offset + T::width()), order),
{
    let width = T::byte_width();
    proof {
        T::lemma_width();
        lemma_value_round_trip(bytes@.subrange(offset as int, offset + width), order);
        lemma_pow256_values();
    }
    let bits = read_bits(bytes, offset, width, order);
    T::from_bits(bits)
}

/// Decodes a scalar from exactly its width of bytes, laid out in `order`.
pub fn decode<T: Scalar>(bytes: &[u8], order: ByteOrder) -> (r: Result<T, Error>)
    ensures
        bytes@.len() == T::width() <==> r is Ok,
        r matches Ok(v) ==> v.value() == decoded_value::<T>(bytes@, order),
        r matches Err(e) ==> e == Error::InvalidLength,
{
    if bytes.len() != T::byte_width() {
        return Err(Error::InvalidLength);
    }
    let v = decode_at::<T>(bytes, 0, order);
    assert(bytes@.subrange(0, bytes@.len() as int) =~= bytes@);
    Ok(v)
}

/// Encodes a scalar as exactly its width of bytes, laid out in `order`.
pub fn encode<T: Scalar>(value: T, order: ByteOrder) -> (r: Vec<u8>)
    ensures
        r@ == encoding(value, order),
        r@.len() == T::width(),
{
    let width = T::byte_width();
    proof {
        T::lemma_range(value);
        lemma_pow256_values();
    }
    let bits = value.to_bits();
    let r = write_bits(bits, width, order);
    proof {
        lemma_bytes_round_trip(bits as nat, width as nat, order);
    }
    r
}

/// Decoding the encoding of any value of any supported width, in either byte
/// order, gives the value back.
pub proof fn lemma_decode_encode<T: Scalar>(v: T, order: ByteOrder)
    ensures
        encoding(v, order).len() == T::width(),
        decoded_value::<T>(encoding(v, order), order) == v.value(),
        forall|x: T| x.value() == v.value() ==> x == v,
{
    T::lemma_range(v);
    lemma_pow256_values();
    let bits = unsigned_bits(v.value(), T::width());
    lemma_bytes_round_trip(bits as nat, T::width(), order);
    assert forall|x: T| x.value() == v.value() implies x == v by {
        T::lemma_injective(x, v);
    }
}

/// Relies on `u16::to_ne_bytes`: the two bytes of `v` in the host's byte
/// order: least significant byte first on a little-endian machine, most
/// significant first on a big-endian one.
#[verifier::external_body]
fn u16_native_bytes(v: u16) -> (r: [u8; 2])
    ensures
        endianness() is Little ==> r@ == seq![(v % 256) as u8, (v / 256) as u8],
        endianness() is Big ==> r@ == seq![(v / 256) as u8, (v % 256) as u8],
{
    v.to_ne_bytes()
}

/// The byte order of the hardware the library runs on.
pub open spec fn native_order() -> ByteOrder {
    if endianness() is Little {
        ByteOrder::Little
    } else {
        ByteOrder::Big
    }
}

/// Byte order of the host, which is the order of the processes it runs.
pub fn host_byte_order() -> (r: ByteOrder)
    ensures
        r == native_order(),
{
    let probe = u16_native_bytes(1);
    if probe[0] == 1 {
        ByteOrder::Little
    } else {
        ByteOrder::Big
    }
}

} // verus!
