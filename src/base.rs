//! Fixed-width unsigned integers behind one interface.
use vstd::arithmetic::div_mod::{
    lemma_div_denominator, lemma_fundamental_div_mod, lemma_mod_add_multiples_vanish,
    lemma_mod_multiples_vanish, lemma_small_mod,
};
use ethnum::U256;
use vstd::prelude::*;

verus! {

/// `256^n`: the number of values that `n` bytes can hold.
pub open spec fn pow256(n: nat) -> nat
    decreases n,
{
    if n == 0 {
        1
    } else {
        256 * pow256((n - 1) as nat)
    }
}

/// The number that a byte sequence denotes, most significant byte first.
pub open spec fn be_value(b: Seq<u8>) -> nat
    decreases b.len(),
{
    if b.len() == 0 {
        0
    } else {
        be_value(b.drop_last()) * 256 + b.last() as nat
    }
}

/// The low `n` bytes of `v`, most significant first.
pub open spec fn be_encode(v: nat, n: nat) -> Seq<u8> {
    Seq::new(n, |k: int| ((v / pow256((n - 1 - k) as nat)) % 256) as u8)
}

/// The low `n` bytes of `v`, least significant first.
pub open spec fn le_encode(v: nat, n: nat) -> Seq<u8> {
    be_encode(v, n).reverse()
}

/// `n` zero bytes.
pub open spec fn zero_bytes(n: nat) -> Seq<u8> {
    Seq::new(n, |k: int| 0u8)
}

/// The 32-byte big-endian image of an `n`-byte value: zeros, then its bytes.
pub open spec fn fixed_be(v: nat, n: nat) -> Seq<u8> {
    zero_bytes((32 - n) as nat) + be_encode(v, n)
}

/// The 32-byte little-endian image of an `n`-byte value: its bytes, then zeros.
pub open spec fn fixed_le(v: nat, n: nat) -> Seq<u8> {
    le_encode(v, n) + zero_bytes((32 - n) as nat)
}

/// Addition on `n`-byte values, modulo `256^n`.
pub open spec fn wrap_add(x: nat, y: nat, n: nat) -> nat {
    (x + y) % pow256(n)
}

/// Subtraction on `n`-byte values, modulo `256^n`.
pub open spec fn wrap_sub(x: nat, y: nat, n: nat) -> nat {
    if y <= x {
        (x - y) as nat
    } else {
        (pow256(n) + x - y) as nat
    }
}

/// Multiplication on `n`-byte values, modulo `256^n`.
pub open spec fn wrap_mul(x: nat, y: nat, n: nat) -> nat {
    (x * y) % pow256(n)
}

pub proof fn lemma_pow256_positive(n: nat)
    ensures
        pow256(n) > 0,
    decreases n,
{
    if n > 0 {
        lemma_pow256_positive((n - 1) as nat);
    }
}

pub proof fn lemma_pow256_monotonic(a: nat, b: nat)
    requires
        a <= b,
    ensures
        pow256(a) <= pow256(b),
    decreases b,
{
    if a < b {
        lemma_pow256_monotonic(a, (b - 1) as nat);
    }
}

pub proof fn lemma_pow256_add(a: nat, b: nat)
    ensures
        pow256(a + b) == pow256(a) * pow256(b),
    decreases b,
{
    if b > 0 {
        lemma_pow256_add(a, (b - 1) as nat);
        assert(pow256(a + b) == 256 * pow256((a + b - 1) as nat));
        assert(pow256(a) * pow256(b) == pow256(a) * (256 * pow256((b - 1) as nat)));
        assert(pow256(a) * (256 * pow256((b - 1) as nat)) == 256 * (pow256(a) * pow256(
            (b - 1) as nat,
        ))) by (nonlinear_arith);
    } else {
        assert(pow256(0) == 1);
    }
}

/// A `u64` is its own remainder modulo any bound above it.
pub proof fn lemma_small_mod_u64(x: u64, m: nat)
    requires
        x < m,
    ensures
        x as nat % m == x as nat,
{
    lemma_small_mod(x as nat, m);
}

/// The widths that the library provides, as plain numbers.
pub proof fn lemma_pow256_widths()
    ensures
        pow256(2) == 0x1_0000,
        pow256(4) == 0x1_0000_0000,
        pow256(8) == 0x1_0000_0000_0000_0000,
        pow256(16) == 0x1_0000_0000_0000_0000_0000_0000_0000_0000,
        pow256(32) == pow256(16) * pow256(16),
{
    reveal_with_fuel(pow256, 17);
    lemma_pow256_add(16, 16);
}

pub proof fn lemma_be_value_bound(b: Seq<u8>)
    ensures
        be_value(b) < pow256(b.len()),
    decreases b.len(),
{
    if b.len() > 0 {
        let p = b.drop_last();
        lemma_be_value_bound(p);
        let v = be_value(p);
        let m = pow256(p.len());
        assert(v * 256 + b.last() < m * 256) by (nonlinear_arith)
            requires
                v < m,
                b.last() < 256,
        ;
    }
}

/// Appending a byte to the sequence multiplies its value by 256 and adds the byte.
pub proof fn lemma_be_value_push(b: Seq<u8>, x: u8)
    ensures
        be_value(b.push(x)) == be_value(b) * 256 + x,
{
    assert(b.push(x).drop_last() == b);
}

/// The first `i + 1` bytes are the first `i` bytes and one more.
pub proof fn lemma_be_value_prefix(b: Seq<u8>, i: int)
    requires
        0 <= i < b.len(),
    ensures
        be_value(b.subrange(0, i + 1)) == be_value(b.subrange(0, i)) * 256 + b[i],
{
    assert(b.subrange(0, i + 1) == b.subrange(0, i).push(b[i]));
    lemma_be_value_push(b.subrange(0, i), b[i]);
}

proof fn lemma_div_pow256_step(v: nat, m: nat)
    ensures
        v / pow256(m + 1) == (v / pow256(m)) / 256,
{
    lemma_pow256_positive(m);
    lemma_div_denominator(v as int, pow256(m) as int, 256);
    assert(pow256(m + 1) == pow256(m) * 256);
}

/// Encoding `n` bytes is encoding the `n - 1` high bytes, then the lowest one.
pub proof fn lemma_be_encode_step(v: nat, n: nat)
    requires
        n > 0,
    ensures
        be_encode(v, n) == be_encode(v / 256, (n - 1) as nat).push((v % 256) as u8),
{
    let a = be_encode(v, n);
    let b = be_encode(v / 256, (n - 1) as nat).push((v % 256) as u8);
    assert forall|k: int| 0 <= k < n implies a[k] == b[k] by {
        if k < n - 1 {
            let m = (n - 2 - k) as nat;
            lemma_pow256_positive(m);
            lemma_div_denominator(v as int, 256, pow256(m) as int);
            assert(pow256(m + 1) == 256 * pow256(m));
            assert((n - 1 - k) as nat == m + 1);
            assert(a[k] == ((v / pow256(m + 1)) % 256) as u8);
            assert(b[k] == (((v / 256) / pow256(m)) % 256) as u8);
        } else {
            assert(pow256(0) == 1);
            assert((n - 1 - k) as nat == 0);
        }
    }
    assert(a =~= b);
}

/// Decoding the encoding of a value that fits gives the value back.
pub proof fn lemma_be_encode_value(v: nat, n: nat)
    requires
        v < pow256(n),
    ensures
        be_value(be_encode(v, n)) == v,
    decreases n,
{
    if n == 0 {
        assert(be_encode(v, n).len() == 0);
    } else {
        lemma_be_encode_step(v, n);
        assert(v / 256 < pow256((n - 1) as nat)) by {
            lemma_fundamental_div_mod(v as int, 256);
        }
        lemma_be_encode_value(v / 256, (n - 1) as nat);
        lemma_be_value_push(be_encode(v / 256, (n - 1) as nat), (v % 256) as u8);
        lemma_fundamental_div_mod(v as int, 256);
    }
}

/// Encoding the value of a byte sequence gives the sequence back.
pub proof fn lemma_be_value_encode(b: Seq<u8>)
    ensures
        be_encode(be_value(b), b.len()) == b,
    decreases b.len(),
{
    if b.len() == 0 {
        assert(be_encode(be_value(b), 0) =~= b);
    } else {
        let p = b.drop_last();
        let v = be_value(b);
        lemma_be_value_encode(p);
        lemma_be_encode_step(v, b.len());
        let x = b.last() as int;
        let q = be_value(p) as int;
        assert(v == q * 256 + x);
        assert(v / 256 == q && v % 256 == x) by {
            vstd::arithmetic::div_mod::lemma_fundamental_div_mod_converse(v as int, 256, q, x);
        }
        assert(b == p.push(b.last()));
    }
}

/// The bytes `b@` turned into an integer, most significant first.
fn be_bytes_to_u128(b: &[u8]) -> (r: u128)
    requires
        b@.len() <= 16,
    ensures
        r == be_value(b@),
{
    let mut acc: u128 = 0;
    let mut i: usize = 0;
    while i < b.len()
        invariant
            b@.len() <= 16,
            i <= b@.len(),
            acc == be_value(b@.subrange(0, i as int)),
            acc < pow256(i as nat),
        decreases b@.len() - i,
    {
        proof {
            lemma_be_value_prefix(b@, i as int);
            lemma_pow256_monotonic((i + 1) as nat, 16);
            lemma_pow256_widths();
            assert(acc * 256 + b@[i as int] < pow256(i as nat) * 256) by (nonlinear_arith)
                requires
                    acc < pow256(i as nat),
                    b@[i as int] < 256,
            ;
        }
        acc = acc * 256 + b[i] as u128;
        i = i + 1;
    }
    assert(b@.subrange(0, i as int) == b@);
    acc
}

/// The low `N` bytes of `v`, most significant first.
fn u128_to_be_array<const N: usize>(v: u128) -> (r: [u8; N])
    ensures
        r@ == be_encode(v as nat, N as nat),
{
    let mut r = [0u8; N];
    let mut x: u128 = v;
    let mut i: usize = N;
    assert(pow256(0) == 1);
    assert(v as nat / pow256(0) == v as nat);
    while i > 0
        invariant
            i <= N,
            r@.len() == N,
            x == v as nat / pow256((N - i) as nat),
            forall|k: int| i <= k < N ==> r@[k] == be_encode(v as nat, N as nat)[k],
        decreases i,
    {
        proof {
            lemma_div_pow256_step(v as nat, (N - i) as nat);
        }
        i = i - 1;
        r.set(i, (x % 256) as u8);
        x = x / 256;
    }
    assert(r@ =~= be_encode(v as nat, N as nat));
    r
}

/// `b` in the last `N` bytes of a 32-byte buffer, zeros before it.
fn pad_be<const N: usize>(b: &[u8; N]) -> (r: [u8; 32])
    requires
        N <= 32,
    ensures
        r@ == zero_bytes((32 - N) as nat) + b@,
{
    let mut r = [0u8; 32];
    let mut i: usize = 0;
    while i < N
        invariant
            N <= 32,
            i <= N,
            r@.len() == 32,
            forall|k: int| 0 <= k < 32 - N ==> r@[k] == 0u8,
            forall|k: int| 0 <= k < i ==> r@[32 - N + k] == b@[k],
            forall|k: int| 32 - N + i <= k < 32 ==> r@[k] == 0u8,
        decreases N - i,
    {
        r.set(32 - N + i, b[i]);
        i = i + 1;
    }
    assert(r@ =~= zero_bytes((32 - N) as nat) + b@);
    r
}

/// `b` reversed in the first `N` bytes of a 32-byte buffer, zeros after it.
fn pad_le<const N: usize>(b: &[u8; N]) -> (r: [u8; 32])
    requires
        N <= 32,
    ensures
        r@ == b@.reverse() + zero_bytes((32 - N) as nat),
{
    let mut r = [0u8; 32];
    let mut i: usize = 0;
    while i < N
        invariant
            N <= 32,
            i <= N,
            r@.len() == 32,
            forall|k: int| 0 <= k < i ==> r@[k] == b@[N - 1 - k],
            forall|k: int| i <= k < 32 ==> r@[k] == 0u8,
        decreases N - i,
    {
        r.set(i, b[N - 1 - i]);
        i = i + 1;
    }
    assert(r@ =~= b@.reverse() + zero_bytes((32 - N) as nat));
    r
}

/// A memory address or value: an unsigned integer of exactly `S` bytes.
///
/// Arithmetic stays within the width: it wraps modulo `256^S`, and division
/// and remainder ask for a nonzero divisor.
pub trait Base<const S: usize>: Sized + Copy {
    /// The number held.
    spec fn value(&self) -> nat;

    /// Every value fits in `S` bytes.
    proof fn lemma_value_bounded(&self)
        ensures
            self.value() < pow256(S as nat),
    ;

    /// The largest value, `256^S - 1`.
    fn max_value() -> (r: Self)
        ensures
            r.value() == pow256(S as nat) - 1,
    ;

    /// The smallest value, zero.
    fn min_value() -> (r: Self)
        ensures
            r.value() == 0,
    ;

    /// The additive identity.
    fn zero() -> (r: Self)
        ensures
            r.value() == 0,
    ;

    /// Whether the value is zero.
    fn is_zero(&self) -> (r: bool)
        ensures
            r == (self.value() == 0),
    ;

    /// The value big-endian in 32 bytes, zero-padded in front.
    fn fixed_be_bytes(&self) -> (r: [u8; 32])
        ensures
            r@ == fixed_be(self.value(), S as nat),
    ;

    /// The value little-endian in 32 bytes, zero-padded behind.
    fn fixed_le_bytes(&self) -> (r: [u8; 32])
        ensures
            r@ == fixed_le(self.value(), S as nat),
    ;

    /// The value whose big-endian bytes are `b`.
    fn from_bytes(b: [u8; S]) -> (r: Self)
        ensures
            r.value() == be_value(b@),
    ;

    /// The `S` big-endian bytes of the value.
    fn to_bytes(&self) -> (r: [u8; S])
        ensures
            r@ == be_encode(self.value(), S as nat),
    ;

    /// Sum, modulo `256^S`.
    fn add(self, rhs: Self) -> (r: Self)
        ensures
            r.value() == wrap_add(self.value(), rhs.value(), S as nat),
    ;

    /// Difference, modulo `256^S`.
    fn sub(self, rhs: Self) -> (r: Self)
        ensures
            r.value() == wrap_sub(self.value(), rhs.value(), S as nat),
    ;

    /// Product, modulo `256^S`.
    fn mul(self, rhs: Self) -> (r: Self)
        ensures
            r.value() == wrap_mul(self.value(), rhs.value(), S as nat),
    ;

    /// Quotient, rounded down.
    fn div(self, rhs: Self) -> (r: Self)
        requires
            rhs.value() != 0,
        ensures
            r.value() == self.value() / rhs.value(),
    ;

    /// Remainder of the division.
    fn rem(self, rhs: Self) -> (r: Self)
        requires
            rhs.value() != 0,
        ensures
            r.value() == self.value() % rhs.value(),
    ;

    /// The value of `v` in this width: its low `S` bytes.
    fn from_u64(v: u64) -> (r: Self)
        ensures
            r.value() == v as nat % pow256(S as nat),
    ;

    /// The low 8 bytes of the value.
    fn to_u64(&self) -> (r: u64)
        ensures
            r as nat == self.value() % pow256(8),
    ;
}

/// Conversion between a [`Base`] value and `usize`.
pub trait UIntConvertible<const S: usize>: Base<S> {
    /// The value of `value` in this width: its low `S` bytes.
    fn from_usize(value: usize) -> (r: Self)
        ensures
            r.value() == value as nat % pow256(S as nat),
    ;

    /// The value truncated to `usize`.
    fn to_usize(&self) -> (r: usize)
        ensures
            r as nat == self.value() % (usize::MAX as nat + 1),
    ;
}

/// A fixed-width unsigned integer: `T` is the representation.
#[derive(Clone, Copy, PartialEq, Eq, PartialOrd, Ord, Debug)]
pub struct Uint<T>(pub T);

/// A 32-byte unsigned integer, `hi * 2^128 + lo`.
#[derive(Clone, Copy, PartialEq, Eq, PartialOrd, Ord, Debug)]
pub struct Word256 {
    pub hi: u128,
    pub lo: u128,
}

impl View for Word256 {
    type V = nat;

    open spec fn view(&self) -> nat {
        self.hi as nat * pow256(16) + self.lo as nat
    }
}

proof fn lemma_word256_bounded(w: Word256)
    ensures
        w@ < pow256(32),
{
    lemma_pow256_widths();
    let m = pow256(16);
    assert((w.hi as nat) * m + (w.lo as nat) < m * m) by (nonlinear_arith)
        requires
            w.hi < m,
            w.lo < m,
    ;
}

/// Relies on ethnum's `U256::from_be_bytes`: the number whose big-endian
/// bytes are `b`.
#[verifier::external_body]
fn u256_from_be_bytes(b: [u8; 32]) -> (r: Word256)
    ensures
        r@ == be_value(b@),
{
    let (hi, lo) = U256::from_be_bytes(b).into_words();
    Word256 { hi, lo }
}

/// Relies on ethnum's `U256::to_be_bytes`: the 32 bytes of the number, most
/// significant first.
#[verifier::external_body]
fn u256_to_be_bytes(w: Word256) -> (r: [u8; 32])
    ensures
        r@ == be_encode(w@, 32),
{
    U256::from_words(w.hi, w.lo).to_be_bytes()
}

/// Relies on ethnum's `U256::to_le_bytes`: the 32 bytes of the number, least
/// significant first.
#[verifier::external_body]
fn u256_to_le_bytes(w: Word256) -> (r: [u8; 32])
    ensures
        r@ == le_encode(w@, 32),
{
    U256::from_words(w.hi, w.lo).to_le_bytes()
}

/// Relies on ethnum's `U256::wrapping_add`: the sum modulo `2^256`.
#[verifier::external_body]
fn u256_wrapping_add(a: Word256, b: Word256) -> (r: Word256)
    ensures
        r@ == wrap_add(a@, b@, 32),
{
    let (hi, lo) = U256::from_words(a.hi, a.lo).wrapping_add(U256::from_words(b.hi, b.lo)).into_words();
    Word256 { hi, lo }
}

/// Relies on ethnum's `U256::wrapping_sub`: the difference modulo `2^256`.
#[verifier::external_body]
fn u256_wrapping_sub(a: Word256, b: Word256) -> (r: Word256)
    ensures
        r@ == wrap_sub(a@, b@, 32),
{
    let (hi, lo) = U256::from_words(a.hi, a.lo).wrapping_sub(U256::from_words(b.hi, b.lo)).into_words();
    Word256 { hi, lo }
}

/// Relies on ethnum's `U256::wrapping_mul`: the product modulo `2^256`.
#[verifier::external_body]
fn u256_wrapping_mul(a: Word256, b: Word256) -> (r: Word256)
    ensures
        r@ == wrap_mul(a@, b@, 32),
{
    let (hi, lo) = U256::from_words(a.hi, a.lo).wrapping_mul(U256::from_words(b.hi, b.lo)).into_words();
    Word256 { hi, lo }
}

/// Relies on ethnum's `U256::wrapping_div`: the quotient rounded down; it
/// panics on a zero divisor, which `requires` leaves out.
#[verifier::external_body]
fn u256_wrapping_div(a: Word256, b: Word256) -> (r: Word256)
    requires
        b@ != 0,
    ensures
        r@ == a@ / b@,
{
    let (hi, lo) = U256::from_words(a.hi, a.lo).wrapping_div(U256::from_words(b.hi, b.lo)).into_words();
    Word256 { hi, lo }
}

/// Relies on ethnum's `U256::wrapping_rem`: the remainder; it panics on a
/// zero divisor, which `requires` leaves out.
#[verifier::external_body]
fn u256_wrapping_rem(a: Word256, b: Word256) -> (r: Word256)
    requires
        b@ != 0,
    ensures
        r@ == a@ % b@,
{
    let (hi, lo) = U256::from_words(a.hi, a.lo).wrapping_rem(U256::from_words(b.hi, b.lo)).into_words();
    Word256 { hi, lo }
}

/// `lo` decides the value modulo any power of two up to `2^128`.
proof fn lemma_word256_low_mod(w: Word256, m: nat)
    requires
        m > 0,
        pow256(16) % m == 0,
    ensures
        w@ % m == w.lo as nat % m,
{
    let k = pow256(16) / m;
    lemma_fundamental_div_mod(pow256(16) as int, m as int);
    assert(w.hi as nat * pow256(16) == m * (w.hi as nat * k)) by (nonlinear_arith)
        requires
            pow256(16) == m * k,
    ;
    lemma_mod_multiples_vanish((w.hi as nat * k) as int, w.lo as int, m as int);
}

impl Base<32> for Uint<Word256> {
    open spec fn value(&self) -> nat {
        self.0@
    }

    proof fn lemma_value_bounded(&self) {
        lemma_word256_bounded(self.0);
    }

    fn max_value() -> (r: Self) {
        proof {
            lemma_pow256_widths();
        }
        Uint(Word256 { hi: u128::MAX, lo: u128::MAX })
    }

    fn min_value() -> (r: Self) {
        Uint(Word256 { hi: 0, lo: 0 })
    }

    fn zero() -> (r: Self) {
        Uint(Word256 { hi: 0, lo: 0 })
    }

    fn is_zero(&self) -> (r: bool) {
        proof {
            lemma_pow256_widths();
        }
        self.0.hi == 0 && self.0.lo == 0
    }

    fn fixed_be_bytes(&self) -> (r: [u8; 32]) {
        let r = u256_to_be_bytes(self.0);
        assert(r@ =~= fixed_be(self.value(), 32));
        r
    }

    fn fixed_le_bytes(&self) -> (r: [u8; 32]) {
        let r = u256_to_le_bytes(self.0);
        assert(r@ =~= fixed_le(self.value(), 32));
        r
    }

    fn from_bytes(b: [u8; 32]) -> (r: Self) {
        Uint(u256_from_be_bytes(b))
    }

    fn to_bytes(&self) -> (r: [u8; 32]) {
        u256_to_be_bytes(self.0)
    }

    fn add(self, rhs: Self) -> (r: Self) {
        Uint(u256_wrapping_add(self.0, rhs.0))
    }

    fn sub(self, rhs: Self) -> (r: Self) {
        Uint(u256_wrapping_sub(self.0, rhs.0))
    }

    fn mul(self, rhs: Self) -> (r: Self) {
        Uint(u256_wrapping_mul(self.0, rhs.0))
    }

    fn div(self, rhs: Self) -> (r: Self) {
        Uint(u256_wrapping_div(self.0, rhs.0))
    }

    fn rem(self, rhs: Self) -> (r: Self) {
        Uint(u256_wrapping_rem(self.0, rhs.0))
    }

    fn from_u64(v: u64) -> (r: Self) {
        let r = Uint(Word256 { hi: 0, lo: v as u128 });
        proof {
            lemma_pow256_widths();
            lemma_small_mod(v as nat, pow256(32));
        }
        r
    }

    fn to_u64(&self) -> (r: u64) {
        proof {
            lemma_pow256_widths();
            lemma_word256_low_mod(self.0, pow256(8));
        }
        (self.0.lo % 0x1_0000_0000_0000_0000) as u64
    }
}

impl UIntConvertible<32> for Uint<Word256> {
    fn from_usize(value: usize) -> (r: Self) {
        let r = Uint(Word256 { hi: 0, lo: value as u128 });
        proof {
            lemma_pow256_widths();
            lemma_small_mod(value as nat, pow256(32));
        }
        r
    }

    fn to_usize(&self) -> (r: usize) {
        proof {
            lemma_pow256_widths();
            assert(usize::MAX == 0xffff_ffff || usize::MAX == 0xffff_ffff_ffff_ffff);
            lemma_word256_low_mod(self.0, usize::MAX as nat + 1);
        }
        (self.0.lo % (usize::MAX as u128 + 1)) as usize
    }
}

impl Base<16> for Uint<u128> {
    open spec fn value(&self) -> nat {
        self.0 as nat
    }

    proof fn lemma_value_bounded(&self) {
        lemma_pow256_widths();
    }

    fn max_value() -> (r: Self) {
        proof {
            lemma_pow256_widths();
        }
        Uint(u128::MAX)
    }

    fn min_value() -> (r: Self) {
        Uint(0)
    }

    fn zero() -> (r: Self) {
        Uint(0)
    }

    fn is_zero(&self) -> (r: bool) {
        self.0 == 0
    }

    fn fixed_be_bytes(&self) -> (r: [u8; 32]) {
        let b = self.to_bytes();
        pad_be(&b)
    }

    fn fixed_le_bytes(&self) -> (r: [u8; 32]) {
        let b = self.to_bytes();
        pad_le(&b)
    }

    fn from_bytes(b: [u8; 16]) -> (r: Self) {
        let v = be_bytes_to_u128(&b);
        proof {
            lemma_be_value_bound(b@);
            lemma_pow256_widths();
        }
        Uint(v as u128)
    }

    fn to_bytes(&self) -> (r: [u8; 16]) {
        u128_to_be_array::<16>(self.0 as u128)
    }

    fn add(self, rhs: Self) -> (r: Self) {
        proof {
            lemma_pow256_widths();
        }
        Uint(self.0.wrapping_add(rhs.0))
    }

    fn sub(self, rhs: Self) -> (r: Self) {
        proof {
            lemma_pow256_widths();
        }
        Uint(self.0.wrapping_sub(rhs.0))
    }

    fn mul(self, rhs: Self) -> (r: Self) {
        proof {
            lemma_pow256_widths();
        }
        Uint(self.0.wrapping_mul(rhs.0))
    }

    fn div(self, rhs: Self) -> (r: Self) {
        Uint(self.0 / rhs.0)
    }

    fn rem(self, rhs: Self) -> (r: Self) {
        Uint(self.0 % rhs.0)
    }

    fn from_u64(v: u64) -> (r: Self) {
        proof {
            lemma_pow256_widths();
        }
        Uint(v as u128)
    }

    fn to_u64(&self) -> (r: u64) {
        proof {
            lemma_pow256_widths();
        }
        (self.0 as u128 % 0x1_0000_0000_0000_0000) as u64
    }
}

impl UIntConvertible<16> for Uint<u128> {
    fn from_usize(value: usize) -> (r: Self) {
        proof {
            lemma_pow256_widths();
        }
        Uint(value as u128)
    }

    fn to_usize(&self) -> (r: usize) {
        (self.0 as u128 % (usize::MAX as u128 + 1)) as usize
    }
}

impl Base<8> for Uint<u64> {
    open spec fn value(&self) -> nat {
        self.0 as nat
    }

    proof fn lemma_value_bounded(&self) {
        lemma_pow256_widths();
    }

    fn max_value() -> (r: Self) {
        proof {
            lemma_pow256_widths();
        }
        Uint(u64::MAX)
    }

    fn min_value() -> (r: Self) {
        Uint(0)
    }

    fn zero() -> (r: Self) {
        Uint(0)
    }

    fn is_zero(&self) -> (r: bool) {
        self.0 == 0
    }

    fn fixed_be_bytes(&self) -> (r: [u8; 32]) {
        let b = self.to_bytes();
        pad_be(&b)
    }

    fn fixed_le_bytes(&self) -> (r: [u8; 32]) {
        let b = self.to_bytes();
        pad_le(&b)
    }

    fn from_bytes(b: [u8; 8]) -> (r: Self) {
        let v = be_bytes_to_u128(&b);
        proof {
            lemma_be_value_bound(b@);
            lemma_pow256_widths();
        }
        Uint(v as u64)
    }

    fn to_bytes(&self) -> (r: [u8; 8]) {
        u128_to_be_array::<8>(self.0 as u128)
    }

    fn add(self, rhs: Self) -> (r: Self) {
        proof {
            lemma_pow256_widths();
        }
        Uint(self.0.wrapping_add(rhs.0))
    }

    fn sub(self, rhs: Self) -> (r: Self) {
        proof {
            lemma_pow256_widths();
        }
        Uint(self.0.wrapping_sub(rhs.0))
    }

    fn mul(self, rhs: Self) -> (r: Self) {
        proof {
            lemma_pow256_widths();
        }
        Uint(self.0.wrapping_mul(rhs.0))
    }

    fn div(self, rhs: Self) -> (r: Self) {
        Uint(self.0 / rhs.0)
    }

    fn rem(self, rhs: Self) -> (r: Self) {
        Uint(self.0 % rhs.0)
    }

    fn from_u64(v: u64) -> (r: Self) {
        proof {
            lemma_pow256_widths();
        }
        Uint((v as u128 % 0x1_0000_0000_0000_0000) as u64)
    }

    fn to_u64(&self) -> (r: u64) {
        proof {
            lemma_pow256_widths();
        }
        (self.0 as u128 % 0x1_0000_0000_0000_0000) as u64
    }
}

impl UIntConvertible<8> for Uint<u64> {
    fn from_usize(value: usize) -> (r: Self) {
        proof {
            lemma_pow256_widths();
        }
        Uint((value as u128 % 0x1_0000_0000_0000_0000) as u64)
    }

    fn to_usize(&self) -> (r: usize) {
        (self.0 as u128 % (usize::MAX as u128 + 1)) as usize
    }
}

impl Base<4> for Uint<u32> {
    open spec fn value(&self) -> nat {
        self.0 as nat
    }

    proof fn lemma_value_bounded(&self) {
        lemma_pow256_widths();
    }

    fn max_value() -> (r: Self) {
        proof {
            lemma_pow256_widths();
        }
        Uint(u32::MAX)
    }

    fn min_value() -> (r: Self) {
        Uint(0)
    }

    fn zero() -> (r: Self) {
        Uint(0)
    }

    fn is_zero(&self) -> (r: bool) {
        self.0 == 0
    }

    fn fixed_be_bytes(&self) -> (r: [u8; 32]) {
        let b = self.to_bytes();
        pad_be(&b)
    }

    fn fixed_le_bytes(&self) -> (r: [u8; 32]) {
        let b = self.to_bytes();
        pad_le(&b)
    }

    fn from_bytes(b: [u8; 4]) -> (r: Self) {
        let v = be_bytes_to_u128(&b);
        proof {
            lemma_be_value_bound(b@);
            lemma_pow256_widths();
        }
        Uint(v as u32)
    }

    fn to_bytes(&self) -> (r: [u8; 4]) {
        u128_to_be_array::<4>(self.0 as u128)
    }

    fn add(self, rhs: Self) -> (r: Self) {
        proof {
            lemma_pow256_widths();
        }
        Uint(self.0.wrapping_add(rhs.0))
    }

    fn sub(self, rhs: Self) -> (r: Self) {
        proof {
            lemma_pow256_widths();
        }
        Uint(self.0.wrapping_sub(rhs.0))
    }

    fn mul(self, rhs: Self) -> (r: Self) {
        proof {
            lemma_pow256_widths();
        }
        Uint(self.0.wrapping_mul(rhs.0))
    }

    fn div(self, rhs: Self) -> (r: Self) {
        Uint(self.0 / rhs.0)
    }

    fn rem(self, rhs: Self) -> (r: Self) {
        Uint(self.0 % rhs.0)
    }

    fn from_u64(v: u64) -> (r: Self) {
        proof {
            lemma_pow256_widths();
        }
        Uint((v as u128 % 0x1_0000_0000) as u32)
    }

    fn to_u64(&self) -> (r: u64) {
        proof {
            lemma_pow256_widths();
        }
        (self.0 as u128 % 0x1_0000_0000_0000_0000) as u64
    }
}

impl UIntConvertible<4> for Uint<u32> {
    fn from_usize(value: usize) -> (r: Self) {
        proof {
            lemma_pow256_widths();
        }
        Uint((value as u128 % 0x1_0000_0000) as u32)
    }

    fn to_usize(&self) -> (r: usize) {
        (self.0 as u128 % (usize::MAX as u128 + 1)) as usize
    }
}

impl Base<2> for Uint<u16> {
    open spec fn value(&self) -> nat {
        self.0 as nat
    }

    proof fn lemma_value_bounded(&self) {
        lemma_pow256_widths();
    }

    fn max_value() -> (r: Self) {
        proof {
            lemma_pow256_widths();
        }
        Uint(u16::MAX)
    }

    fn min_value() -> (r: Self) {
        Uint(0)
    }

    fn zero() -> (r: Self) {
        Uint(0)
    }

    fn is_zero(&self) -> (r: bool) {
        self.0 == 0
    }

    fn fixed_be_bytes(&self) -> (r: [u8; 32]) {
        let b = self.to_bytes();
        pad_be(&b)
    }

    fn fixed_le_bytes(&self) -> (r: [u8; 32]) {
        let b = self.to_bytes();
        pad_le(&b)
    }

    fn from_bytes(b: [u8; 2]) -> (r: Self) {
        let v = be_bytes_to_u128(&b);
        proof {
            lemma_be_value_bound(b@);
            lemma_pow256_widths();
        }
        Uint(v as u16)
    }

    fn to_bytes(&self) -> (r: [u8; 2]) {
        u128_to_be_array::<2>(self.0 as u128)
    }

    fn add(self, rhs: Self) -> (r: Self) {
        proof {
            lemma_pow256_widths();
        }
        Uint(self.0.wrapping_add(rhs.0))
    }

    fn sub(self, rhs: Self) -> (r: Self) {
        proof {
            lemma_pow256_widths();
        }
        Uint(self.0.wrapping_sub(rhs.0))
    }

    fn mul(self, rhs: Self) -> (r: Self) {
        proof {
            lemma_pow256_widths();
        }
        Uint(self.0.wrapping_mul(rhs.0))
    }

    fn div(self, rhs: Self) -> (r: Self) {
        Uint(self.0 / rhs.0)
    }

    fn rem(self, rhs: Self) -> (r: Self) {
        Uint(self.0 % rhs.0)
    }

    fn from_u64(v: u64) -> (r: Self) {
        proof {
            lemma_pow256_widths();
        }
        Uint((v as u128 % 0x1_0000) as u16)
    }

    fn to_u64(&self) -> (r: u64) {
        proof {
            lemma_pow256_widths();
        }
        (self.0 as u128 % 0x1_0000_0000_0000_0000) as u64
    }
}

impl UIntConvertible<2> for Uint<u16> {
    fn from_usize(value: usize) -> (r: Self) {
        proof {
            lemma_pow256_widths();
        }
        Uint((value as u128 % 0x1_0000) as u16)
    }

    fn to_usize(&self) -> (r: usize) {
        (self.0 as u128 % (usize::MAX as u128 + 1)) as usize
    }
}

/// A 32-byte [`Base`] value.
pub type B256 = Uint<Word256>;

/// A 16-byte [`Base`] value.
pub type B128 = Uint<u128>;

/// An 8-byte [`Base`] value.
pub type B64 = Uint<u64>;

/// A 4-byte [`Base`] value.
pub type B32 = Uint<u32>;

/// A 2-byte [`Base`] value.
pub type B16 = Uint<u16>;

/// Bytes to value and back: for every `S`-byte array `b`,
/// `T::from_bytes(b).to_bytes()` is `b`.
pub proof fn law_bytes_round_trip<const S: usize, T: Base<S>>(b: [u8; S])
    ensures
        be_encode(be_value(b@), S as nat) == b@,
{
    lemma_be_value_encode(b@);
}

/// Value to bytes and back: for every value `a`, `T::from_bytes(a.to_bytes())`
/// is `a`.
pub proof fn law_value_round_trip<const S: usize, T: Base<S>>(a: T)
    ensures
        be_value(be_encode(a.value(), S as nat)) == a.value(),
{
    a.lemma_value_bounded();
    lemma_be_encode_value(a.value(), S as nat);
}

/// Adding then subtracting the same value gives the first value back:
/// `a.add(b).sub(b) == a`.
pub proof fn law_add_then_sub<const S: usize, T: Base<S>>(a: T, b: T)
    ensures
        wrap_sub(wrap_add(a.value(), b.value(), S as nat), b.value(), S as nat) == a.value(),
{
    a.lemma_value_bounded();
    b.lemma_value_bounded();
    let m = pow256(S as nat);
    let x = a.value() + b.value();
    if x < m {
        lemma_small_mod(x, m);
    } else {
        lemma_mod_add_multiples_vanish((x - m) as int, m as int);
        lemma_small_mod((x - m) as nat, m);
    }
}

/// Multiplying then dividing by the same nonzero value gives the first value
/// back, `a.mul(b).div(b) == a`, where the product does not wrap.
pub proof fn law_mul_then_div<const S: usize, T: Base<S>>(a: T, b: T)
    requires
        b.value() != 0,
        a.value() * b.value() < pow256(S as nat),
    ensures
        wrap_mul(a.value(), b.value(), S as nat) / b.value() == a.value(),
{
    let m = pow256(S as nat);
    lemma_small_mod(a.value() * b.value(), m);
    vstd::arithmetic::div_mod::lemma_div_by_multiple(a.value() as int, b.value() as int);
}

} // verus!
