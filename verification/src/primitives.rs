//! Fixed-width Ethereum primitives (addresses, 256-bit words, 32-byte hashes),
//! their total orders and their big-endian byte encodings.

use vstd::prelude::*;

verus! {

/// Result of comparing two keys.
#[derive(Clone, Copy, PartialEq, Eq, Structural, Debug)]
pub enum KeyOrder {
    Less,
    Equal,
    Greater,
}

/// A key type with a strict total order, used to keep maps sorted.
pub trait OrderedKey: Sized + Copy {
    spec fn key_lt(self, other: Self) -> bool;

    proof fn lemma_key_lt_irreflexive(x: Self)
        ensures
            !x.key_lt(x),
    ;

    proof fn lemma_key_lt_transitive(x: Self, y: Self, z: Self)
        requires
            x.key_lt(y),
            y.key_lt(z),
        ensures
            x.key_lt(z),
    ;

    proof fn lemma_key_lt_total(x: Self, y: Self)
        ensures
            x.key_lt(y) || y.key_lt(x) || x == y,
    ;

    fn compare(&self, other: &Self) -> (c: KeyOrder)
        ensures
            c == KeyOrder::Less <==> self.key_lt(*other),
            c == KeyOrder::Equal <==> *self == *other,
            c == KeyOrder::Greater <==> other.key_lt(*self),
    ;
}

pub open spec fn pow2_128() -> int {
    0x1_0000_0000_0000_0000_0000_0000_0000_0000int
}

pub open spec fn pow2_256() -> int {
    pow2_128() * pow2_128()
}

/// Byte `i` (0 = most significant) of the `n`-byte big-endian encoding of `x`.
pub open spec fn be_byte(x: u128, n: int, i: int) -> u8 {
    ((x >> ((8 * (n - 1 - i)) as u128)) & 0xffu128) as u8
}

/// The `n`-byte big-endian encoding of `x` (the low `n` bytes of `x`).
pub open spec fn be_bytes(x: u128, n: nat) -> Seq<u8> {
    Seq::new(n, |i: int| be_byte(x, n as int, i))
}

/// Appends the `n`-byte big-endian encoding of `x` to `buf`.
pub fn push_be_bytes(buf: &mut Vec<u8>, x: u128, n: usize)
    requires
        1 <= n <= 16,
    ensures
        final(buf)@ == old(buf)@ + be_bytes(x, n as nat),
{
    let ghost start = buf@;
    let mut i: usize = 0;
    while i < n
        invariant
            i <= n,
            1 <= n <= 16,
            buf@ == start + be_bytes(x, n as nat).take(i as int),
        decreases n - i,
    {
        let shift: u128 = (8 * (n - 1 - i)) as u128;
        let b: u8 = ((x >> shift) & 0xffu128) as u8;
        buf.push(b);
        assert(be_bytes(x, n as nat).take(i + 1) =~= be_bytes(x, n as nat).take(i as int).push(b));
        i = i + 1;
    }
    assert(be_bytes(x, n as nat).take(n as int) =~= be_bytes(x, n as nat));
}

proof fn lemma_shift_in_low_byte(acc: u128, b: u8, k: u128)
    by (bit_vector)
    requires
        k < 16,
        acc >> (8 * k) == 0,
    ensures
        ((acc << 8u128) | (b as u128)) & 0xffu128 == b as u128,
        ((acc << 8u128) | (b as u128)) >> (8 * (k + 1)) == 0,
{
}

proof fn lemma_shift_keeps_byte(acc: u128, b: u8, sh: u128)
    by (bit_vector)
    requires
        sh <= 112,
    ensures
        (((acc << 8u128) | (b as u128)) >> (sh + 8)) & 0xffu128 == (acc >> sh) & 0xffu128,
{
}

/// Reads `n` bytes of `s` starting at `start` as a big-endian number.
pub fn from_be_slice(s: &[u8], start: usize, n: usize) -> (x: u128)
    requires
        n <= 16,
        start + n <= s@.len(),
    ensures
        be_bytes(x, n as nat) == s@.subrange(start as int, start + n),
        x >> ((8 * n) as u128) == 0,
{
    let len = s.len();
    let mut acc: u128 = 0;
    let mut k: usize = 0;
    assert((0u128 >> (8 * 0u128)) == 0) by (bit_vector);
    while k < n
        invariant
            k <= n <= 16,
            start + n <= s@.len(),
            len == s@.len(),
            acc >> ((8 * k) as u128) == 0,
            forall|j: int|
                0 <= j < k ==> #[trigger] be_byte(acc, k as int, j) == s@[start + j],
        decreases n - k,
    {
        let b = s[start + k];
        let ghost old_acc = acc;
        proof {
            lemma_shift_in_low_byte(acc, b, k as u128);
        }
        acc = (acc << 8u128) | (b as u128);
        proof {
            assert(((8 * (k + 1)) as u128) == 8 * ((k as u128) + 1));
            assert forall|j: int| 0 <= j < k + 1 implies #[trigger] be_byte(acc, (k + 1) as int, j)
                == s@[start + j] by {
                if j == k {
                    assert(((8 * ((k + 1) - 1 - j)) as u128) == 0u128);
                    assert((acc >> 0u128) == acc) by (bit_vector);
                    assert((acc & 0xffu128) == b as u128);
                    assert(((b as u128) as u8) == b);
                } else {
                    let sh: u128 = (8 * (k - 1 - j)) as u128;
                    assert(((8 * ((k + 1) - 1 - j)) as u128) == sh + 8);
                    lemma_shift_keeps_byte(old_acc, b, sh);
                    assert(be_byte(old_acc, k as int, j) == s@[start + j]);
                }
            }
        }
        k = k + 1;
    }
    assert(be_bytes(acc, n as nat) =~= s@.subrange(start as int, start + n));
    acc
}

proof fn lemma_byte_eq(x: u128, y: u128, sh: u128)
    by (bit_vector)
    requires
        ((x >> sh) & 0xffu128) as u8 == ((y >> sh) & 0xffu128) as u8,
    ensures
        (x >> sh) & 0xffu128 == (y >> sh) & 0xffu128,
{
}

proof fn lemma_u128_from_bytes(x: u128, y: u128)
    by (bit_vector)
    requires
        (x >> 0u128) & 0xffu128 == (y >> 0u128) & 0xffu128,
        (x >> 8u128) & 0xffu128 == (y >> 8u128) & 0xffu128,
        (x >> 16u128) & 0xffu128 == (y >> 16u128) & 0xffu128,
        (x >> 24u128) & 0xffu128 == (y >> 24u128) & 0xffu128,
        (x >> 32u128) & 0xffu128 == (y >> 32u128) & 0xffu128,
        (x >> 40u128) & 0xffu128 == (y >> 40u128) & 0xffu128,
        (x >> 48u128) & 0xffu128 == (y >> 48u128) & 0xffu128,
        (x >> 56u128) & 0xffu128 == (y >> 56u128) & 0xffu128,
        (x >> 64u128) & 0xffu128 == (y >> 64u128) & 0xffu128,
        (x >> 72u128) & 0xffu128 == (y >> 72u128) & 0xffu128,
        (x >> 80u128) & 0xffu128 == (y >> 80u128) & 0xffu128,
        (x >> 88u128) & 0xffu128 == (y >> 88u128) & 0xffu128,
        (x >> 96u128) & 0xffu128 == (y >> 96u128) & 0xffu128,
        (x >> 104u128) & 0xffu128 == (y >> 104u128) & 0xffu128,
        (x >> 112u128) & 0xffu128 == (y >> 112u128) & 0xffu128,
        (x >> 120u128) & 0xffu128 == (y >> 120u128) & 0xffu128,
    ensures
        x == y,
{
}

/// The 16-byte big-endian encoding determines the number.
pub proof fn lemma_be16_injective(x: u128, y: u128)
    requires
        be_bytes(x, 16) == be_bytes(y, 16),
    ensures
        x == y,
{
    assert forall|i: int| 0 <= i < 16 implies be_byte(x, 16, i) == be_byte(y, 16, i) by {
        assert(be_bytes(x, 16)[i] == be_byte(x, 16, i));
        assert(be_bytes(y, 16)[i] == be_byte(y, 16, i));
        assert(be_bytes(x, 16)[i] == be_bytes(y, 16)[i]);
    }
    assert(be_byte(x, 16, 0) == be_byte(y, 16, 0));
    assert(be_byte(x, 16, 1) == be_byte(y, 16, 1));
    assert(be_byte(x, 16, 2) == be_byte(y, 16, 2));
    assert(be_byte(x, 16, 3) == be_byte(y, 16, 3));
    assert(be_byte(x, 16, 4) == be_byte(y, 16, 4));
    assert(be_byte(x, 16, 5) == be_byte(y, 16, 5));
    assert(be_byte(x, 16, 6) == be_byte(y, 16, 6));
    assert(be_byte(x, 16, 7) == be_byte(y, 16, 7));
    assert(be_byte(x, 16, 8) == be_byte(y, 16, 8));
    assert(be_byte(x, 16, 9) == be_byte(y, 16, 9));
    assert(be_byte(x, 16, 10) == be_byte(y, 16, 10));
    assert(be_byte(x, 16, 11) == be_byte(y, 16, 11));
    assert(be_byte(x, 16, 12) == be_byte(y, 16, 12));
    assert(be_byte(x, 16, 13) == be_byte(y, 16, 13));
    assert(be_byte(x, 16, 14) == be_byte(y, 16, 14));
    assert(be_byte(x, 16, 15) == be_byte(y, 16, 15));
    lemma_byte_eq(x, y, 120);
    lemma_byte_eq(x, y, 112);
    lemma_byte_eq(x, y, 104);
    lemma_byte_eq(x, y, 96);
    lemma_byte_eq(x, y, 88);
    lemma_byte_eq(x, y, 80);
    lemma_byte_eq(x, y, 72);
    lemma_byte_eq(x, y, 64);
    lemma_byte_eq(x, y, 56);
    lemma_byte_eq(x, y, 48);
    lemma_byte_eq(x, y, 40);
    lemma_byte_eq(x, y, 32);
    lemma_byte_eq(x, y, 24);
    lemma_byte_eq(x, y, 16);
    lemma_byte_eq(x, y, 8);
    lemma_byte_eq(x, y, 0);
    lemma_u128_from_bytes(x, y);
}

// ── Address ─────────────────────────────────────────────────────────────────

/// A 20-byte account address: the first 4 bytes in `hi`, the last 16 in `lo`
/// (both big-endian), so that the order on `(hi, lo)` is the byte order.
#[derive(Clone, Copy, PartialEq, Eq, Structural, Debug, Hash, PartialOrd, Ord, Default)]
pub struct Address {
    pub hi: u32,
    pub lo: u128,
}

impl Address {
    /// The 20 bytes of the address.
    pub open spec fn spec_bytes(self) -> Seq<u8> {
        be_bytes(self.hi as u128, 4) + be_bytes(self.lo, 16)
    }

    pub fn zero() -> (a: Address)
        ensures
            a.hi == 0 && a.lo == 0,
    {
        Address { hi: 0, lo: 0 }
    }

    /// The address whose last byte is `b` and whose other bytes are zero.
    pub fn with_last_byte(b: u8) -> (a: Address)
        ensures
            a.hi == 0,
            a.lo == b as u128,
    {
        Address { hi: 0, lo: b as u128 }
    }

    /// Builds an address from exactly 20 bytes of `s` starting at `start`.
    pub fn from_slice_at(s: &[u8], start: usize) -> (a: Address)
        requires
            start + 20 <= s@.len(),
        ensures
            a.spec_bytes() == s@.subrange(start as int, start + 20),
    {
        let _len = s.len();
        let hi = from_be_slice(s, start, 4);
        let lo = from_be_slice(s, start + 4, 16);
        assert((hi >> 32u128) == 0 ==> (hi as u32) as u128 == hi) by (bit_vector);
        let a = Address { hi: hi as u32, lo };
        assert(a.spec_bytes() =~= s@.subrange(start as int, start + 20));
        a
    }

    /// Builds an address from its 20 bytes.
    pub fn new(bytes: [u8; 20]) -> (a: Address)
        ensures
            a.spec_bytes() == bytes@,
    {
        let s = bytes.as_slice();
        let a = Address::from_slice_at(s, 0);
        assert(s@.subrange(0, 20) =~= bytes@);
        a
    }

    /// Appends the 20 bytes of the address to `buf`.
    pub fn push_bytes(&self, buf: &mut Vec<u8>)
        ensures
            final(buf)@ == old(buf)@ + self.spec_bytes(),
    {
        push_be_bytes(buf, self.hi as u128, 4);
        push_be_bytes(buf, self.lo, 16);
        assert(buf@ =~= old(buf)@ + self.spec_bytes());
    }

    /// The 20 bytes of the address.
    pub fn to_bytes(&self) -> (v: Vec<u8>)
        ensures
            v@ == self.spec_bytes(),
    {
        let mut v: Vec<u8> = Vec::new();
        self.push_bytes(&mut v);
        assert(v@ =~= self.spec_bytes());
        v
    }
}

impl OrderedKey for Address {
    open spec fn key_lt(self, other: Self) -> bool {
        self.hi < other.hi || (self.hi == other.hi && self.lo < other.lo)
    }

    proof fn lemma_key_lt_irreflexive(x: Self) {
    }

    proof fn lemma_key_lt_transitive(x: Self, y: Self, z: Self) {
    }

    proof fn lemma_key_lt_total(x: Self, y: Self) {
    }

    fn compare(&self, other: &Self) -> (c: KeyOrder) {
        if self.hi < other.hi {
            KeyOrder::Less
        } else if self.hi > other.hi {
            KeyOrder::Greater
        } else if self.lo < other.lo {
            KeyOrder::Less
        } else if self.lo > other.lo {
            KeyOrder::Greater
        } else {
            KeyOrder::Equal
        }
    }
}

// ── U256 ────────────────────────────────────────────────────────────────────

/// An unsigned 256-bit integer: `hi * 2^128 + lo`.
#[derive(Clone, Copy, PartialEq, Eq, Structural, Debug, Hash, PartialOrd, Ord, Default)]
pub struct U256 {
    pub hi: u128,
    pub lo: u128,
}


/// The 256-bit word with value `n` (for `0 <= n < 2^256`).
pub open spec fn u256_of(n: int) -> U256 {
    U256 { hi: (n / pow2_128()) as u128, lo: (n % pow2_128()) as u128 }
}

/// A word is the word of its value.
pub proof fn lemma_u256_of_value(x: U256)
    ensures
        u256_of(x.value()) == x,
{
    vstd::arithmetic::div_mod::lemma_fundamental_div_mod_converse(
        x.value(),
        pow2_128(),
        x.hi as int,
        x.lo as int,
    );
}

impl U256 {
    /// The number this word stands for.
    pub open spec fn value(self) -> int {
        self.hi * pow2_128() + self.lo
    }

    /// The 32 big-endian bytes of the word.
    pub open spec fn spec_bytes(self) -> Seq<u8> {
        be_bytes(self.hi, 16) + be_bytes(self.lo, 16)
    }

    pub fn zero() -> (r: U256)
        ensures
            r.value() == 0,
            r.hi == 0 && r.lo == 0,
    {
        U256 { hi: 0, lo: 0 }
    }

    pub fn from_u64(v: u64) -> (r: U256)
        ensures
            r.value() == v,
            r.hi == 0,
    {
        U256 { hi: 0, lo: v as u128 }
    }

    pub fn from_u128(v: u128) -> (r: U256)
        ensures
            r.value() == v,
            r.hi == 0,
    {
        U256 { hi: 0, lo: v }
    }

    pub fn is_zero(&self) -> (b: bool)
        ensures
            b == (self.value() == 0),
    {
        self.hi == 0 && self.lo == 0
    }

    /// Addition modulo 2^256 (the `+` of 256-bit words).
    pub fn wrapping_add(&self, other: &U256) -> (r: U256)
        ensures
            r.value() == (self.value() + other.value()) % pow2_256(),
            r == u256_of((self.value() + other.value()) % pow2_256()),
    {
        let (lo, carry) = if self.lo <= u128::MAX - other.lo {
            (self.lo + other.lo, 0u128)
        } else {
            ((self.lo - (u128::MAX - other.lo)) - 1, 1u128)
        };
        let hi = self.hi.wrapping_add(other.hi).wrapping_add(carry);
        let r = U256 { hi, lo };
        proof {
            let p = pow2_128();
            let big_h = self.hi + other.hi + carry;
            assert(lo + carry * p == self.lo + other.lo);
            assert(self.value() + other.value() == big_h * p + lo) by (nonlinear_arith)
                requires
                    lo + carry * p == self.lo + other.lo,
                    big_h == self.hi + other.hi + carry,
                    self.value() == self.hi * p + self.lo,
                    other.value() == other.hi * p + other.lo,
            ;
            assert(hi == big_h % p);
            let q: int = if big_h < p { 0 } else { 1 };
            assert(big_h == q * p + hi);
            assert(self.value() + other.value() == q * (p * p) + r.value()) by (nonlinear_arith)
                requires
                    self.value() + other.value() == big_h * p + lo,
                    big_h == q * p + hi,
                    r.value() == hi * p + lo,
            ;
            assert(0 <= r.value() < p * p) by (nonlinear_arith)
                requires
                    r.value() == hi * p + lo,
                    0 <= hi < p,
                    0 <= lo < p,
            ;
            vstd::arithmetic::div_mod::lemma_fundamental_div_mod_converse(
                self.value() + other.value(),
                p * p,
                q,
                r.value(),
            );
            lemma_u256_of_value(r);
        }
        r
    }

    /// Multiplication by a 64-bit factor modulo 2^256 (the `*` of 256-bit words).
    pub fn wrapping_mul_u64(&self, m: u64) -> (r: U256)
        ensures
            r.value() == (self.value() * m) % pow2_256(),
            r == u256_of((self.value() * m) % pow2_256()),
    {
        let p64: u128 = 0x1_0000_0000_0000_0000u128;
        let mm = m as u128;
        let lh = self.lo / p64;
        let ll = self.lo % p64;
        assert(lh < p64) by (nonlinear_arith)
            requires
                lh == self.lo / p64,
                p64 == 0x1_0000_0000_0000_0000u128,
        ;
        assert(ll * mm < p64 * p64 && lh * mm < p64 * p64) by (nonlinear_arith)
            requires
                ll < p64,
                lh < p64,
                mm < p64,
        ;
        let a0 = ll * mm;
        let a1 = lh * mm;
        let a1l = a1 % p64;
        let a1h = a1 / p64;
        assert(a1l * p64 < p64 * p64) by (nonlinear_arith)
            requires
                a1l < p64,
        ;
        let t = a1l * p64;
        let (new_lo, c) = if a0 <= u128::MAX - t {
            (a0 + t, 0u128)
        } else {
            ((a0 - (u128::MAX - t)) - 1, 1u128)
        };
        let w1 = self.hi.wrapping_mul(mm);
        let w2 = w1.wrapping_add(a1h);
        let new_hi = w2.wrapping_add(c);
        let r = U256 { hi: new_hi, lo: new_lo };
        proof {
            let pp = pow2_128();
            assert(pp == p64 * p64);
            let q = self.hi * mm + a1h + c;
            assert(self.lo == lh * p64 + ll) by (nonlinear_arith)
                requires
                    lh == self.lo / p64,
                    ll == self.lo % p64,
                    p64 > 0,
            ;
            assert(a1 == a1h * p64 + a1l) by (nonlinear_arith)
                requires
                    a1h == a1 / p64,
                    a1l == a1 % p64,
                    p64 > 0,
            ;
            assert(new_lo + c * pp == a0 + t);
            assert(self.value() * m == q * pp + new_lo) by (nonlinear_arith)
                requires
                    self.value() == self.hi * pp + self.lo,
                    pp == p64 * p64,
                    self.lo == lh * p64 + ll,
                    a0 == ll * mm,
                    a1 == lh * mm,
                    a1 == a1h * p64 + a1l,
                    t == a1l * p64,
                    new_lo + c * pp == a0 + t,
                    q == self.hi * mm + a1h + c,
                    mm == m,
            ;
            assert(w1 == (self.hi * mm) % pp);
            assert(w2 == (w1 + a1h) % pp);
            assert(new_hi == (w2 + c) % pp);
            vstd::arithmetic::div_mod::lemma_add_mod_noop(self.hi * mm, a1h as int, pp);
            vstd::arithmetic::div_mod::lemma_small_mod(a1h as nat, pp as nat);
            assert(w2 == (self.hi * mm + a1h) % pp);
            vstd::arithmetic::div_mod::lemma_add_mod_noop(self.hi * mm + a1h, c as int, pp);
            vstd::arithmetic::div_mod::lemma_small_mod(c as nat, pp as nat);
            assert(new_hi == q % pp);
            vstd::arithmetic::div_mod::lemma_fundamental_div_mod(q, pp);
            let qq = q / pp;
            assert(q == qq * pp + new_hi);
            assert(self.value() * m == qq * (pp * pp) + r.value()) by (nonlinear_arith)
                requires
                    self.value() * m == q * pp + new_lo,
                    q == qq * pp + new_hi,
                    r.value() == new_hi * pp + new_lo,
            ;
            assert(0 <= r.value() < pp * pp) by (nonlinear_arith)
                requires
                    r.value() == new_hi * pp + new_lo,
                    0 <= new_hi < pp,
                    0 <= new_lo < pp,
            ;
            vstd::arithmetic::div_mod::lemma_fundamental_div_mod_converse(
                self.value() * m,
                pp * pp,
                qq,
                r.value(),
            );
            lemma_u256_of_value(r);
        }
        r
    }

    /// Appends the 32 big-endian bytes of the word to `buf`.
    pub fn push_bytes(&self, buf: &mut Vec<u8>)
        ensures
            final(buf)@ == old(buf)@ + self.spec_bytes(),
    {
        push_be_bytes(buf, self.hi, 16);
        push_be_bytes(buf, self.lo, 16);
        assert(buf@ =~= old(buf)@ + self.spec_bytes());
    }
}

impl OrderedKey for U256 {
    open spec fn key_lt(self, other: Self) -> bool {
        self.hi < other.hi || (self.hi == other.hi && self.lo < other.lo)
    }

    proof fn lemma_key_lt_irreflexive(x: Self) {
    }

    proof fn lemma_key_lt_transitive(x: Self, y: Self, z: Self) {
    }

    proof fn lemma_key_lt_total(x: Self, y: Self) {
    }

    fn compare(&self, other: &Self) -> (c: KeyOrder) {
        if self.hi < other.hi {
            KeyOrder::Less
        } else if self.hi > other.hi {
            KeyOrder::Greater
        } else if self.lo < other.lo {
            KeyOrder::Less
        } else if self.lo > other.lo {
            KeyOrder::Greater
        } else {
            KeyOrder::Equal
        }
    }
}

// ── B256 ────────────────────────────────────────────────────────────────────

/// A 32-byte hash: the first 16 bytes in `hi`, the last 16 in `lo` (big-endian).
#[derive(Clone, Copy, PartialEq, Eq, Structural, Debug, Hash, PartialOrd, Ord, Default)]
pub struct B256 {
    pub hi: u128,
    pub lo: u128,
}

impl B256 {
    /// The 32 bytes of the hash.
    pub open spec fn spec_bytes(self) -> Seq<u8> {
        be_bytes(self.hi, 16) + be_bytes(self.lo, 16)
    }

    /// Two hashes with the same bytes are equal.
    pub proof fn lemma_bytes_injective(a: B256, b: B256)
        requires
            a.spec_bytes() == b.spec_bytes(),
        ensures
            a == b,
    {
        assert(be_bytes(a.hi, 16) == a.spec_bytes().subrange(0, 16));
        assert(be_bytes(b.hi, 16) == b.spec_bytes().subrange(0, 16));
        assert(be_bytes(a.lo, 16) == a.spec_bytes().subrange(16, 32));
        assert(be_bytes(b.lo, 16) == b.spec_bytes().subrange(16, 32));
        lemma_be16_injective(a.hi, b.hi);
        lemma_be16_injective(a.lo, b.lo);
    }

    pub fn zero() -> (h: B256)
        ensures
            h.hi == 0 && h.lo == 0,
    {
        B256 { hi: 0, lo: 0 }
    }

    /// The hash whose last byte is `b` and whose other bytes are zero.
    pub fn with_last_byte(b: u8) -> (h: B256)
        ensures
            h.hi == 0,
            h.lo == b as u128,
    {
        B256 { hi: 0, lo: b as u128 }
    }

    /// Builds a hash from exactly 32 bytes of `s` starting at `start`.
    pub fn from_slice_at(s: &[u8], start: usize) -> (h: B256)
        requires
            start + 32 <= s@.len(),
        ensures
            h.spec_bytes() == s@.subrange(start as int, start + 32),
    {
        let _len = s.len();
        let hi = from_be_slice(s, start, 16);
        let lo = from_be_slice(s, start + 16, 16);
        let h = B256 { hi, lo };
        assert(h.spec_bytes() =~= s@.subrange(start as int, start + 32));
        h
    }

    /// Appends the 32 bytes of the hash to `buf`.
    pub fn push_bytes(&self, buf: &mut Vec<u8>)
        ensures
            final(buf)@ == old(buf)@ + self.spec_bytes(),
    {
        push_be_bytes(buf, self.hi, 16);
        push_be_bytes(buf, self.lo, 16);
        assert(buf@ =~= old(buf)@ + self.spec_bytes());
    }
}

impl OrderedKey for B256 {
    open spec fn key_lt(self, other: Self) -> bool {
        self.hi < other.hi || (self.hi == other.hi && self.lo < other.lo)
    }

    proof fn lemma_key_lt_irreflexive(x: Self) {
    }

    proof fn lemma_key_lt_transitive(x: Self, y: Self, z: Self) {
    }

    proof fn lemma_key_lt_total(x: Self, y: Self) {
    }

    fn compare(&self, other: &Self) -> (c: KeyOrder) {
        if self.hi < other.hi {
            KeyOrder::Less
        } else if self.hi > other.hi {
            KeyOrder::Greater
        } else if self.lo < other.lo {
            KeyOrder::Less
        } else if self.lo > other.lo {
            KeyOrder::Greater
        } else {
            KeyOrder::Equal
        }
    }
}

impl OrderedKey for u64 {
    open spec fn key_lt(self, other: Self) -> bool {
        self < other
    }

    proof fn lemma_key_lt_irreflexive(x: Self) {
    }

    proof fn lemma_key_lt_transitive(x: Self, y: Self, z: Self) {
    }

    proof fn lemma_key_lt_total(x: Self, y: Self) {
    }

    fn compare(&self, other: &Self) -> (c: KeyOrder) {
        if *self < *other {
            KeyOrder::Less
        } else if *self > *other {
            KeyOrder::Greater
        } else {
            KeyOrder::Equal
        }
    }
}

// ── Keccak-256 ──────────────────────────────────────────────────────────────

/// The Keccak-256 digest of a byte string.
pub uninterp spec fn spec_keccak256(data: Seq<u8>) -> Seq<u8>;

/// Calls `alloy_primitives::keccak256`; trusted to return the 32-byte
/// Keccak-256 digest of `data`, a function of `data` alone. Nothing about the
/// digest's value beyond its length is stated.
#[verifier::external_body]
fn keccak256_bytes(data: &Vec<u8>) -> (h: Vec<u8>)
    ensures
        h@ == spec_keccak256(data@),
        h@.len() == 32,
{
    alloy_primitives::keccak256(data.as_slice()).to_vec()
}

/// The Keccak-256 digest of `data` as a hash.
pub fn keccak256(data: &Vec<u8>) -> (h: B256)
    ensures
        h.spec_bytes() == spec_keccak256(data@),
{
    let d = keccak256_bytes(data);
    let h = B256::from_slice_at(d.as_slice(), 0);
    assert(d@.subrange(0, 32) =~= d@);
    h
}

} // verus!
