//! Rendering numbers as text: decimal and lowercase hexadecimal.

use vstd::prelude::*;

use crate::primitives::{be_bytes, Address, U256};

verus! {

/// The character of a digit value below 16 (`0-9`, then `a-f`).
pub open spec fn digit_char(d: nat) -> char {
    if d < 10 {
        (('0' as u32) + d) as char
    } else {
        (('a' as u32) + (d - 10)) as char
    }
}

/// Decimal digits of `n`, most significant first, without leading zeros.
pub open spec fn decimal_chars(n: nat) -> Seq<char>
    decreases n,
{
    if n < 10 {
        seq![digit_char(n)]
    } else {
        decimal_chars(n / 10).push(digit_char(n % 10))
    }
}

/// Lowercase hexadecimal digits of `n`, most significant first, without
/// leading zeros (`"0"` for zero).
pub open spec fn hex_chars(n: nat) -> Seq<char>
    decreases n,
{
    if n < 16 {
        seq![digit_char(n)]
    } else {
        hex_chars(n / 16).push(digit_char(n % 16))
    }
}

/// Two lowercase hexadecimal digits for each byte.
pub open spec fn hex_of_bytes(bytes: Seq<u8>) -> Seq<char>
    decreases bytes.len(),
{
    if bytes.len() == 0 {
        seq![]
    } else {
        hex_of_bytes(bytes.drop_last()) + seq![
            digit_char((bytes.last() / 16) as nat),
            digit_char((bytes.last() % 16) as nat),
        ]
    }
}

fn digit_str(d: u64) -> (s: &'static str)
    requires
        d < 16,
    ensures
        s@ == seq![digit_char(d as nat)],
{
    proof {
        reveal_strlit("0");
        reveal_strlit("1");
        reveal_strlit("2");
        reveal_strlit("3");
        reveal_strlit("4");
        reveal_strlit("5");
        reveal_strlit("6");
        reveal_strlit("7");
        reveal_strlit("8");
        reveal_strlit("9");
        reveal_strlit("a");
        reveal_strlit("b");
        reveal_strlit("c");
        reveal_strlit("d");
        reveal_strlit("e");
        reveal_strlit("f");
    }
    let s = if d == 0 {
        "0"
    } else if d == 1 {
        "1"
    } else if d == 2 {
        "2"
    } else if d == 3 {
        "3"
    } else if d == 4 {
        "4"
    } else if d == 5 {
        "5"
    } else if d == 6 {
        "6"
    } else if d == 7 {
        "7"
    } else if d == 8 {
        "8"
    } else if d == 9 {
        "9"
    } else if d == 10 {
        "a"
    } else if d == 11 {
        "b"
    } else if d == 12 {
        "c"
    } else if d == 13 {
        "d"
    } else if d == 14 {
        "e"
    } else {
        "f"
    };
    assert(s@ =~= seq![digit_char(d as nat)]);
    s
}

/// Appends the decimal digits of `n` to `s`.
pub fn push_decimal(s: &mut String, n: u64)
    ensures
        final(s)@ == old(s)@ + decimal_chars(n as nat),
    decreases n,
{
    if n >= 10 {
        push_decimal(s, n / 10);
    }
    s.append(digit_str(n % 10));
    assert(s@ =~= old(s)@ + decimal_chars(n as nat));
}

/// Appends the lowercase hexadecimal digits of `n` (no leading zeros) to `s`.
pub fn push_hex_u128(s: &mut String, n: u128)
    ensures
        final(s)@ == old(s)@ + hex_chars(n as nat),
    decreases n,
{
    if n >= 16 {
        push_hex_u128(s, n / 16);
    }
    s.append(digit_str((n % 16) as u64));
    assert(s@ =~= old(s)@ + hex_chars(n as nat));
}

/// Appends two lowercase hexadecimal digits for each byte of `bytes`.
pub fn push_hex_bytes(s: &mut String, bytes: &[u8])
    ensures
        final(s)@ == old(s)@ + hex_of_bytes(bytes@),
{
    let ghost start = s@;
    let n = bytes.len();
    let mut i: usize = 0;
    while i < n
        invariant
            i <= n,
            n == bytes@.len(),
            s@ == start + hex_of_bytes(bytes@.take(i as int)),
        decreases n - i,
    {
        let b = bytes[i];
        s.append(digit_str((b / 16) as u64));
        s.append(digit_str((b % 16) as u64));
        assert(bytes@.take(i + 1).drop_last() =~= bytes@.take(i as int));
        assert(s@ =~= start + hex_of_bytes(bytes@.take(i + 1)));
        i = i + 1;
    }
    assert(bytes@.take(n as int) =~= bytes@);
}

/// Splits a 256-bit word into its quotient and remainder by ten.
fn u256_divmod10(x: &U256) -> (r: (U256, u64))
    ensures
        x.value() == 10 * r.0.value() + r.1,
        r.1 < 10,
{
    let p64: u128 = 0x1_0000_0000_0000_0000u128;
    let qh = x.hi / 10;
    let r1 = x.hi % 10;
    let lh = x.lo / p64;
    let ll = x.lo % p64;
    assert(lh < p64) by (nonlinear_arith)
        requires
            lh == x.lo / p64,
            p64 == 0x1_0000_0000_0000_0000u128,
    ;
    let t1 = r1 * p64 + lh;
    let qm = t1 / 10;
    let r2 = t1 % 10;
    let t2 = r2 * p64 + ll;
    let ql = t2 / 10;
    let r3 = t2 % 10;
    assert(qm < p64 && ql < p64) by (nonlinear_arith)
        requires
            t1 == r1 * p64 + lh,
            r1 < 10,
            lh < p64,
            qm == t1 / 10,
            t2 == r2 * p64 + ll,
            r2 < 10,
            ll < p64,
            ql == t2 / 10,
            p64 == 0x1_0000_0000_0000_0000u128,
    ;
    let lo = qm * p64 + ql;
    let q = U256 { hi: qh, lo };
    proof {
        let p = crate::primitives::pow2_128();
        assert(p == p64 * p64);
        assert(x.hi == 10 * qh + r1);
        assert(x.lo == lh * p64 + ll) by (nonlinear_arith)
            requires
                lh == x.lo / p64,
                ll == x.lo % p64,
                p64 > 0,
        ;
        assert(t1 == 10 * qm + r2);
        assert(t2 == 10 * ql + r3);
        assert(x.value() == 10 * q.value() + r3) by (nonlinear_arith)
            requires
                x.value() == x.hi * p + x.lo,
                q.value() == qh * p + lo,
                p == p64 * p64,
                x.hi == 10 * qh + r1,
                x.lo == lh * p64 + ll,
                t1 == r1 * p64 + lh,
                t1 == 10 * qm + r2,
                t2 == r2 * p64 + ll,
                t2 == 10 * ql + r3,
                lo == qm * p64 + ql,
        ;
    }
    (q, r3 as u64)
}

/// Appends the decimal digits of the value of `x` to `s`.
pub fn push_u256_decimal(s: &mut String, x: U256)
    ensures
        final(s)@ == old(s)@ + decimal_chars(x.value() as nat),
    decreases x.value(),
{
    let (q, d) = u256_divmod10(&x);
    proof {
        vstd::arithmetic::div_mod::lemma_fundamental_div_mod_converse(
            x.value(),
            10,
            q.value(),
            d as int,
        );
    }
    if !q.is_zero() {
        push_u256_decimal(s, q);
    }
    s.append(digit_str(d));
    assert(s@ =~= old(s)@ + decimal_chars(x.value() as nat));
}

/// The lowercase hexadecimal rendering of an address: 40 digits.
pub open spec fn address_hex(a: Address) -> Seq<char> {
    hex_of_bytes(a.spec_bytes())
}

/// Appends the 40 lowercase hexadecimal digits of `a` to `s`.
pub fn push_address_hex(s: &mut String, a: &Address)
    ensures
        final(s)@ == old(s)@ + address_hex(*a),
{
    let bytes = a.to_bytes();
    push_hex_bytes(s, bytes.as_slice());
}

/// The value of a 256-bit word in lowercase hexadecimal without leading zeros.
pub open spec fn u256_hex(x: U256) -> Seq<char> {
    if x.hi == 0 {
        hex_chars(x.lo as nat)
    } else {
        hex_chars(x.hi as nat) + hex_of_bytes(be_bytes(x.lo, 16))
    }
}

/// Appends the value of `x` in lowercase hexadecimal (no leading zeros) to `s`.
pub fn push_u256_hex(s: &mut String, x: &U256)
    ensures
        final(s)@ == old(s)@ + u256_hex(*x),
{
    if x.hi == 0 {
        push_hex_u128(s, x.lo);
    } else {
        push_hex_u128(s, x.hi);
        let mut lo_bytes: Vec<u8> = Vec::new();
        crate::primitives::push_be_bytes(&mut lo_bytes, x.lo, 16);
        assert(lo_bytes@ =~= be_bytes(x.lo, 16));
        push_hex_bytes(s, lo_bytes.as_slice());
        assert(s@ =~= old(s)@ + u256_hex(*x));
    }
}

} // verus!
