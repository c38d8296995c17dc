//! The command-line bridge: a block whose fields arrive as text is parsed,
//! executed with pre-funded senders, and reported with its statistics.
//!
//! Text fields are read leniently: an address is
//! hex (an optional `0x`, left-padded to 40 digits) decoded up to its first
//! bad digit pair; an amount is decimal, or hex after `0x`/`0X`, with `_`
//! ignored, and 0 when it does not parse; a byte string is hex (an optional
//! `0x`) and empty when it does not parse.

use vstd::prelude::*;
use vstd::string::StringSliceAdditionalSpecFns;
use vstd::utf8::{encode_utf8_valid_utf8, is_char_boundary, valid_utf8};

use crate::block_builder::{hex_bytes, hex_decode, hex_val, is_hex_digit, is_hex_text};
use crate::conflict::{
    all_conflicts, conflict_views, detect_conflicts, info_views, infos_of, sets_wf, ConflictDetails,
};
use crate::primitives::{be_bytes, from_be_slice, lemma_be16_injective, pow2_128, pow2_256, u256_of, Address, U256};
use crate::read_write_sets::{ReadSet, WriteSet};
use crate::simulation::{opt_text, TxResultOutput};
use crate::state::InMemoryState;
use crate::text::{hex_of_bytes, push_hex_bytes};
use crate::types::{AccountInfo, AccountView, ExecutionResult, Transaction, spec_keccak_empty};

verus! {

// ── Prefixes ────────────────────────────────────────────────────────────────

/// Two leading ASCII bytes end at a character boundary.
proof fn lemma_ascii_pair_boundary(s: &str)
    requires
        s.spec_bytes().len() >= 2,
        s.spec_bytes()[0] < 128,
        s.spec_bytes()[1] < 128,
    ensures
        is_char_boundary(s.spec_bytes(), 2),
{
    let b = s.spec_bytes();
    encode_utf8_valid_utf8(s@);
    assert(valid_utf8(b));
    let b1 = b.subrange(1, b.len() as int);
    assert(valid_utf8(b1));
    reveal_with_fuel(is_char_boundary, 3);
}

/// Whether `b` starts with the two bytes `c0 c1`.
pub open spec fn starts_with_pair(b: Seq<u8>, c0: u8, c1: u8) -> bool {
    b.len() >= 2 && b[0] == c0 && b[1] == c1
}

/// `b` without a leading `c0 c1`, if it has one.
pub open spec fn without_pair(b: Seq<u8>, c0: u8, c1: u8) -> Seq<u8> {
    if starts_with_pair(b, c0, c1) {
        b.subrange(2, b.len() as int)
    } else {
        b
    }
}

/// `s` without a leading `c0 c1` (two ASCII bytes), if it has one.
fn strip_pair(s: &str, c0: u8, c1: u8) -> (r: &str)
    requires
        c0 < 128,
        c1 < 128,
    ensures
        r.spec_bytes() == without_pair(s.spec_bytes(), c0, c1),
{
    let b = s.as_bytes();
    if b.len() >= 2 && b[0] == c0 && b[1] == c1 {
        proof {
            lemma_ascii_pair_boundary(s);
        }
        let (_, rest) = s.split_at(2);
        rest
    } else {
        s
    }
}

// ── Byte strings ────────────────────────────────────────────────────────────

/// The bytes a text field stands for: hex after an optional `0x`, and none
/// when that is not hex text.
pub open spec fn spec_parse_bytes(s: Seq<u8>) -> Seq<u8> {
    let d = without_pair(s, 0x30, 0x78);
    if is_hex_text(d) {
        hex_bytes(d)
    } else {
        Seq::empty()
    }
}

/// Parses a byte-string field (see `spec_parse_bytes`).
pub fn parse_bytes(s: &str) -> (b: Vec<u8>)
    ensures
        b@ == spec_parse_bytes(s.spec_bytes()),
{
    let d = strip_pair(s, 0x30, 0x78);
    if d.as_bytes().len() == 0 {
        assert(hex_bytes(d.spec_bytes()) =~= Seq::<u8>::empty());
        return Vec::new();
    }
    match hex_decode(d) {
        Ok(v) => v,
        Err(_) => Vec::new(),
    }
}

// ── Amounts ─────────────────────────────────────────────────────────────────

/// The value of a digit byte (`0-9`, then `a-z` and `A-Z` from 10); 99 for
/// any other byte.
pub open spec fn digit_of(b: u8) -> int {
    if 0x30 <= b <= 0x39 {
        b - 0x30
    } else if 0x61 <= b <= 0x7a {
        b - 0x61 + 10
    } else if 0x41 <= b <= 0x5a {
        b - 0x41 + 10
    } else {
        99
    }
}

/// Every byte is `_` or a digit below `radix`.
pub open spec fn digits_ok(s: Seq<u8>, radix: int) -> bool {
    forall|i: int| 0 <= i < s.len() ==> (#[trigger] s[i] == 0x5f || digit_of(s[i]) < radix)
}

/// The number the digits stand for in base `radix`, `_` skipped.
pub open spec fn digits_value(s: Seq<u8>, radix: int) -> int
    decreases s.len(),
{
    if s.len() == 0 {
        0
    } else if s.last() == 0x5f {
        digits_value(s.drop_last(), radix)
    } else {
        digits_value(s.drop_last(), radix) * radix + digit_of(s.last())
    }
}

/// The digits parse: each byte is `_` or a digit, and the number is below 2^256.
pub open spec fn digits_parse(s: Seq<u8>, radix: int) -> bool {
    digits_ok(s, radix) && digits_value(s, radix) < pow2_256()
}

/// Calls `U256::from_str_radix` (of `ruint`, through `alloy_primitives`) in
/// base 10 or 16 and hands out the 32 big-endian bytes of the result. Per the
/// crate's source, in these bases a digit is `0-9` or a letter of either case
/// below the base, `_` is skipped, and the text parses exactly when every
/// byte is a digit or `_` and the number is below 2^256.
#[verifier::external_body]
fn uint_from_str_radix(src: &str, radix: u64) -> (r: Option<[u8; 32]>)
    requires
        radix == 10 || radix == 16,
    ensures
        r is Some <==> digits_parse(src.spec_bytes(), radix as int),
        r matches Some(b) ==> b@ == u256_of(digits_value(src.spec_bytes(), radix as int)).spec_bytes(),
{
    match alloy_primitives::U256::from_str_radix(src, radix) {
        Ok(v) => Some(v.to_be_bytes::<32>()),
        Err(_) => None,
    }
}

/// The amount in digits `d` of base `radix`, 0 when they do not parse.
pub open spec fn amount_or_zero(d: Seq<u8>, radix: int) -> int {
    if digits_parse(d, radix) {
        digits_value(d, radix)
    } else {
        0
    }
}

/// The amount a text field stands for: hex after `0x` or `0X`, decimal
/// otherwise; 0 when it does not parse.
pub open spec fn spec_parse_u256(s: Seq<u8>) -> int {
    if starts_with_pair(s, 0x30, 0x78) {
        amount_or_zero(s.subrange(2, s.len() as int), 16)
    } else if starts_with_pair(s, 0x30, 0x58) {
        amount_or_zero(s.subrange(2, s.len() as int), 16)
    } else {
        amount_or_zero(s, 10)
    }
}

fn u256_from_be(b: &[u8; 32]) -> (x: U256)
    ensures
        x.spec_bytes() == b@,
{
    let s = b.as_slice();
    let hi = from_be_slice(s, 0, 16);
    let lo = from_be_slice(s, 16, 16);
    let x = U256 { hi, lo };
    assert(x.spec_bytes() =~= b@);
    x
}

proof fn lemma_u256_bytes_injective(x: U256, y: U256)
    requires
        x.spec_bytes() == y.spec_bytes(),
    ensures
        x == y,
{
    assert(x.spec_bytes().subrange(0, 16) =~= be_bytes(x.hi, 16));
    assert(y.spec_bytes().subrange(0, 16) =~= be_bytes(y.hi, 16));
    assert(x.spec_bytes().subrange(16, 32) =~= be_bytes(x.lo, 16));
    assert(y.spec_bytes().subrange(16, 32) =~= be_bytes(y.lo, 16));
    lemma_be16_injective(x.hi, y.hi);
    lemma_be16_injective(x.lo, y.lo);
}

fn parse_radix(d: &str, radix: u64) -> (x: U256)
    requires
        radix == 10 || radix == 16,
    ensures
        x == u256_of(amount_or_zero(d.spec_bytes(), radix as int)),
{
    match uint_from_str_radix(d, radix) {
        Some(b) => {
            let x = u256_from_be(&b);
            proof {
                lemma_u256_bytes_injective(x, u256_of(digits_value(d.spec_bytes(), radix as int)));
            }
            x
        },
        None => {
            assert(u256_of(0) == U256 { hi: 0, lo: 0 });
            U256 { hi: 0, lo: 0 }
        },
    }
}

/// Parses an amount field (see `spec_parse_u256`).
pub fn parse_u256(s: &str) -> (x: U256)
    ensures
        x == u256_of(spec_parse_u256(s.spec_bytes())),
{
    let b = s.as_bytes();
    if b.len() >= 2 && b[0] == 0x30 && b[1] == 0x78 {
        let d = strip_pair(s, 0x30, 0x78);
        parse_radix(d, 16)
    } else if b.len() >= 2 && b[0] == 0x30 && b[1] == 0x58 {
        let d = strip_pair(s, 0x30, 0x58);
        parse_radix(d, 16)
    } else {
        parse_radix(s, 10)
    }
}

// ── Addresses ───────────────────────────────────────────────────────────────

/// Pair `j` of the text is two hex digits.
pub open spec fn hex_pair_ok(d: Seq<u8>, j: int) -> bool {
    is_hex_digit(d[2 * j]) && is_hex_digit(d[2 * j + 1])
}

/// The first of the 20 digit pairs from `j` on that is not two hex digits
/// (20 when there is none).
pub open spec fn first_bad_pair(d: Seq<u8>, j: int) -> int
    decreases 20 - j,
{
    if j >= 20 {
        20
    } else if !hex_pair_ok(d, j) {
        j
    } else {
        first_bad_pair(d, j + 1)
    }
}

/// The 20 bytes after decoding 40 digits into `out` up to the first bad pair;
/// later bytes keep their value.
pub open spec fn decoded_prefix(d: Seq<u8>, out: Seq<u8>) -> Seq<u8> {
    Seq::new(
        20,
        |j: int|
            if j < first_bad_pair(d, 0) {
                (hex_val(d[2 * j]) * 16 + hex_val(d[2 * j + 1])) as u8
            } else {
                out[j]
            },
    )
}

/// Calls `hex::decode_to_slice` into a 20-byte buffer. Per the crate's
/// source it fails at once, writing nothing, unless the text has exactly 40
/// bytes; otherwise it decodes pair after pair and stops at the first pair
/// that is not two hex digits, leaving that byte and the later ones as they
/// were.
#[verifier::external_body]
fn hex_decode_into(data: &[u8], out: &mut [u8; 20]) -> (ok: bool)
    ensures
        data@.len() != 40 ==> !ok && final(out)@ == old(out)@,
        data@.len() == 40 ==> ok == (first_bad_pair(data@, 0) == 20) && final(out)@ == decoded_prefix(
            data@,
            old(out)@,
        ),
{
    hex::decode_to_slice(data, out).is_ok()
}

pub open spec fn all_ascii(b: Seq<u8>) -> bool {
    forall|i: int| 0 <= i < b.len() ==> #[trigger] b[i] < 128
}

/// Text `d` left-padded with `0` digits to 40 bytes.
pub open spec fn zero_padded(d: Seq<u8>) -> Seq<u8> {
    Seq::new((40 - d.len()) as nat, |i: int| 0x30u8) + d
}

/// The 20 bytes of the address a text field stands for: after an optional
/// `0x`, ASCII text of at most 40 digits is left-padded with `0` and decoded
/// up to its first bad pair (the rest stays zero); any other text is the
/// zero address.
pub open spec fn spec_parse_address(s: Seq<u8>) -> Seq<u8> {
    let d = without_pair(s, 0x30, 0x78);
    if all_ascii(d) && d.len() <= 40 {
        decoded_prefix(zero_padded(d), Seq::new(20, |i: int| 0u8))
    } else {
        Seq::new(20, |i: int| 0u8)
    }
}

/// Parses an address field (see `spec_parse_address`).
pub fn parse_address(s: &str) -> (a: Address)
    ensures
        a.spec_bytes() == spec_parse_address(s.spec_bytes()),
{
    let d = strip_pair(s, 0x30, 0x78).as_bytes();
    let n = d.len();
    let mut bytes = [0u8; 20];
    assert(bytes@ =~= Seq::new(20, |i: int| 0u8));
    let mut ascii = true;
    let mut i: usize = 0;
    while i < n
        invariant
            i <= n,
            n == d@.len(),
            ascii == (forall|j: int| 0 <= j < i ==> #[trigger] d@[j] < 128),
        decreases n - i,
    {
        if d[i] >= 128 {
            ascii = false;
        }
        i = i + 1;
    }
    if ascii && n <= 40 {
        let mut padded: Vec<u8> = Vec::new();
        let mut k: usize = 0;
        while k < 40 - n
            invariant
                n <= 40,
                k <= 40 - n,
                padded@ == Seq::new(k as nat, |i: int| 0x30u8),
            decreases 40 - n - k,
        {
            padded.push(0x30u8);
            k = k + 1;
            assert(padded@ =~= Seq::new(k as nat, |i: int| 0x30u8));
        }
        let mut j: usize = 0;
        let ghost pad = padded@;
        while j < n
            invariant
                j <= n,
                n == d@.len(),
                padded@ == pad + d@.take(j as int),
            decreases n - j,
        {
            padded.push(d[j]);
            j = j + 1;
            assert(padded@ =~= pad + d@.take(j as int));
        }
        assert(d@.take(n as int) =~= d@);
        assert(padded@ =~= zero_padded(d@));
        let _ = hex_decode_into(padded.as_slice(), &mut bytes);
    }
    Address::new(bytes)
}

// ── Reports ─────────────────────────────────────────────────────────────────

/// `o` reports execution result `r`: return data as `0x` hex, `revert` for a
/// revert, the reason of a halt, and the log count of a success.
pub open spec fn reports_execution(o: TxResultOutput, r: ExecutionResult) -> bool {
    match r {
        ExecutionResult::Success { gas_used, output, logs } => {
            &&& o.success
            &&& o.gas_used == gas_used
            &&& o.output@ == "0x"@ + hex_of_bytes(output@)
            &&& o.error is None
            &&& o.logs_count == logs@.len()
        },
        ExecutionResult::Revert { gas_used, output } => {
            &&& !o.success
            &&& o.gas_used == gas_used
            &&& o.output@ == "0x"@ + hex_of_bytes(output@)
            &&& opt_text(o.error) == Some("revert"@)
            &&& o.logs_count == 0
        },
        ExecutionResult::Halt { gas_used, reason } => {
            &&& !o.success
            &&& o.gas_used == gas_used
            &&& o.output@ == "0x"@
            &&& opt_text(o.error) == Some(reason@)
            &&& o.logs_count == 0
        },
    }
}

/// Reports one execution result (see `reports_execution`).
pub fn execution_output(r: &ExecutionResult) -> (o: TxResultOutput)
    ensures
        reports_execution(o, *r),
{
    match r {
        ExecutionResult::Success { gas_used, output, logs } => {
            let mut text = String::new();
            text.append("0x");
            push_hex_bytes(&mut text, output.as_slice());
            TxResultOutput { success: true, gas_used: *gas_used, output: text, error: None, logs_count: logs.len() }
        },
        ExecutionResult::Revert { gas_used, output } => {
            let mut text = String::new();
            text.append("0x");
            push_hex_bytes(&mut text, output.as_slice());
            TxResultOutput {
                success: false,
                gas_used: *gas_used,
                output: text,
                error: Some("revert".to_string()),
                logs_count: 0,
            }
        },
        ExecutionResult::Halt { gas_used, reason } => TxResultOutput {
            success: false,
            gas_used: *gas_used,
            output: "0x".to_string(),
            error: Some(reason.clone()),
            logs_count: 0,
        },
    }
}

/// Total gas of the results.
pub open spec fn results_gas(txs: Seq<(ExecutionResult, WriteSet, ReadSet)>) -> int
    decreases txs.len(),
{
    if txs.len() == 0 {
        0
    } else {
        results_gas(txs.drop_last()) + txs.last().0.spec_gas_used()
    }
}

/// How many transactions ran more than once.
pub open spec fn reexecuted_count(incs: Seq<u32>) -> int
    decreases incs.len(),
{
    if incs.len() == 0 {
        0
    } else {
        reexecuted_count(incs.drop_last()) + if incs.last() > 0 {
            1int
        } else {
            0int
        }
    }
}

/// The total number of re-executions.
pub open spec fn incarnation_sum(incs: Seq<u32>) -> int
    decreases incs.len(),
{
    if incs.len() == 0 {
        0
    } else {
        incarnation_sum(incs.drop_last()) + incs.last()
    }
}

proof fn lemma_counts_bounded(incs: Seq<u32>, k: int)
    requires
        0 <= k <= incs.len(),
    ensures
        0 <= reexecuted_count(incs.take(k)) <= k,
        0 <= incarnation_sum(incs.take(k)) <= incarnation_sum(incs),
        reexecuted_count(incs.take(k)) <= reexecuted_count(incs),
    decreases incs.len() - k,
{
    lemma_count_at_most_len(incs.take(k));
    assert(incs.take(k).len() == k);
    if k < incs.len() {
        lemma_counts_bounded(incs, k + 1);
        assert(incs.take(k + 1).drop_last() =~= incs.take(k));
    } else {
        assert(incs.take(k) =~= incs);
    }
}

proof fn lemma_count_at_most_len(incs: Seq<u32>)
    ensures
        0 <= reexecuted_count(incs) <= incs.len(),
        0 <= incarnation_sum(incs),
    decreases incs.len(),
{
    if incs.len() > 0 {
        lemma_count_at_most_len(incs.drop_last());
    }
}

proof fn lemma_gas_prefix(txs: Seq<(ExecutionResult, WriteSet, ReadSet)>, k: int)
    requires
        0 <= k <= txs.len(),
    ensures
        0 <= results_gas(txs.take(k)) <= results_gas(txs),
    decreases txs.len() - k,
{
    lemma_gas_nonneg(txs.take(k));
    if k < txs.len() {
        lemma_gas_prefix(txs, k + 1);
        assert(txs.take(k + 1).drop_last() =~= txs.take(k));
    } else {
        assert(txs.take(k) =~= txs);
    }
}

proof fn lemma_gas_nonneg(txs: Seq<(ExecutionResult, WriteSet, ReadSet)>)
    ensures
        0 <= results_gas(txs),
    decreases txs.len(),
{
    if txs.len() > 0 {
        lemma_gas_nonneg(txs.drop_last());
    }
}

/// Statistics of the bridge's report.
pub struct CliStats {
    pub total_gas: u64,
    pub num_transactions: usize,
    /// Transactions that ran more than once.
    pub num_conflicts: usize,
    /// Re-executions over all transactions.
    pub num_re_executions: usize,
}

/// The bridge's report of an executed block.
pub struct CliOutput {
    pub results: Vec<TxResultOutput>,
    pub incarnations: Vec<u32>,
    pub stats: CliStats,
    pub conflict_details: ConflictDetails,
}

/// Reports a parallel execution: every result, the incarnations, the
/// statistics (total gas, transactions, re-executed transactions and
/// re-executions) and the conflict analysis.
pub fn cli_output(
    tx_results: &[(ExecutionResult, WriteSet, ReadSet)],
    incarnations: Vec<u32>,
    num_transactions: usize,
) -> (out: CliOutput)
    requires
        sets_wf(tx_results@),
        results_gas(tx_results@) <= u64::MAX,
        incarnation_sum(incarnations@) <= usize::MAX,
    ensures
        out.results@.len() == tx_results@.len(),
        forall|i: int|
            0 <= i < tx_results@.len() ==> reports_execution(#[trigger] out.results@[i], tx_results@[i].0),
        out.incarnations@ == incarnations@,
        out.stats.total_gas == results_gas(tx_results@),
        out.stats.num_transactions == num_transactions,
        out.stats.num_conflicts == reexecuted_count(incarnations@),
        out.stats.num_re_executions == incarnation_sum(incarnations@),
        out.conflict_details.per_tx@.len() == tx_results@.len(),
        forall|i: int|
            0 <= i < tx_results@.len() ==> {
                &&& (#[trigger] out.conflict_details.per_tx@[i]).tx_index == i
                &&& info_views(out.conflict_details.per_tx@[i].reads@) == infos_of(tx_results@[i].2.entries())
                &&& info_views(out.conflict_details.per_tx@[i].writes@) == infos_of(tx_results@[i].1.entries())
            },
        conflict_views(out.conflict_details.conflicts@) == all_conflicts(tx_results@, tx_results@.len() as int),
{
    let conflict_details = detect_conflicts(tx_results);
    let n = tx_results.len();
    let mut results: Vec<TxResultOutput> = Vec::new();
    let mut total_gas: u64 = 0;
    let mut i: usize = 0;
    while i < n
        invariant
            i <= n,
            n == tx_results@.len(),
            results_gas(tx_results@) <= u64::MAX,
            results@.len() == i,
            total_gas == results_gas(tx_results@.take(i as int)),
            forall|j: int| 0 <= j < i ==> reports_execution(#[trigger] results@[j], tx_results@[j].0),
        decreases n - i,
    {
        proof {
            lemma_gas_prefix(tx_results@, i + 1);
            assert(tx_results@.take(i + 1).drop_last() =~= tx_results@.take(i as int));
        }
        let r = &tx_results[i].0;
        total_gas = total_gas + r.gas_used();
        results.push(execution_output(r));
        i = i + 1;
    }
    assert(tx_results@.take(n as int) =~= tx_results@);
    let m = incarnations.len();
    let mut num_conflicts: usize = 0;
    let mut num_re_executions: usize = 0;
    let mut k: usize = 0;
    while k < m
        invariant
            k <= m,
            m == incarnations@.len(),
            incarnation_sum(incarnations@) <= usize::MAX,
            num_conflicts == reexecuted_count(incarnations@.take(k as int)),
            num_re_executions == incarnation_sum(incarnations@.take(k as int)),
        decreases m - k,
    {
        proof {
            lemma_counts_bounded(incarnations@, k + 1);
            assert(incarnations@.take(k + 1).drop_last() =~= incarnations@.take(k as int));
        }
        let inc = incarnations[k];
        if inc > 0 {
            num_conflicts = num_conflicts + 1;
            num_re_executions = num_re_executions + inc as usize;
        }
        k = k + 1;
    }
    assert(incarnations@.take(m as int) =~= incarnations@);
    CliOutput {
        results,
        incarnations,
        stats: CliStats { total_gas, num_transactions, num_conflicts, num_re_executions },
        conflict_details,
    }
}

// ── Pre-funded state ────────────────────────────────────────────────────────

/// Every sender starts with 1000 ETH and nonce 0.
pub open spec fn prefund_view() -> AccountView {
    AccountView {
        balance: U256 { hi: 0, lo: 1_000_000_000_000_000_000_000 },
        nonce: 0,
        code_hash: spec_keccak_empty(),
        code: None,
    }
}

/// The state a block runs on: each sender of `transactions` holds 1000 ETH
/// with nonce 0; nothing else is stored.
pub fn prefunded_state(transactions: &Vec<Transaction>) -> (s: InMemoryState)
    ensures
        forall|a: Address|
            #[trigger] s@.accounts.contains_key(a) <==> exists|i: int|
                0 <= i < transactions@.len() && transactions@[i].sender == a,
        forall|a: Address| #[trigger] s@.accounts.contains_key(a) ==> s@.accounts[a] == prefund_view(),
        s@.storage.is_empty(),
        s@.code.is_empty(),
        s@.block_hashes.is_empty(),
{
    let mut state = InMemoryState::new();
    let n = transactions.len();
    let mut i: usize = 0;
    while i < n
        invariant
            i <= n,
            n == transactions@.len(),
            forall|a: Address|
                #[trigger] state@.accounts.contains_key(a) <==> exists|j: int|
                    0 <= j < i && transactions@[j].sender == a,
            forall|a: Address| #[trigger] state@.accounts.contains_key(a) ==> state@.accounts[a] == prefund_view(),
            state@.storage.is_empty(),
            state@.code.is_empty(),
            state@.block_hashes.is_empty(),
        decreases n - i,
    {
        let sender = transactions[i].sender;
        state.insert_account(sender, AccountInfo::new(U256 { hi: 0, lo: 1_000_000_000_000_000_000_000 }, 0));
        proof {
            assert forall|a: Address|
                #[trigger] state@.accounts.contains_key(a) implies exists|j: int|
                    0 <= j < i + 1 && transactions@[j].sender == a by {
                if a != sender {
                    let j = choose|j: int| 0 <= j < i && transactions@[j].sender == a;
                    assert(0 <= j < i + 1 && transactions@[j].sender == a);
                } else {
                    assert(transactions@[i as int].sender == a);
                }
            }
        }
        i = i + 1;
    }
    state
}

} // verus!
