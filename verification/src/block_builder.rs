//! Building a block of transactions from a compiled contract.
//!
//! The block deploys the contract (transaction 0) and then calls each
//! state-changing function of its ABI `repeat_count` times, round after
//! round, with senders rotating over 64 pre-funded addresses so that the
//! block exercises parallel execution.

use vstd::prelude::*;
use vstd::string::StringSliceAdditionalSpecFns;

use crate::primitives::{be_bytes, keccak256, push_be_bytes, spec_keccak256, Address, B256, U256};
use crate::types::{BlockEnv, Bytes, Transaction};

verus! {

// ── Senders ─────────────────────────────────────────────────────────────────

/// Number of rotating senders.
pub const NUM_SENDERS: usize = 64;

/// Gas limit of every transaction of the block.
pub const GAS_LIMIT: u64 = 2_000_000;

/// Sender `i`: the address `0x…E0hhll` where `hhll` is `i + 1` (modulo 2^16).
pub open spec fn sender_address(i: int) -> Address {
    Address { hi: 0, lo: (0xE00000 + ((i + 1) % 65536)) as u128 }
}

/// The deployer of the contract, which is also sender 0.
pub open spec fn spec_deployer() -> Address {
    Address { hi: 0, lo: 0xE00001 }
}

pub fn deployer() -> (a: Address)
    ensures
        a == spec_deployer(),
        a == sender_address(0),
{
    Address { hi: 0, lo: 0xE00001 }
}

/// The `count` rotating senders.
pub fn generate_senders(count: usize) -> (v: Vec<Address>)
    ensures
        v@.len() == count,
        forall|i: int| 0 <= i < count ==> #[trigger] v@[i] == sender_address(i),
{
    let mut v: Vec<Address> = Vec::new();
    let mut i: usize = 0;
    while i < count
        invariant
            i <= count,
            v@.len() == i,
            forall|j: int| 0 <= j < i ==> #[trigger] v@[j] == sender_address(j),
        decreases count - i,
    {
        let low = ((i as u64) % 65536 + 1) % 65536;
        assert(low == (i + 1) % 65536);
        v.push(Address { hi: 0, lo: 0xE00000u128 + low as u128 });
        i = i + 1;
    }
    v
}

/// The gas price of every transaction: 1 gwei.
pub fn default_gas_price() -> (p: U256)
    ensures
        p.value() == 1_000_000_000,
        p == (U256 { hi: 0, lo: 1_000_000_000 }),
{
    U256 { hi: 0, lo: 1_000_000_000 }
}

// ── RLP and CREATE addresses ────────────────────────────────────────────────

/// Number of bytes of the minimal big-endian encoding of `v` (1 for zero).
pub open spec fn byte_len(v: nat) -> nat
    decreases v,
{
    if v < 256 {
        1
    } else {
        1 + byte_len(v / 256)
    }
}

/// The minimal big-endian bytes of `v` (a single zero byte for zero).
pub open spec fn min_bytes(v: u64) -> Seq<u8> {
    be_bytes(v as u128, byte_len(v as nat))
}

proof fn lemma_byte_len_bound(v: nat, k: nat)
    requires
        v < pow256(k),
        k >= 1,
    ensures
        byte_len(v) <= k,
    decreases k,
{
    if v >= 256 {
        assert(pow256(k) == 256 * pow256((k - 1) as nat));
        assert(v / 256 < pow256((k - 1) as nat)) by (nonlinear_arith)
            requires
                v < 256 * pow256((k - 1) as nat),
        ;
        lemma_byte_len_bound(v / 256, (k - 1) as nat);
    }
}

spec fn pow256(k: nat) -> nat
    decreases k,
{
    if k == 0 {
        1
    } else {
        256 * pow256((k - 1) as nat)
    }
}

/// Number of bytes of the minimal encoding of `val`.
fn byte_len_u64(val: u64) -> (n: usize)
    ensures
        n == byte_len(val as nat),
        1 <= n <= 8,
{
    let mut n: usize = 1;
    let mut v = val;
    proof {
        reveal_with_fuel(pow256, 9);
        assert(pow256(8) == 0x1_0000_0000_0000_0000);
        lemma_byte_len_bound(val as nat, 8);
    }
    while v >= 256
        invariant
            1 <= n <= 8,
            byte_len(val as nat) == n - 1 + byte_len(v as nat),
            byte_len(val as nat) <= 8,
        decreases v,
    {
        assert(byte_len((v / 256) as nat) >= 1);
        assert(byte_len(v as nat) == 1 + byte_len((v / 256) as nat));
        v = v / 256;
        n = n + 1;
    }
    n
}

/// The minimal big-endian bytes of `val` (a single zero byte for zero).
pub fn min_bytes_u64(val: u64) -> (v: Vec<u8>)
    ensures
        v@ == min_bytes(val),
        1 <= v@.len() <= 8,
{
    let n = byte_len_u64(val);
    let mut v: Vec<u8> = Vec::new();
    push_be_bytes(&mut v, val as u128, n);
    assert(v@ =~= min_bytes(val));
    v
}

/// Size of the RLP list prefix for a payload of `len` bytes.
pub fn list_len_prefix_size(len: usize) -> (n: usize)
    ensures
        n == (if len < 56 {
            1
        } else {
            1 + byte_len(len as nat)
        }),
{
    if len < 56 {
        1
    } else {
        1 + min_bytes_u64(len as u64).len()
    }
}

/// The RLP encoding of an unsigned integer.
pub open spec fn rlp_u64(val: u64) -> Seq<u8> {
    if val == 0 {
        seq![0x80u8]
    } else if val < 128 {
        seq![val as u8]
    } else {
        seq![(0x80 + byte_len(val as nat)) as u8] + min_bytes(val)
    }
}

/// RLP-encodes an unsigned integer.
pub fn rlp_encode_u64(val: u64) -> (out: Vec<u8>)
    ensures
        out@ == rlp_u64(val),
        1 <= out@.len() <= 9,
{
    if val == 0 {
        let out: Vec<u8> = vec![0x80u8];
        assert(out@ =~= rlp_u64(val));
        out
    } else if val < 128 {
        let out: Vec<u8> = vec![val as u8];
        assert(out@ =~= rlp_u64(val));
        out
    } else {
        let mut bytes = min_bytes_u64(val);
        let mut out: Vec<u8> = Vec::new();
        out.push(0x80u8 + bytes.len() as u8);
        out.append(&mut bytes);
        assert(out@ =~= rlp_u64(val));
        out
    }
}

/// The RLP encoding of the list `[sender, nonce]` hashed for CREATE.
pub open spec fn create_preimage(sender: Address, nonce: u64) -> Seq<u8> {
    let list_len = 21 + rlp_u64(nonce).len();
    let prefix = if list_len < 56 {
        seq![(0xc0 + list_len) as u8]
    } else {
        seq![(0xf7 + byte_len(list_len as nat)) as u8] + min_bytes(list_len as u64)
    };
    prefix + seq![0x94u8] + sender.spec_bytes() + rlp_u64(nonce)
}

/// The address of the contract created by `sender` with `nonce`: the last 20
/// bytes of the Keccak-256 digest of `create_preimage(sender, nonce)`.
pub open spec fn is_create_address(a: Address, sender: Address, nonce: u64) -> bool {
    a.spec_bytes() == spec_keccak256(create_preimage(sender, nonce)).subrange(12, 32)
}

/// The CREATE address of a contract deployed by `sender` with `nonce`.
pub fn compute_create_address(sender: Address, nonce: u64) -> (a: Address)
    ensures
        is_create_address(a, sender, nonce),
{
    let mut nonce_rlp = rlp_encode_u64(nonce);
    let list_len = 21 + nonce_rlp.len();
    let mut buf: Vec<u8> = Vec::new();
    if list_len < 56 {
        buf.push(0xc0u8 + list_len as u8);
    } else {
        let mut len_bytes = min_bytes_u64(list_len as u64);
        buf.push(0xf7u8 + len_bytes.len() as u8);
        buf.append(&mut len_bytes);
    }
    buf.push(0x94u8);
    sender.push_bytes(&mut buf);
    buf.append(&mut nonce_rlp);
    assert(buf@ =~= create_preimage(sender, nonce));
    let hash = keccak256(&buf);
    let mut hb: Vec<u8> = Vec::new();
    hash.push_bytes(&mut hb);
    let a = Address::from_slice_at(hb.as_slice(), 12);
    assert(hb@ =~= hash.spec_bytes());
    a
}

// ── Calldata ────────────────────────────────────────────────────────────────

pub open spec fn ascii_address() -> Seq<u8> {
    seq![97u8, 100u8, 100u8, 114u8, 101u8, 115u8, 115u8]
}

pub open spec fn ascii_bool() -> Seq<u8> {
    seq![98u8, 111u8, 111u8, 108u8]
}

pub open spec fn ascii_uint() -> Seq<u8> {
    seq![117u8, 105u8, 110u8, 116u8]
}

pub open spec fn ascii_int() -> Seq<u8> {
    seq![105u8, 110u8, 116u8]
}

pub open spec fn starts_with(s: Seq<u8>, p: Seq<u8>) -> bool {
    p.len() <= s.len() && s.subrange(0, p.len() as int) == p
}

/// The default argument word for a parameter of Solidity type `ty`: the
/// sender for `address`, one for `bool` and integer types, zero otherwise.
pub open spec fn spec_abi_word(ty: Seq<u8>, sender: Address) -> Seq<u8> {
    if ty == ascii_address() {
        Seq::new(12, |i: int| 0u8) + sender.spec_bytes()
    } else if ty == ascii_bool() || starts_with(ty, ascii_uint()) || starts_with(ty, ascii_int()) {
        Seq::new(31, |i: int| 0u8).push(1u8)
    } else {
        Seq::new(32, |i: int| 0u8)
    }
}

fn bytes_eq(a: &[u8], b: &[u8]) -> (r: bool)
    ensures
        r == (a@ == b@),
{
    if a.len() != b.len() {
        return false;
    }
    let n = a.len();
    let mut i: usize = 0;
    while i < n
        invariant
            i <= n,
            n == a@.len(),
            n == b@.len(),
            forall|j: int| 0 <= j < i ==> a@[j] == b@[j],
        decreases n - i,
    {
        if a[i] != b[i] {
            return false;
        }
        i = i + 1;
    }
    assert(a@ =~= b@);
    true
}

fn bytes_starts_with(s: &[u8], p: &[u8]) -> (r: bool)
    ensures
        r == starts_with(s@, p@),
{
    if p.len() > s.len() {
        return false;
    }
    let n = p.len();
    let mut i: usize = 0;
    while i < n
        invariant
            i <= n,
            n == p@.len(),
            n <= s@.len(),
            forall|j: int| 0 <= j < i ==> s@[j] == p@[j],
        decreases n - i,
    {
        if s[i] != p[i] {
            assert(s@.subrange(0, n as int)[i as int] == s@[i as int]);
            return false;
        }
        i = i + 1;
    }
    assert(s@.subrange(0, n as int) =~= p@);
    true
}

/// The default 32-byte argument word for a parameter of type `ty`.
pub fn default_abi_word(ty: &str, sender: Address) -> (word: [u8; 32])
    ensures
        word@ == spec_abi_word(ty.spec_bytes(), sender),
{
    let t = ty.as_bytes();
    let address_ty: [u8; 7] = [97u8, 100u8, 100u8, 114u8, 101u8, 115u8, 115u8];
    let bool_ty: [u8; 4] = [98u8, 111u8, 111u8, 108u8];
    let uint_ty: [u8; 4] = [117u8, 105u8, 110u8, 116u8];
    let int_ty: [u8; 3] = [105u8, 110u8, 116u8];
    assert(address_ty@ =~= ascii_address());
    assert(bool_ty@ =~= ascii_bool());
    assert(uint_ty@ =~= ascii_uint());
    assert(int_ty@ =~= ascii_int());
    let mut word: [u8; 32] = [0u8; 32];
    if bytes_eq(t, address_ty.as_slice()) {
        let mut v: Vec<u8> = Vec::new();
        sender.push_bytes(&mut v);
        let mut i: usize = 0;
        while i < 20
            invariant
                i <= 20,
                v@ == sender.spec_bytes(),
                v@.len() == 20,
                word@.len() == 32,
                forall|j: int| 0 <= j < 12 ==> word@[j] == 0u8,
                forall|j: int| 0 <= j < i ==> word@[12 + j] == v@[j],
            decreases 20 - i,
        {
            word[12 + i] = v[i];
            i = i + 1;
        }
        assert(word@ =~= spec_abi_word(t@, sender));
    } else if bytes_eq(t, bool_ty.as_slice()) || bytes_starts_with(t, uint_ty.as_slice())
        || bytes_starts_with(t, int_ty.as_slice()) {
        word[31] = 1u8;
        assert(word@ =~= spec_abi_word(t@, sender));
    } else {
        assert(word@ =~= spec_abi_word(t@, sender));
    }
    word
}

/// State mutability of an ABI function.
#[derive(Debug, Clone, Copy, PartialEq, Eq, Structural)]
pub enum Mutability {
    Pure,
    View,
    NonPayable,
    Payable,
}

/// A function of a contract ABI: its name, 4-byte selector, parameter types
/// and state mutability.
pub struct AbiFunction {
    pub name: String,
    pub selector: [u8; 4],
    pub input_types: Vec<String>,
    pub mutability: Mutability,
}

/// The abstract content of an ABI function.
pub struct AbiFunctionView {
    pub name: Seq<char>,
    pub selector: Seq<u8>,
    pub input_types: Seq<Seq<char>>,
    pub mutability: Mutability,
}

impl View for AbiFunction {
    type V = AbiFunctionView;

    open spec fn view(&self) -> AbiFunctionView {
        AbiFunctionView {
            name: self.name@,
            selector: self.selector@,
            input_types: self.input_types@.map_values(|t: String| t@),
            mutability: self.mutability,
        }
    }
}

/// The views of a list of ABI functions.
pub open spec fn abi_view(fs: Seq<AbiFunction>) -> Seq<AbiFunctionView> {
    fs.map_values(|f: AbiFunction| f@)
}

/// The default argument words of parameters of types `tys`, concatenated.
pub open spec fn abi_words(tys: Seq<Seq<char>>, sender: Address) -> Seq<u8>
    decreases tys.len(),
{
    if tys.len() == 0 {
        Seq::empty()
    } else {
        abi_words(tys.drop_last(), sender) + spec_abi_word(
            vstd::utf8::encode_utf8(tys.last()),
            sender,
        )
    }
}

/// The calldata of a call of `f`: its selector, then one default argument
/// word per parameter.
pub open spec fn spec_calldata(f: AbiFunctionView, sender: Address) -> Seq<u8> {
    f.selector + abi_words(f.input_types, sender)
}

/// Encodes a call of `f` with default arguments.
pub fn encode_function_call(f: &AbiFunction, sender: Address) -> (r: Option<Vec<u8>>)
    ensures
        r is Some,
        r->Some_0@ == spec_calldata(f@, sender),
{
    let mut calldata: Vec<u8> = Vec::new();
    calldata.push(f.selector[0]);
    calldata.push(f.selector[1]);
    calldata.push(f.selector[2]);
    calldata.push(f.selector[3]);
    assert(calldata@ =~= f.selector@);
    let n = f.input_types.len();
    let mut i: usize = 0;
    while i < n
        invariant
            i <= n,
            n == f.input_types@.len(),
            calldata@ == f.selector@ + abi_words(f@.input_types.take(i as int), sender),
        decreases n - i,
    {
        let word = default_abi_word(f.input_types[i].as_str(), sender);
        let ghost before = calldata@;
        let mut j: usize = 0;
        while j < 32
            invariant
                j <= 32,
                word@.len() == 32,
                calldata@ == before + word@.take(j as int),
            decreases 32 - j,
        {
            calldata.push(word[j]);
            assert(word@.take(j + 1) =~= word@.take(j as int).push(word@[j as int]));
            j = j + 1;
        }
        proof {
            assert(word@.take(32) =~= word@);
            assert(f@.input_types.take(i + 1).drop_last() =~= f@.input_types.take(i as int));
            assert(f@.input_types.take(i + 1).last() == f.input_types@[i as int]@);
            assert(calldata@ =~= f.selector@ + abi_words(f@.input_types.take(i + 1), sender));
        }
        i = i + 1;
    }
    assert(f@.input_types.take(n as int) =~= f@.input_types);
    Some(calldata)
}

// ── Repeat count ────────────────────────────────────────────────────────────

/// The inputs on which `default_repeat_count` computes without overflow: the
/// count, taken modulo 2^32, is nonzero and at most `u32::MAX - 300`.
pub open spec fn repeat_count_defined(n: usize) -> bool {
    n == 0 || (n as int % 0x1_0000_0000 != 0 && n as int % 0x1_0000_0000 <= 0xffff_fed3)
}

/// `ceil(300 / n)` clamped to `1..=1000` (`n` taken modulo 2^32); 1 for no
/// function.
pub open spec fn spec_default_repeat_count(n: usize) -> u32 {
    if n == 0 {
        1
    } else {
        let m: int = n as int % 0x1_0000_0000;
        let c: int = (300 + m - 1) / m;
        if c < 1 {
            1
        } else if c > 1000 {
            1000
        } else {
            c as u32
        }
    }
}

/// The number of rounds that targets about 300 call transactions for
/// `state_changing_fn_count` functions.
pub fn default_repeat_count(state_changing_fn_count: usize) -> (r: u32)
    requires
        repeat_count_defined(state_changing_fn_count),
    ensures
        r == spec_default_repeat_count(state_changing_fn_count),
{
    if state_changing_fn_count == 0 {
        return 1;
    }
    let m64 = (state_changing_fn_count as u64) % 0x1_0000_0000u64;
    assert(m64 == state_changing_fn_count as int % 0x1_0000_0000);
    let m = m64 as u32;
    assert(m == m64);
    let target = 300u32;
    let count = (target + m - 1) / m;
    if count < 1 {
        1
    } else if count > 1000 {
        1000
    } else {
        count
    }
}

// ── Building the block ──────────────────────────────────────────────────────

/// Output of the compiler for one contract.
#[derive(Debug, Clone, PartialEq, Eq)]
pub struct CompileResult {
    pub contract_name: String,
    /// The ABI as JSON text.
    pub abi_json: String,
    /// The bytecode as hexadecimal text (no `0x`).
    pub bytecode: String,
    /// The storage layout as JSON text.
    pub storage_layout: String,
}

/// Errors of block construction.
#[derive(Debug, Clone, PartialEq, Eq)]
pub enum BuildError {
    AbiParse(String),
    NoStateChangingFunctions,
    /// The block would hold more transactions than a vector can index.
    TooManyTransactions,
}

impl BuildError {
    pub open spec fn message(&self) -> Seq<char> {
        match self {
            BuildError::AbiParse(s) => "failed to parse ABI: "@ + s@,
            BuildError::NoStateChangingFunctions => "no state-changing functions found in contract"@,
            BuildError::TooManyTransactions => "too many transactions for one block"@,
        }
    }

    /// Renders the error message.
    pub fn to_string(&self) -> (s: String)
        ensures
            s@ == self.message(),
    {
        let mut s = String::new();
        match self {
            BuildError::AbiParse(m) => {
                s.append("failed to parse ABI: ");
                s.append(m.as_str());
            },
            BuildError::NoStateChangingFunctions => {
                s.append("no state-changing functions found in contract");
            },
            BuildError::TooManyTransactions => {
                s.append("too many transactions for one block");
            },
        }
        s
    }
}

/// The constructed block: deploy transaction first, then the calls; the
/// name of the function each transaction calls (`constructor` for the
/// deploy); and the block environment.
pub struct BuildResult {
    pub transactions: Vec<Transaction>,
    pub block_env: BlockEnv,
    pub tx_function_map: Vec<String>,
}

pub open spec fn is_state_changing(m: Mutability) -> bool {
    m == Mutability::NonPayable || m == Mutability::Payable
}

/// The state-changing functions of `fs`, in order.
pub open spec fn state_changing(fs: Seq<AbiFunctionView>) -> Seq<AbiFunctionView>
    decreases fs.len(),
{
    if fs.len() == 0 {
        Seq::empty()
    } else if is_state_changing(fs.last().mutability) {
        state_changing(fs.drop_last()).push(fs.last())
    } else {
        state_changing(fs.drop_last())
    }
}

/// The number of rounds: the given count, or the default for `n` functions.
pub open spec fn resolved_repeats(repeat_count: Option<u32>, n: int) -> int {
    match repeat_count {
        Some(r) => r as int,
        None => spec_default_repeat_count(n as usize) as int,
    }
}

/// The inputs on which the block can be built without overflow: the default
/// repeat count is defined, and the block's transactions can be counted.
pub open spec fn build_defined(fs: Seq<AbiFunctionView>, repeat_count: Option<u32>) -> bool {
    let n = state_changing(fs).len();
    n > 0 ==> {
        &&& repeat_count is None ==> repeat_count_defined(n as usize)
        &&& 1 + n * resolved_repeats(repeat_count, n as int) <= usize::MAX
    }
}

/// Calls before call `k` that come from sender slot `slot`; call `c` uses
/// slot `(1 + c) % 64`.
pub open spec fn calls_before(k: int, slot: int) -> nat
    decreases k,
{
    if k <= 0 {
        0
    } else {
        calls_before(k - 1, slot) + if k % 64 == slot {
            1nat
        } else {
            0nat
        }
    }
}

/// The nonce of call `k`: the earlier calls from its sender, plus one for
/// the deployer (sender slot 0), whose nonce 0 went to the deploy.
pub open spec fn call_nonce(k: int) -> int {
    calls_before(k, (1 + k) % 64) + if (1 + k) % 64 == 0 {
        1int
    } else {
        0int
    }
}

pub open spec fn gas_price_1_gwei() -> U256 {
    U256 { hi: 0, lo: 1_000_000_000 }
}

/// The deploy transaction of `bytecode`.
pub open spec fn is_deploy_tx(tx: Transaction, bytecode: Seq<u8>) -> bool {
    &&& tx.sender == spec_deployer()
    &&& tx.to is None
    &&& tx.value == U256 { hi: 0, lo: 0 }
    &&& tx.data@ == bytecode
    &&& tx.gas_limit == 2_000_000
    &&& tx.nonce == 0
    &&& tx.gas_price == gas_price_1_gwei()
}

/// Call `k` of the block, calling `f` on the deployed contract.
pub open spec fn is_call_tx(tx: Transaction, f: AbiFunctionView, k: int) -> bool {
    let sender = sender_address((1 + k) % 64);
    &&& tx.sender == sender
    &&& tx.to matches Some(c) && is_create_address(c, spec_deployer(), 0)
    &&& tx.value == U256 { hi: 0, lo: 0 }
    &&& tx.data@ == spec_calldata(f, sender)
    &&& tx.gas_limit == 2_000_000
    &&& tx.nonce == call_nonce(k)
    &&& tx.gas_price == gas_price_1_gwei()
}

/// The environment of the built block.
pub open spec fn is_built_block_env(e: BlockEnv) -> bool {
    &&& e.number == 1
    &&& e.coinbase == Address { hi: 0, lo: 0xFF }
    &&& e.timestamp == 1_700_000_000
    &&& e.gas_limit == 30_000_000
    &&& e.base_fee == U256 { hi: 0, lo: 0 }
    &&& e.difficulty == U256 { hi: 0, lo: 0 }
}

/// `r` is the block built from ABI functions `fs`, bytecode `bytecode` and
/// `repeat_count`: an error when no function is state-changing; otherwise
/// the deploy, then `repeats` rounds of one call per state-changing
/// function, in ABI order.
pub open spec fn build_outcome(
    fs: Seq<AbiFunctionView>,
    bytecode: Seq<u8>,
    repeat_count: Option<u32>,
    r: Result<BuildResult, BuildError>,
) -> bool {
    let sc = state_changing(fs);
    let n = sc.len() as int;
    if n == 0 {
        r == Err::<BuildResult, BuildError>(BuildError::NoStateChangingFunctions)
    } else {
        let calls = n * resolved_repeats(repeat_count, n);
        &&& r is Ok
        &&& r->Ok_0.transactions@.len() == 1 + calls
        &&& is_deploy_tx(r->Ok_0.transactions@[0], bytecode)
        &&& forall|k: int|
            0 <= k < calls ==> is_call_tx(#[trigger] r->Ok_0.transactions@[1 + k], sc[k % n], k)
        &&& r->Ok_0.tx_function_map@.len() == 1 + calls
        &&& r->Ok_0.tx_function_map@[0]@ == "constructor"@
        &&& forall|k: int|
            0 <= k < calls ==> (#[trigger] r->Ok_0.tx_function_map@[1 + k])@ == sc[k % n].name
        &&& is_built_block_env(r->Ok_0.block_env)
    }
}

proof fn lemma_calls_before_bound(k: int, slot: int)
    requires
        k >= 0,
    ensures
        calls_before(k, slot) <= k,
    decreases k,
{
    if k > 0 {
        lemma_calls_before_bound(k - 1, slot);
    }
}

/// Positions in `fs` of its state-changing functions.
fn state_changing_positions(fs: &Vec<AbiFunction>) -> (idx: Vec<usize>)
    ensures
        idx@.len() == state_changing(abi_view(fs@)).len(),
        forall|j: int|
            0 <= j < idx@.len() ==> #[trigger] idx@[j] < fs@.len() && fs@[idx@[j] as int]@
                == state_changing(abi_view(fs@))[j],
{
    let mut idx: Vec<usize> = Vec::new();
    let n = fs.len();
    let mut i: usize = 0;
    while i < n
        invariant
            i <= n,
            n == fs@.len(),
            idx@.len() == state_changing(abi_view(fs@).take(i as int)).len(),
            forall|j: int|
                0 <= j < idx@.len() ==> #[trigger] idx@[j] < i && fs@[idx@[j] as int]@
                    == state_changing(abi_view(fs@).take(i as int))[j],
        decreases n - i,
    {
        proof {
            assert(abi_view(fs@).take(i + 1).drop_last() =~= abi_view(fs@).take(i as int));
            assert(abi_view(fs@).take(i + 1).last() == fs@[i as int]@);
        }
        match fs[i].mutability {
            Mutability::NonPayable | Mutability::Payable => {
                idx.push(i);
            },
            _ => {},
        }
        i = i + 1;
    }
    assert(abi_view(fs@).take(n as int) =~= abi_view(fs@));
    idx
}

/// Builds the block from ABI functions `functions` and `bytecode`: the
/// deploy transaction, then `repeat_count` rounds (or the default count) of
/// one call per state-changing function, senders rotating over 64 addresses
/// starting at the second, each sender's nonces counting up.
pub fn build_from_abi(functions: &Vec<AbiFunction>, bytecode: Vec<u8>, repeat_count: Option<u32>) -> (r: Result<BuildResult, BuildError>)
    requires
        build_defined(abi_view(functions@), repeat_count),
    ensures
        build_outcome(abi_view(functions@), bytecode@, repeat_count, r),
{
    let ghost fs = abi_view(functions@);
    let ghost sc = state_changing(fs);
    let idx = state_changing_positions(functions);
    let nf = idx.len();
    if nf == 0 {
        return Err(BuildError::NoStateChangingFunctions);
    }
    let repeats: u32 = match repeat_count {
        Some(r) => r,
        None => default_repeat_count(nf),
    };
    let ghost calls = nf * repeats;
    let senders = generate_senders(NUM_SENDERS);
    let mut transactions: Vec<Transaction> = Vec::new();
    let mut names: Vec<String> = Vec::new();
    let ghost code = bytecode@;
    transactions.push(
        Transaction {
            sender: deployer(),
            to: None,
            value: U256::zero(),
            data: bytecode,
            gas_limit: GAS_LIMIT,
            nonce: 0,
            gas_price: default_gas_price(),
        },
    );
    names.push("constructor".to_string());
    let contract_addr = compute_create_address(deployer(), 0);
    let mut counters: Vec<u64> = Vec::new();
    let mut c: usize = 0;
    while c < NUM_SENDERS
        invariant
            c <= 64,
            counters@.len() == c,
            forall|s: int| 0 <= s < c ==> #[trigger] counters@[s] == (if s == 0 {
                1u64
            } else {
                0u64
            }),
        decreases 64 - c,
    {
        counters.push(if c == 0 {
            1u64
        } else {
            0u64
        });
        c = c + 1;
    }
    let mut slot: usize = 1;
    let mut k: usize = 0;
    let mut round: u32 = 0;
    while round < repeats
        invariant
            round <= repeats,
            nf == sc.len(),
            nf > 0,
            sc == state_changing(fs),
            fs == abi_view(functions@),
            forall|j: int|
                0 <= j < idx@.len() ==> #[trigger] idx@[j] < functions@.len()
                    && functions@[idx@[j] as int]@ == sc[j],
            idx@.len() == nf,
            calls == nf * repeats,
            1 + calls <= usize::MAX,
            k == round * nf,
            senders@.len() == 64,
            forall|i: int| 0 <= i < 64 ==> #[trigger] senders@[i] == sender_address(i),
            is_create_address(contract_addr, spec_deployer(), 0),
            slot == (1 + k) % 64,
            counters@.len() == 64,
            forall|s: int| 0 <= s < 64 ==> #[trigger] counters@[s] == calls_before(k as int, s) + (
            if s == 0 {
                1int
            } else {
                0int
            }),
            transactions@.len() == 1 + k,
            names@.len() == 1 + k,
            is_deploy_tx(transactions@[0], code),
            names@[0]@ == "constructor"@,
            forall|j: int|
                0 <= j < k ==> is_call_tx(#[trigger] transactions@[1 + j], sc[j % (nf as int)], j),
            forall|j: int| 0 <= j < k ==> (#[trigger] names@[1 + j])@ == sc[j % (nf as int)].name,
        decreases repeats - round,
    {
        assert(k + nf <= calls) by (nonlinear_arith)
            requires
                k == round * nf,
                round < repeats,
                calls == nf * repeats,
        ;
        let mut j: usize = 0;
        while j < nf
            invariant
                j <= nf,
                round < repeats,
                nf == sc.len(),
                nf > 0,
                forall|x: int|
                    0 <= x < idx@.len() ==> #[trigger] idx@[x] < functions@.len()
                        && functions@[idx@[x] as int]@ == sc[x],
                idx@.len() == nf,
                k == round * nf + j,
                round * nf + nf <= calls,
                1 + calls <= usize::MAX,
                senders@.len() == 64,
                forall|i: int| 0 <= i < 64 ==> #[trigger] senders@[i] == sender_address(i),
                is_create_address(contract_addr, spec_deployer(), 0),
                slot == (1 + k) % 64,
                counters@.len() == 64,
                forall|s: int| 0 <= s < 64 ==> #[trigger] counters@[s] == calls_before(k as int, s) + (
                if s == 0 {
                    1int
                } else {
                    0int
                }),
                transactions@.len() == 1 + k,
                names@.len() == 1 + k,
                is_deploy_tx(transactions@[0], code),
                names@[0]@ == "constructor"@,
                forall|x: int|
                    0 <= x < k ==> is_call_tx(#[trigger] transactions@[1 + x], sc[x % (nf as int)], x),
                forall|x: int| 0 <= x < k ==> (#[trigger] names@[1 + x])@ == sc[x % (nf as int)].name,
            decreases nf - j,
        {
            let f = &functions[idx[j]];
            let sender = senders[slot];
            let nonce = counters[slot];
            proof {
                lemma_calls_before_bound(k as int, slot as int);
                assert(k as int % (nf as int) == j) by (nonlinear_arith)
                    requires
                        k == round * nf + j,
                        j < nf,
                        nf > 0,
                {
                    vstd::arithmetic::div_mod::lemma_fundamental_div_mod_converse(
                        k as int,
                        nf as int,
                        round as int,
                        j as int,
                    );
                }
            }
            let calldata = match encode_function_call(f, sender) {
                Some(d) => d,
                None => Vec::new(),
            };
            transactions.push(
                Transaction {
                    sender,
                    to: Some(contract_addr),
                    value: U256::zero(),
                    data: calldata,
                    gas_limit: GAS_LIMIT,
                    nonce,
                    gas_price: default_gas_price(),
                },
            );
            names.push(f.name.clone());
            counters.set(slot, nonce + 1);
            proof {
                assert forall|s: int| 0 <= s < 64 implies #[trigger] counters@[s] == calls_before(
                    k + 1,
                    s,
                ) + (if s == 0 {
                    1int
                } else {
                    0int
                }) by {
                    assert(calls_before(k + 1, s) == calls_before(k as int, s) + if (k + 1) % 64
                        == s {
                        1nat
                    } else {
                        0nat
                    });
                }
                assert(is_call_tx(transactions@[1 + k as int], sc[k as int % (nf as int)], k as int));
            }
            slot = (slot + 1) % 64;
            k = k + 1;
            j = j + 1;
        }
        round = round + 1;
        assert(k == round * nf) by (nonlinear_arith)
            requires
                k == (round - 1) * nf + nf,
        ;
    }
    proof {
        assert(resolved_repeats(repeat_count, nf as int) == repeats as int);
        assert(k == calls) by (nonlinear_arith)
            requires
                k == round * nf,
                round == repeats,
                calls == nf * repeats,
        ;
        assert(calls == (sc.len() as int) * resolved_repeats(repeat_count, sc.len() as int));
    }
    let block_env = BlockEnv {
        number: 1,
        coinbase: Address::with_last_byte(0xFF),
        timestamp: 1_700_000_000,
        gas_limit: 30_000_000,
        base_fee: U256::zero(),
        difficulty: U256::zero(),
    };
    Ok(BuildResult { transactions, block_env, tx_function_map: names })
}

spec fn pure_or_view(f: AbiFunctionView) -> bool {
    f.mutability == Mutability::Pure || f.mutability == Mutability::View
}

proof fn lemma_sc_empty(fs: Seq<AbiFunctionView>)
    ensures
        state_changing(fs).len() == 0 <==> forall|j: int| 0 <= j < fs.len() ==> pure_or_view(#[trigger] fs[j]),
    decreases fs.len(),
{
    if fs.len() > 0 {
        let init = fs.drop_last();
        lemma_sc_empty(init);
        if forall|j: int| 0 <= j < fs.len() ==> pure_or_view(#[trigger] fs[j]) {
            assert forall|j: int| 0 <= j < init.len() implies pure_or_view(#[trigger] init[j]) by {
                assert(init[j] == fs[j]);
            }
            assert(pure_or_view(fs[fs.len() - 1]));
        }
        if state_changing(fs).len() == 0 {
            assert forall|j: int| 0 <= j < fs.len() implies pure_or_view(#[trigger] fs[j]) by {
                if j < fs.len() - 1 {
                    assert(fs[j] == init[j]);
                }
            }
        }
    }
}

proof fn lemma_sc_contains(fs: Seq<AbiFunctionView>, j: int)
    requires
        0 <= j < fs.len(),
        fs[j].mutability == Mutability::NonPayable || fs[j].mutability == Mutability::Payable,
    ensures
        exists|p: int| 0 <= p < state_changing(fs).len() && state_changing(fs)[p] == fs[j],
    decreases fs.len(),
{
    let init = fs.drop_last();
    let sc = state_changing(fs);
    if j == fs.len() - 1 {
        assert(sc[state_changing(init).len() as int] == fs[j]);
    } else {
        assert(fs[j] == init[j]);
        lemma_sc_contains(init, j);
        let p = choose|p: int| 0 <= p < state_changing(init).len() && state_changing(init)[p] == init[j];
        assert(sc[p] == state_changing(init)[p]);
    }
}

proof fn lemma_sc_from(fs: Seq<AbiFunctionView>, p: int)
    requires
        0 <= p < state_changing(fs).len(),
    ensures
        exists|j: int|
            0 <= j < fs.len() && fs[j] == state_changing(fs)[p] && (fs[j].mutability == Mutability::NonPayable
                || fs[j].mutability == Mutability::Payable),
    decreases fs.len(),
{
    let init = fs.drop_last();
    let sc0 = state_changing(init);
    let sc = state_changing(fs);
    if p < sc0.len() {
        assert(sc[p] == sc0[p]);
        lemma_sc_from(init, p);
        let j = choose|j: int|
            0 <= j < init.len() && init[j] == sc0[p] && (init[j].mutability == Mutability::NonPayable
                || init[j].mutability == Mutability::Payable);
        assert(fs[j] == init[j]);
    } else {
        assert(sc[p] == fs[fs.len() - 1]);
    }
}

/// The block calls every payable and every nonpayable function of the ABI
/// (each in the first round, when there is a round) and no other; it is
/// refused for having no state-changing function exactly when every
/// function is pure or view.
pub proof fn lemma_build_calls_state_changing(
    fs: Seq<AbiFunctionView>,
    bytecode: Seq<u8>,
    repeat_count: Option<u32>,
    r: Result<BuildResult, BuildError>,
)
    requires
        build_outcome(fs, bytecode, repeat_count, r),
        repeat_count != Some(0u32),
    ensures
        r == Err::<BuildResult, BuildError>(BuildError::NoStateChangingFunctions) <==> forall|j: int|
            0 <= j < fs.len() ==> (#[trigger] fs[j]).mutability == Mutability::Pure || fs[j].mutability
                == Mutability::View,
        r is Ok ==> forall|j: int|
            0 <= j < fs.len() && ((#[trigger] fs[j]).mutability == Mutability::NonPayable || fs[j].mutability
                == Mutability::Payable) ==> exists|k: int|
                0 <= k < r->Ok_0.transactions@.len() - 1 && is_call_tx(
                    #[trigger] r->Ok_0.transactions@[1 + k],
                    fs[j],
                    k,
                ) && r->Ok_0.tx_function_map@[1 + k]@ == fs[j].name,
        r is Ok ==> forall|k: int|
            0 <= k < r->Ok_0.transactions@.len() - 1 ==> exists|j: int|
                0 <= j < fs.len() && (fs[j].mutability == Mutability::NonPayable || fs[j].mutability
                    == Mutability::Payable) && is_call_tx(#[trigger] r->Ok_0.transactions@[1 + k], fs[j], k),
{
    lemma_sc_empty(fs);
    let sc = state_changing(fs);
    let n = sc.len() as int;
    if n > 0 {
        let reps = resolved_repeats(repeat_count, n);
        assert(reps >= 1);
        let calls = n * reps;
        assert(calls >= n) by (nonlinear_arith)
            requires
                reps >= 1,
                n > 0,
                calls == n * reps,
        ;
        let b = r->Ok_0;
        assert(b.transactions@.len() - 1 == calls);
        assert forall|j: int|
            0 <= j < fs.len() && ((#[trigger] fs[j]).mutability == Mutability::NonPayable || fs[j].mutability
                == Mutability::Payable) implies exists|k: int|
            0 <= k < b.transactions@.len() - 1 && is_call_tx(#[trigger] b.transactions@[1 + k], fs[j], k)
                && b.tx_function_map@[1 + k]@ == fs[j].name by {
            lemma_sc_contains(fs, j);
            let p = choose|p: int| 0 <= p < sc.len() && sc[p] == fs[j];
            vstd::arithmetic::div_mod::lemma_small_mod(p as nat, n as nat);
            assert(is_call_tx(b.transactions@[1 + p], sc[p % n], p));
            assert(b.tx_function_map@[1 + p]@ == sc[p % n].name);
        }
        assert forall|k: int| 0 <= k < b.transactions@.len() - 1 implies exists|j: int|
            0 <= j < fs.len() && (fs[j].mutability == Mutability::NonPayable || fs[j].mutability
                == Mutability::Payable) && is_call_tx(#[trigger] b.transactions@[1 + k], fs[j], k) by {
            vstd::arithmetic::div_mod::lemma_mod_bound(k, n);
            let p = k % n;
            assert(is_call_tx(b.transactions@[1 + k], sc[p], k));
            lemma_sc_from(fs, p);
        }
    }
}

/// The rotating senders are pairwise distinct.
pub proof fn lemma_senders_distinct(i: int, j: int)
    requires
        0 <= i < j < 65535,
    ensures
        sender_address(i) != sender_address(j),
{
    assert((i + 1) % 65536 == i + 1);
    assert((j + 1) % 65536 == j + 1);
}

proof fn lemma_calls_window(k: int, d: int)
    requires
        k >= 0,
        0 <= d <= 64,
    ensures
        calls_before(k + d, (1 + k) % 64) == calls_before(k, (1 + k) % 64) + if d >= 1 {
            1nat
        } else {
            0nat
        },
    decreases d,
{
    if d > 0 {
        lemma_calls_window(k, d - 1);
        let s = (1 + k) % 64;
        if d >= 2 {
            assert((k + d) % 64 != s) by {
                assert(k + d == (k + 1) + (d - 1));
                vstd::arithmetic::div_mod::lemma_fundamental_div_mod(k + 1, 64);
                vstd::arithmetic::div_mod::lemma_fundamental_div_mod(k + d, 64);
            }
        }
    }
}

/// A sender's calls have consecutive nonces: the next call from the same
/// sender, 64 calls later, has the next nonce.
pub proof fn lemma_sender_nonces_consecutive(k: int)
    requires
        k >= 0,
    ensures
        (1 + k) % 64 == (1 + (k + 64)) % 64,
        call_nonce(k + 64) == call_nonce(k) + 1,
{
    lemma_calls_window(k, 64);
    assert((1 + (k + 64)) % 64 == (1 + k) % 64) by {
        vstd::arithmetic::div_mod::lemma_fundamental_div_mod(1 + k, 64);
        vstd::arithmetic::div_mod::lemma_fundamental_div_mod_converse(
            1 + k + 64,
            64,
            (1 + k) / 64 + 1,
            (1 + k) % 64,
        );
    }
}

// ── From compiler output ────────────────────────────────────────────────────

/// The functions of an ABI given as JSON text, in the order in which the
/// parsed ABI lists them, or the parser's error message.
pub uninterp spec fn spec_parse_abi(abi_json: Seq<char>) -> Result<Seq<AbiFunctionView>, Seq<char>>;

pub open spec fn abi_result_view(r: Result<Vec<AbiFunction>, String>) -> Result<
    Seq<AbiFunctionView>,
    Seq<char>,
> {
    match r {
        Ok(v) => Ok(abi_view(v@)),
        Err(s) => Err(s@),
    }
}

/// Parses the JSON text with `serde_json::from_str` into an
/// `alloy_json_abi::JsonAbi` and lists its functions (`JsonAbi::functions`)
/// with their selectors (`Function::selector`). Trusted to be a function of
/// the text alone; what it returns on given text is not stated.
#[verifier::external_body]
fn parse_abi_functions(abi_json: &str) -> (r: Result<Vec<AbiFunction>, String>)
    ensures
        abi_result_view(r) == spec_parse_abi(abi_json@),
{
    let abi: alloy_json_abi::JsonAbi = serde_json::from_str(abi_json).map_err(|e| format!("{e}"))?;
    let mut out = Vec::new();
    for f in abi.functions() {
        let mutability = match f.state_mutability {
            alloy_json_abi::StateMutability::Pure => Mutability::Pure,
            alloy_json_abi::StateMutability::View => Mutability::View,
            alloy_json_abi::StateMutability::NonPayable => Mutability::NonPayable,
            alloy_json_abi::StateMutability::Payable => Mutability::Payable,
        };
        let input_types = f.inputs.iter().map(|p| p.ty.clone()).collect();
        out.push(AbiFunction { name: f.name.clone(), selector: f.selector().0, input_types, mutability });
    }
    Ok(out)
}

pub open spec fn is_hex_digit(b: u8) -> bool {
    (48 <= b <= 57) || (65 <= b <= 70) || (97 <= b <= 102)
}

pub open spec fn hex_val(b: u8) -> int {
    if 48 <= b <= 57 {
        b - 48
    } else if 65 <= b <= 70 {
        b - 55
    } else {
        b - 87
    }
}

/// Hexadecimal text: an even number of digits of either case.
pub open spec fn is_hex_text(s: Seq<u8>) -> bool {
    s.len() % 2 == 0 && forall|i: int| 0 <= i < s.len() ==> is_hex_digit(#[trigger] s[i])
}

/// The bytes that hexadecimal text stands for, two digits per byte.
pub open spec fn hex_bytes(s: Seq<u8>) -> Seq<u8> {
    Seq::new((s.len() / 2) as nat, |i: int| (hex_val(s[2 * i]) * 16 + hex_val(s[2 * i + 1])) as u8)
}

/// The message of the decoder's error for text that is not hexadecimal.
pub uninterp spec fn spec_hex_error(s: Seq<u8>) -> Seq<char>;

/// Calls `hex::decode`. Per the crate's source it accepts exactly an even
/// number of hex digits of either case and returns two digits per byte;
/// otherwise it fails, with a message (rendered with `Display`) that is
/// trusted to be a function of the text; which message is not stated.
#[verifier::external_body]
pub(crate) fn hex_decode(s: &str) -> (r: Result<Vec<u8>, String>)
    ensures
        r is Ok <==> is_hex_text(s.spec_bytes()),
        r is Ok ==> r->Ok_0@ == hex_bytes(s.spec_bytes()),
        r is Err ==> r->Err_0@ == spec_hex_error(s.spec_bytes()),
{
    match hex::decode(s) {
        Ok(v) => Ok(v),
        Err(e) => Err(format!("{e}")),
    }
}

/// Whether the block of `functions` and `repeat_count` can be built without
/// overflow (see `build_defined`).
pub fn block_size_fits(functions: &Vec<AbiFunction>, repeat_count: Option<u32>) -> (b: bool)
    ensures
        b == build_defined(abi_view(functions@), repeat_count),
{
    let idx = state_changing_positions(functions);
    let n = idx.len();
    if n == 0 {
        return true;
    }
    let repeats = match repeat_count {
        Some(r) => r,
        None => {
            let m = (n as u64) % 0x1_0000_0000u64;
            assert(m == n as int % 0x1_0000_0000);
            if m == 0 || m > 0xffff_fed3u64 {
                return false;
            }
            default_repeat_count(n)
        },
    };
    match n.checked_mul(repeats as usize) {
        Some(c) => c.checked_add(1).is_some(),
        None => {
            assert(n * repeats > usize::MAX);
            false
        },
    }
}

/// `r` is the block built from compiled contract `c`: the ABI's parse error,
/// the bytecode's hex error, the block of `build_from_abi`, or the error of
/// a block too large to count.
pub open spec fn builds(c: CompileResult, repeat_count: Option<u32>, r: Result<BuildResult, BuildError>) -> bool {
    match spec_parse_abi(c.abi_json@) {
        Err(msg) => r matches Err(BuildError::AbiParse(m)) && m@ == msg,
        Ok(fs) => {
            let b = vstd::utf8::encode_utf8(c.bytecode@);
            if !is_hex_text(b) {
                r matches Err(BuildError::AbiParse(m)) && m@ == "invalid bytecode hex: "@ + spec_hex_error(b)
            } else if build_defined(fs, repeat_count) {
                build_outcome(fs, hex_bytes(b), repeat_count, r)
            } else {
                r == Err::<BuildResult, BuildError>(BuildError::TooManyTransactions)
            }
        },
    }
}

/// Builds the block of a compiled contract: parses the ABI, decodes the
/// bytecode and builds the block (`build_from_abi`). Errors: the ABI does
/// not parse, the bytecode is not hexadecimal, no function is
/// state-changing, or the block would be too large to count.
pub fn build(compile_result: &CompileResult, repeat_count: Option<u32>) -> (r: Result<BuildResult, BuildError>)
    ensures
        builds(*compile_result, repeat_count, r),
{
    let functions = match parse_abi_functions(compile_result.abi_json.as_str()) {
        Ok(f) => f,
        Err(e) => {
            return Err(BuildError::AbiParse(e));
        },
    };
    let bytecode = match hex_decode(compile_result.bytecode.as_str()) {
        Ok(b) => b,
        Err(e) => {
            let mut m = String::new();
            m.append("invalid bytecode hex: ");
            m.append(e.as_str());
            return Err(BuildError::AbiParse(m));
        },
    };
    if !block_size_fits(&functions, repeat_count) {
        return Err(BuildError::TooManyTransactions);
    }
    build_from_abi(&functions, bytecode, repeat_count)
}

} // verus!
