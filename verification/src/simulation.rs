//! The simulation pipeline around the external execution engine.
//!
//! A built block is rendered as the engine's input (addresses as `0x` and
//! 40 lowercase hex digits, byte strings as `0x` and two hex digits per
//! byte, amounts in decimal); the engine's output is mapped to the response
//! of a simulation, game events included.

use sha2::Digest;
use vstd::string::StringSliceAdditionalSpecFns;
use vstd::prelude::*;

use crate::block_builder::{build, builds, BuildError, BuildResult, CompileResult};
use crate::game_events::{schedule_fits, spec_map_to_events, ConflictInput, GameEventMapper, ScheduledEvent, TxResult};
use crate::primitives::{Address, U256};
use crate::text::{
    address_hex, decimal_chars, hex_of_bytes, push_address_hex, push_decimal, push_hex_bytes,
    push_u256_decimal,
};
use crate::types::{BlockEnv, Transaction};

verus! {

// ── Engine input ────────────────────────────────────────────────────────────

/// `0x` followed by the 40 lowercase hex digits of `a`.
pub open spec fn prefixed_address(a: Address) -> Seq<char> {
    "0x"@ + address_hex(a)
}

/// `0x` followed by two lowercase hex digits per byte.
pub open spec fn prefixed_hex(bytes: Seq<u8>) -> Seq<char> {
    "0x"@ + hex_of_bytes(bytes)
}

/// The decimal rendering of a 256-bit amount.
pub open spec fn amount_text(x: U256) -> Seq<char> {
    decimal_chars(x.value() as nat)
}

/// One transaction as the engine reads it; `to` is absent for a deployment.
pub struct CliTx {
    pub sender: String,
    pub to: Option<String>,
    pub data: String,
    pub value: String,
    pub gas_limit: u64,
    pub nonce: u64,
    pub gas_price: String,
}

/// The block environment as the engine reads it.
pub struct CliBlockEnv {
    pub number: u64,
    pub coinbase: String,
    pub timestamp: u64,
    pub gas_limit: u64,
    pub base_fee: String,
    pub difficulty: String,
}

/// The engine's input: the transactions and the block environment.
pub struct CliInput {
    pub transactions: Vec<CliTx>,
    pub block_env: CliBlockEnv,
}

/// `c` renders transaction `tx`.
pub open spec fn renders_tx(c: CliTx, tx: Transaction) -> bool {
    &&& c.sender@ == prefixed_address(tx.sender)
    &&& match tx.to {
        Some(a) => c.to matches Some(s) && s@ == prefixed_address(a),
        None => c.to is None,
    }
    &&& c.data@ == prefixed_hex(tx.data@)
    &&& c.value@ == amount_text(tx.value)
    &&& c.gas_limit == tx.gas_limit
    &&& c.nonce == tx.nonce
    &&& c.gas_price@ == amount_text(tx.gas_price)
}

/// `c` renders block environment `env`.
pub open spec fn renders_env(c: CliBlockEnv, env: BlockEnv) -> bool {
    &&& c.number == env.number
    &&& c.coinbase@ == prefixed_address(env.coinbase)
    &&& c.timestamp == env.timestamp
    &&& c.gas_limit == env.gas_limit
    &&& c.base_fee@ == amount_text(env.base_fee)
    &&& c.difficulty@ == amount_text(env.difficulty)
}

fn address_text(a: &Address) -> (s: String)
    ensures
        s@ == prefixed_address(*a),
{
    let mut s = String::new();
    s.append("0x");
    push_address_hex(&mut s, a);
    s
}

fn amount_string(x: U256) -> (s: String)
    ensures
        s@ == amount_text(x),
{
    let mut s = String::new();
    push_u256_decimal(&mut s, x);
    s
}

fn cli_tx(tx: &Transaction) -> (c: CliTx)
    ensures
        renders_tx(c, *tx),
{
    let to = match &tx.to {
        Some(a) => Some(address_text(a)),
        None => None,
    };
    let mut data = String::new();
    data.append("0x");
    push_hex_bytes(&mut data, tx.data.as_slice());
    CliTx {
        sender: address_text(&tx.sender),
        to,
        data,
        value: amount_string(tx.value),
        gas_limit: tx.gas_limit,
        nonce: tx.nonce,
        gas_price: amount_string(tx.gas_price),
    }
}

/// Renders a built block as the engine's input, transaction by transaction.
pub fn build_cli_input(build_result: &BuildResult) -> (c: CliInput)
    ensures
        c.transactions@.len() == build_result.transactions@.len(),
        forall|i: int|
            0 <= i < c.transactions@.len() ==> renders_tx(
                #[trigger] c.transactions@[i],
                build_result.transactions@[i],
            ),
        renders_env(c.block_env, build_result.block_env),
{
    let n = build_result.transactions.len();
    let mut transactions: Vec<CliTx> = Vec::new();
    let mut i: usize = 0;
    while i < n
        invariant
            i <= n,
            n == build_result.transactions@.len(),
            transactions@.len() == i,
            forall|j: int|
                0 <= j < i ==> renders_tx(#[trigger] transactions@[j], build_result.transactions@[j]),
        decreases n - i,
    {
        transactions.push(cli_tx(&build_result.transactions[i]));
        i = i + 1;
    }
    let env = &build_result.block_env;
    let block_env = CliBlockEnv {
        number: env.number,
        coinbase: address_text(&env.coinbase),
        timestamp: env.timestamp,
        gas_limit: env.gas_limit,
        base_fee: amount_string(env.base_fee),
        difficulty: amount_string(env.difficulty),
    };
    CliInput { transactions, block_env }
}

// ── Engine output ───────────────────────────────────────────────────────────

/// The engine's outcome of one transaction.
pub struct EngineResult {
    pub success: bool,
    pub gas_used: u64,
    /// Return data as hex text.
    pub output: String,
    pub error: Option<String>,
    pub logs_count: Option<usize>,
}

/// The engine's statistics of a block.
pub struct EngineStats {
    pub total_gas: u64,
    pub num_transactions: usize,
    pub num_conflicts: u32,
    pub num_re_executions: u32,
    pub per_tx_exec_time_us: Vec<u64>,
}

/// A conflict reported by the engine.
pub struct EngineConflict {
    pub tx_a: usize,
    pub tx_b: usize,
    pub location_type: Option<String>,
    pub conflict_type: Option<String>,
}

/// The conflicts reported by the engine (its free-form per-transaction
/// details are not read).
pub struct EngineConflictDetails {
    pub conflicts: Vec<EngineConflict>,
}

/// The engine's output for a block.
pub struct EngineOutput {
    pub results: Vec<EngineResult>,
    pub incarnations: Vec<u32>,
    pub stats: EngineStats,
    pub conflict_details: EngineConflictDetails,
}

// ── Simulation response ─────────────────────────────────────────────────────

/// One transaction in the response.
pub struct TxResultOutput {
    pub success: bool,
    pub gas_used: u64,
    pub output: String,
    pub error: Option<String>,
    pub logs_count: usize,
}

/// Summary statistics in the response.
pub struct ExecutionStats {
    pub total_gas: u64,
    pub num_transactions: usize,
    pub num_conflicts: usize,
    pub num_re_executions: usize,
}

/// One conflict in the response.
pub struct ConflictPairOutput {
    pub tx_a: usize,
    pub tx_b: usize,
    pub location_type: String,
    pub conflict_type: String,
}

/// The conflicts in the response.
pub struct ConflictDetailsOutput {
    pub conflicts: Vec<ConflictPairOutput>,
}

/// The response of a simulation.
pub struct SimulateResponse {
    pub results: Vec<TxResultOutput>,
    pub incarnations: Vec<u32>,
    pub stats: ExecutionStats,
    pub conflict_details: ConflictDetailsOutput,
    pub game_events: Vec<ScheduledEvent>,
}

/// A simulation's response, with its game events also kept apart for
/// streaming.
pub struct SimulationResult {
    pub response: SimulateResponse,
    pub game_events: Vec<ScheduledEvent>,
}

pub open spec fn opt_text(o: Option<String>) -> Option<Seq<char>> {
    match o {
        Some(s) => Some(s@),
        None => None,
    }
}

/// `o` reports engine result `r`; a missing log count is 0.
pub open spec fn reports_result(o: TxResultOutput, r: EngineResult) -> bool {
    &&& o.success == r.success
    &&& o.gas_used == r.gas_used
    &&& o.output@ == r.output@
    &&& opt_text(o.error) == opt_text(r.error)
    &&& o.logs_count == (match r.logs_count {
        Some(c) => c,
        None => 0,
    })
}

/// `o` reports engine conflict `c`; missing kinds read `Unknown` and `unknown`.
pub open spec fn reports_conflict(o: ConflictPairOutput, c: EngineConflict) -> bool {
    &&& o.tx_a == c.tx_a
    &&& o.tx_b == c.tx_b
    &&& o.location_type@ == (match c.location_type {
        Some(s) => s@,
        None => "Unknown"@,
    })
    &&& o.conflict_type@ == (match c.conflict_type {
        Some(s) => s@,
        None => "unknown"@,
    })
}

/// What the game event mapper takes of an engine result.
pub open spec fn mapper_result(r: EngineResult) -> TxResult {
    TxResult { success: r.success, gas_used: r.gas_used }
}

/// What the game event mapper takes of an engine conflict (no slot detail).
pub open spec fn mapper_conflict(c: EngineConflict) -> ConflictInput {
    ConflictInput { tx_a: c.tx_a, tx_b: c.tx_b, slot_byte: 0 }
}

/// The game events of an engine output.
pub open spec fn engine_events(e: EngineOutput) -> Seq<ScheduledEvent> {
    spec_map_to_events(
        e.results@.map_values(|r: EngineResult| mapper_result(r)),
        e.incarnations@,
        e.conflict_details.conflicts@.map_values(|c: EngineConflict| mapper_conflict(c)),
    )
}

fn copy_text(o: &Option<String>) -> (r: Option<String>)
    ensures
        opt_text(r) == opt_text(*o),
{
    match o {
        Some(s) => Some(s.clone()),
        None => None,
    }
}

fn text_or(o: &Option<String>, default: &str) -> (s: String)
    ensures
        s@ == (match *o {
            Some(t) => t@,
            None => default@,
        }),
{
    match o {
        Some(t) => t.clone(),
        None => default.to_string(),
    }
}

fn copy_events(v: &Vec<ScheduledEvent>) -> (r: Vec<ScheduledEvent>)
    ensures
        r@ == v@,
{
    let mut r: Vec<ScheduledEvent> = Vec::new();
    let mut i: usize = 0;
    while i < v.len()
        invariant
            i <= v@.len(),
            r@ == v@.take(i as int),
        decreases v@.len() - i,
    {
        r.push(v[i]);
        i = i + 1;
        assert(r@ =~= v@.take(i as int));
    }
    assert(v@.take(v@.len() as int) =~= v@);
    r
}

fn copy_u32s(v: &Vec<u32>) -> (r: Vec<u32>)
    ensures
        r@ == v@,
{
    let mut r: Vec<u32> = Vec::new();
    let mut i: usize = 0;
    while i < v.len()
        invariant
            i <= v@.len(),
            r@ == v@.take(i as int),
        decreases v@.len() - i,
    {
        r.push(v[i]);
        i = i + 1;
        assert(r@ =~= v@.take(i as int));
    }
    assert(v@.take(v@.len() as int) =~= v@);
    r
}

/// `r` is the simulation result of engine output `o` for a block of
/// `num_txs` transactions: every result and conflict reported, the
/// incarnations and statistics passed on, and the game events of the block.
pub open spec fn maps_engine_output(o: EngineOutput, num_txs: usize, r: SimulationResult) -> bool {
    &&& r.response.results@.len() == o.results@.len()
    &&& forall|i: int|
        0 <= i < r.response.results@.len() ==> reports_result(#[trigger] r.response.results@[i], o.results@[i])
    &&& r.response.incarnations@ == o.incarnations@
    &&& r.response.stats.total_gas == o.stats.total_gas
    &&& r.response.stats.num_transactions == num_txs
    &&& r.response.stats.num_conflicts == o.stats.num_conflicts
    &&& r.response.stats.num_re_executions == o.stats.num_re_executions
    &&& r.response.conflict_details.conflicts@.len() == o.conflict_details.conflicts@.len()
    &&& forall|i: int|
        0 <= i < r.response.conflict_details.conflicts@.len() ==> reports_conflict(
            #[trigger] r.response.conflict_details.conflicts@[i],
            o.conflict_details.conflicts@[i],
        )
    &&& r.response.game_events@ == engine_events(o)
    &&& r.game_events@ == r.response.game_events@
}

/// Maps the engine's output for a block of `num_txs` transactions to the
/// simulation's response: every result and conflict reported, the
/// incarnations and statistics passed on, and the game events of the block.
pub fn map_engine_output(engine_output: &EngineOutput, num_txs: usize) -> (r: SimulationResult)
    requires
        schedule_fits(engine_output.results@.len() as int, engine_output.incarnations@.len() as int),
    ensures
        maps_engine_output(*engine_output, num_txs, r),
{
    let results = &engine_output.results;
    let n = results.len();
    let mut outputs: Vec<TxResultOutput> = Vec::new();
    let mut mapper_txs: Vec<TxResult> = Vec::new();
    let mut i: usize = 0;
    while i < n
        invariant
            i <= n,
            n == results@.len(),
            outputs@.len() == i,
            mapper_txs@ == results@.take(i as int).map_values(|r: EngineResult| mapper_result(r)),
            forall|j: int| 0 <= j < i ==> reports_result(#[trigger] outputs@[j], results@[j]),
        decreases n - i,
    {
        let r = &results[i];
        let logs_count = match r.logs_count {
            Some(c) => c,
            None => 0,
        };
        outputs.push(
            TxResultOutput {
                success: r.success,
                gas_used: r.gas_used,
                output: r.output.clone(),
                error: copy_text(&r.error),
                logs_count,
            },
        );
        mapper_txs.push(TxResult { success: r.success, gas_used: r.gas_used });
        i = i + 1;
        assert(mapper_txs@ =~= results@.take(i as int).map_values(|r: EngineResult| mapper_result(r)));
    }
    assert(results@.take(n as int) =~= results@);
    let conflicts = &engine_output.conflict_details.conflicts;
    let m = conflicts.len();
    let mut conflict_outputs: Vec<ConflictPairOutput> = Vec::new();
    let mut inputs: Vec<ConflictInput> = Vec::new();
    let mut k: usize = 0;
    while k < m
        invariant
            k <= m,
            m == conflicts@.len(),
            conflict_outputs@.len() == k,
            inputs@ == conflicts@.take(k as int).map_values(|c: EngineConflict| mapper_conflict(c)),
            forall|j: int| 0 <= j < k ==> reports_conflict(#[trigger] conflict_outputs@[j], conflicts@[j]),
        decreases m - k,
    {
        let c = &conflicts[k];
        conflict_outputs.push(
            ConflictPairOutput {
                tx_a: c.tx_a,
                tx_b: c.tx_b,
                location_type: text_or(&c.location_type, "Unknown"),
                conflict_type: text_or(&c.conflict_type, "unknown"),
            },
        );
        inputs.push(ConflictInput { tx_a: c.tx_a, tx_b: c.tx_b, slot_byte: 0 });
        k = k + 1;
        assert(inputs@ =~= conflicts@.take(k as int).map_values(|c: EngineConflict| mapper_conflict(c)));
    }
    assert(conflicts@.take(m as int) =~= conflicts@);
    let game_events = GameEventMapper::map_to_events(
        mapper_txs.as_slice(),
        engine_output.incarnations.as_slice(),
        inputs.as_slice(),
    );
    let stats = ExecutionStats {
        total_gas: engine_output.stats.total_gas,
        num_transactions: num_txs,
        num_conflicts: engine_output.stats.num_conflicts as usize,
        num_re_executions: engine_output.stats.num_re_executions as usize,
    };
    let response = SimulateResponse {
        results: outputs,
        incarnations: copy_u32s(&engine_output.incarnations),
        stats,
        conflict_details: ConflictDetailsOutput { conflicts: conflict_outputs },
        game_events: copy_events(&game_events),
    };
    SimulationResult { response, game_events }
}

// ── Compilation ─────────────────────────────────────────────────────────────

/// Failures of compiling Solidity source.
#[derive(Debug, Clone, PartialEq, Eq)]
pub enum CompileError {
    SolcNotFound,
    SolcFailed { stderr: String },
    /// Writing the source file failed (the I/O error's text).
    TempFile(String),
    ParseError(String),
    NoContracts,
}

impl CompileError {
    pub open spec fn message(&self) -> Seq<char> {
        match self {
            CompileError::SolcNotFound => "solc not found — install via `solc-select install 0.8.28 && solc-select use 0.8.28`"@,
            CompileError::SolcFailed { stderr } => "solc compilation failed: "@ + stderr@,
            CompileError::TempFile(e) => "failed to write temp file: "@ + e@,
            CompileError::ParseError(e) => "failed to parse solc output: "@ + e@,
            CompileError::NoContracts => "no contracts found in source"@,
        }
    }

    /// Renders the error message.
    pub fn to_string(&self) -> (s: String)
        ensures
            s@ == self.message(),
    {
        let mut s = String::new();
        match self {
            CompileError::SolcNotFound => {
                s.append("solc not found — install via `solc-select install 0.8.28 && solc-select use 0.8.28`");
            },
            CompileError::SolcFailed { stderr } => {
                s.append("solc compilation failed: ");
                s.append(stderr.as_str());
            },
            CompileError::TempFile(e) => {
                s.append("failed to write temp file: ");
                s.append(e.as_str());
            },
            CompileError::ParseError(e) => {
                s.append("failed to parse solc output: ");
                s.append(e.as_str());
            },
            CompileError::NoContracts => {
                s.append("no contracts found in source");
            },
        }
        s
    }
}

pub open spec fn nonempty_text(o: Option<String>) -> bool {
    o matches Some(t) && t@.len() > 0
}

pub open spec fn text_or_default(o: Option<String>, default: Seq<char>) -> Seq<char> {
    match o {
        Some(t) => t@,
        None => default,
    }
}

/// The compiler's result for the first contract of its output: the ABI as
/// JSON text (`[]` when absent), the bytecode (an error when absent or
/// empty: the contract may be abstract or an interface) and the storage
/// layout (an empty layout when absent).
pub fn compile_result_from(
    contract_name: String,
    abi_json: Option<String>,
    bytecode: Option<String>,
    storage_layout: Option<String>,
) -> (r: Result<CompileResult, CompileError>)
    ensures
        !nonempty_text(bytecode) ==> (r matches Err(CompileError::ParseError(m))
            && m@ == "empty bytecode — contract may be abstract or an interface"@),
        nonempty_text(bytecode) ==> (r matches Ok(c) && c.contract_name@ == contract_name@
            && c.abi_json@ == text_or_default(abi_json, "[]"@) && c.bytecode@ == bytecode->0@
            && c.storage_layout@ == text_or_default(storage_layout, "{\"storage\":[],\"types\":{}}"@)),
{
    let bytecode = match bytecode {
        Some(b) => b,
        None => String::new(),
    };
    if bytecode.as_str().is_empty() {
        return Err(
            CompileError::ParseError(
                "empty bytecode — contract may be abstract or an interface".to_string(),
            ),
        );
    }
    let abi_json = match abi_json {
        Some(a) => a,
        None => "[]".to_string(),
    };
    let storage_layout = match storage_layout {
        Some(l) => l,
        None => "{\"storage\":[],\"types\":{}}".to_string(),
    };
    Ok(CompileResult { contract_name, abi_json, bytecode, storage_layout })
}

/// What follows the last `:` of a contract key (`path/to/File.sol:Name`
/// gives `Name`); the whole key when it holds no `:`.
pub open spec fn after_last_colon(s: Seq<char>) -> Seq<char>
    decreases s.len(),
{
    if s.len() == 0 {
        s
    } else if s.last() == ':' {
        Seq::empty()
    } else {
        after_last_colon(s.drop_last()).push(s.last())
    }
}

/// `str::rsplit_once(':')`: the text after the last `:`, or the whole text
/// when it holds none.
#[verifier::external_body]
fn last_colon_segment(key: &str) -> (r: &str)
    ensures
        r@ == after_last_colon(key@),
{
    match key.rsplit_once(':') {
        Some((_, name)) => name,
        None => key,
    }
}

/// The first contract of solc's combined-JSON output, as parsed: its key
/// and its `abi`, `bin` and `storage-layout` members as text; `Ok(None)`
/// when the `contracts` object is empty; `Err(Some(m))` when the output is
/// not JSON (`m` the parser's message); `Err(None)` when it has no
/// `contracts` object.
pub type SolcContract = Result<Option<(String, Option<String>, Option<String>, Option<String>)>, Option<String>>;

/// The view of a parsed solc output.
pub open spec fn solc_view(r: SolcContract) -> Result<
    Option<(Seq<char>, Option<Seq<char>>, Option<Seq<char>>, Option<Seq<char>>)>,
    Option<Seq<char>>,
> {
    match r {
        Err(e) => Err(opt_text(e)),
        Ok(None) => Ok(None),
        Ok(Some((k, a, b, l))) => Ok(Some((k@, opt_text(a), opt_text(b), opt_text(l)))),
    }
}

/// What parsing solc's combined-JSON output `stdout` gives (see `SolcContract`).
pub uninterp spec fn spec_solc_first_contract(stdout: Seq<char>) -> Result<
    Option<(Seq<char>, Option<Seq<char>>, Option<Seq<char>>, Option<Seq<char>>)>,
    Option<Seq<char>>,
>;

/// `serde_json::from_str::<serde_json::Value>` on solc's output, then
/// `Value::get("contracts")` as an object, the first entry its map yields
/// (in key order, or in the text's order where serde_json's
/// `preserve_order` feature is on), and the entry's `abi` and
/// `storage-layout` members rendered by `Value::to_string` and its `bin`
/// member when it is a string. The contract claims only that the result is
/// a function of the text; which entry is first is left unsaid.
#[verifier::external_body]
fn solc_first_contract(stdout: &str) -> (r: SolcContract)
    ensures
        solc_view(r) == spec_solc_first_contract(stdout@),
{
    let combined: serde_json::Value = match serde_json::from_str(stdout) {
        Ok(v) => v,
        Err(e) => return Err(Some(e.to_string())),
    };
    let contracts = match combined.get("contracts").and_then(|c| c.as_object()) {
        Some(c) => c,
        None => return Err(None),
    };
    Ok(contracts.iter().next().map(|(k, c)| (k.clone(), c.get("abi").map(|v| v.to_string()),
        c.get("bin").and_then(|v| v.as_str()).map(|v| v.to_string()),
        c.get("storage-layout").map(|v| v.to_string()))))
}

/// The outcome of compiling, given solc's parsed output.
pub open spec fn compile_outcome(
    parsed: Result<
        Option<(Seq<char>, Option<Seq<char>>, Option<Seq<char>>, Option<Seq<char>>)>,
        Option<Seq<char>>,
    >,
    r: Result<CompileResult, CompileError>,
) -> bool {
    match parsed {
        Err(Some(m)) => r matches Err(CompileError::ParseError(e)) && e@ == "invalid JSON from solc: "@ + m,
        Err(None) => r matches Err(CompileError::ParseError(e)) && e@ == "missing 'contracts' in solc output"@,
        Ok(None) => r matches Err(CompileError::NoContracts),
        Ok(Some((key, abi, bin, layout))) => if bin is Some && bin->0.len() > 0 {
            r matches Ok(c) && c.contract_name@ == after_last_colon(key)
                && c.abi_json@ == (match abi { Some(a) => a, None => "[]"@ })
                && c.bytecode@ == bin->0
                && c.storage_layout@ == (match layout { Some(l) => l, None => "{\"storage\":[],\"types\":{}}"@ })
        } else {
            r matches Err(CompileError::ParseError(e))
                && e@ == "empty bytecode — contract may be abstract or an interface"@
        },
    }
}

/// The compilation result for solc's parsed output (see `SolcContract`).
pub fn compile_from_contracts(parsed: SolcContract) -> (r: Result<CompileResult, CompileError>)
    ensures
        compile_outcome(solc_view(parsed), r),
{
    match parsed {
        Err(Some(m)) => {
            let mut e = "invalid JSON from solc: ".to_string();
            e.append(m.as_str());
            Err(CompileError::ParseError(e))
        },
        Err(None) => Err(CompileError::ParseError("missing 'contracts' in solc output".to_string())),
        Ok(None) => Err(CompileError::NoContracts),
        Ok(Some((key, abi, bin, layout))) => {
            let name = String::from_str(last_colon_segment(key.as_str()));
            compile_result_from(name, abi, bin, layout)
        },
    }
}

/// What solc's run gives: its stderr when it failed; otherwise the first
/// contract of its combined-JSON output.
pub fn compile_output(success: bool, stdout: &str, stderr: String) -> (r: Result<CompileResult, CompileError>)
    ensures
        !success ==> (r matches Err(CompileError::SolcFailed { stderr: e }) && e == stderr),
        success ==> compile_outcome(spec_solc_first_contract(stdout@), r),
{
    if !success {
        return Err(CompileError::SolcFailed { stderr });
    }
    compile_from_contracts(solc_first_contract(stdout))
}

// ── Engine process ──────────────────────────────────────────────────────────

/// Failures of running the engine.
#[derive(Debug, Clone, PartialEq, Eq)]
pub enum EngineError {
    BinaryNotFound(String),
    ProcessFailed { exit_code: i32, stderr: String },
    Killed,
    OutputParse(String),
    InputSerialize(String),
    /// An I/O failure (the I/O error's text).
    Io(String),
}

/// The decimal rendering of a signed integer.
pub open spec fn signed_text(x: int) -> Seq<char> {
    if x < 0 {
        "-"@ + decimal_chars((-x) as nat)
    } else {
        decimal_chars(x as nat)
    }
}

fn push_signed(s: &mut String, x: i32)
    ensures
        final(s)@ == old(s)@ + signed_text(x as int),
{
    if x < 0 {
        s.append("-");
        let magnitude: i64 = -(x as i64);
        push_decimal(s, magnitude as u64);
        assert(s@ =~= old(s)@ + signed_text(x as int));
    } else {
        push_decimal(s, x as u64);
    }
}

impl EngineError {
    pub open spec fn message(&self) -> Seq<char> {
        match self {
            EngineError::BinaryNotFound(s) => "monad-vibe-cli binary not found: "@ + s@,
            EngineError::ProcessFailed { exit_code, stderr } => "monad-vibe-cli process failed (exit "@
                + signed_text(*exit_code as int) + "): "@ + stderr@,
            EngineError::Killed => "monad-vibe-cli was killed by signal"@,
            EngineError::OutputParse(s) => "failed to parse monad-vibe-cli output: "@ + s@,
            EngineError::InputSerialize(s) => "failed to serialize input: "@ + s@,
            EngineError::Io(s) => "I/O error: "@ + s@,
        }
    }

    /// Renders the error message.
    pub fn to_string(&self) -> (s: String)
        ensures
            s@ == self.message(),
    {
        let mut s = String::new();
        match self {
            EngineError::BinaryNotFound(m) => {
                s.append("monad-vibe-cli binary not found: ");
                s.append(m.as_str());
            },
            EngineError::ProcessFailed { exit_code, stderr } => {
                s.append("monad-vibe-cli process failed (exit ");
                push_signed(&mut s, *exit_code);
                s.append("): ");
                s.append(stderr.as_str());
            },
            EngineError::Killed => {
                s.append("monad-vibe-cli was killed by signal");
            },
            EngineError::OutputParse(m) => {
                s.append("failed to parse monad-vibe-cli output: ");
                s.append(m.as_str());
            },
            EngineError::InputSerialize(m) => {
                s.append("failed to serialize input: ");
                s.append(m.as_str());
            },
            EngineError::Io(m) => {
                s.append("I/O error: ");
                s.append(m.as_str());
            },
        }
        s
    }
}

/// Judges how the engine process ended: a success is `Ok`; otherwise a
/// missing exit code (or -1) means it was killed, and any other code is a
/// failure carrying the code and the process's stderr.
pub fn process_outcome(success: bool, exit_code: Option<i32>, stderr: String) -> (r: Result<(), EngineError>)
    ensures
        success ==> r is Ok,
        !success ==> {
            let code = match exit_code {
                Some(c) => c,
                None => -1i32,
            };
            if code == -1 {
                r == Err::<(), EngineError>(EngineError::Killed)
            } else {
                r matches Err(EngineError::ProcessFailed { exit_code: c, stderr: e }) && c == code
                    && e@ == stderr@
            }
        },
{
    if success {
        return Ok(());
    }
    let code = match exit_code {
        Some(c) => c,
        None => -1i32,
    };
    if code == -1 {
        Err(EngineError::Killed)
    } else {
        Err(EngineError::ProcessFailed { exit_code: code, stderr })
    }
}

// ── Requests and responses of the service ───────────────────────────────────

/// A simulation request: Solidity source and how often each function is
/// called (`None`: about 300 calls in all).
pub struct SimulateRequest {
    pub source: String,
    pub repeat_count: Option<u32>,
}

/// Health of the service.
pub struct HealthResponse {
    pub status: String,
    pub uptime_secs: u64,
    pub engine_type: String,
    pub engine_available: bool,
    pub db_connected: bool,
    pub redis_connected: bool,
    pub pool_size: u32,
    pub pool_idle: u32,
}

/// The health report: status `ok` and the C++ engine type, with the probed
/// values passed on.
pub fn health_response(
    uptime_secs: u64,
    engine_available: bool,
    db_connected: bool,
    redis_connected: bool,
    pool_size: u32,
    pool_idle: u32,
) -> (h: HealthResponse)
    ensures
        h.status@ == "ok"@,
        h.engine_type@ == "cpp-monad-vibe-cli"@,
        h.uptime_secs == uptime_secs,
        h.engine_available == engine_available,
        h.db_connected == db_connected,
        h.redis_connected == redis_connected,
        h.pool_size == pool_size,
        h.pool_idle == pool_idle,
{
    HealthResponse {
        status: "ok".to_string(),
        uptime_secs,
        engine_type: "cpp-monad-vibe-cli".to_string(),
        engine_available,
        db_connected,
        redis_connected,
        pool_size,
        pool_idle,
    }
}

/// The body of an error response.
#[derive(Debug, Clone, PartialEq, Eq)]
pub struct ErrorBody {
    pub error: String,
}

/// A failed simulation: the HTTP status and the body. Compilation and block
/// building fail with 400 and the error's message; the engine fails with
/// 500 and `Engine error: ` before its message.
pub enum SimulationFailure {
    Compile(CompileError),
    Build(BuildError),
    Engine(EngineError),
}

pub open spec fn failure_status(f: SimulationFailure) -> u16 {
    match f {
        SimulationFailure::Engine(_) => 500,
        _ => 400,
    }
}

pub open spec fn failure_text(f: SimulationFailure) -> Seq<char> {
    match f {
        SimulationFailure::Compile(e) => e.message(),
        SimulationFailure::Build(e) => e.message(),
        SimulationFailure::Engine(e) => "Engine error: "@ + e.message(),
    }
}

/// The status and body answering a failed simulation.
pub fn failure_response(f: &SimulationFailure) -> (r: (u16, ErrorBody))
    ensures
        r.0 == failure_status(*f),
        r.1.error@ == failure_text(*f),
{
    match f {
        SimulationFailure::Compile(e) => (400, ErrorBody { error: e.to_string() }),
        SimulationFailure::Build(e) => (400, ErrorBody { error: e.to_string() }),
        SimulationFailure::Engine(e) => {
            let mut s = String::new();
            s.append("Engine error: ");
            let m = e.to_string();
            s.append(m.as_str());
            (500, ErrorBody { error: s })
        },
    }
}

/// The first stages of a simulation, after compiling: a compile failure
/// stops there; otherwise the block is built, and a build failure stops
/// there too. The engine runs only on the block given back.
pub fn prepare_simulation(
    compiled: Result<CompileResult, CompileError>,
    repeat_count: Option<u32>,
) -> (r: Result<BuildResult, SimulationFailure>)
    ensures
        compiled is Err ==> r == Err::<BuildResult, SimulationFailure>(SimulationFailure::Compile(compiled->Err_0)),
        compiled is Ok ==> match r {
            Ok(b) => builds(compiled->Ok_0, repeat_count, Ok(b)),
            Err(SimulationFailure::Build(e)) => builds(compiled->Ok_0, repeat_count, Err(e)),
            Err(_) => false,
        },
{
    match compiled {
        Err(e) => Err(SimulationFailure::Compile(e)),
        Ok(c) => match build(&c, repeat_count) {
            Ok(b) => Ok(b),
            Err(e) => Err(SimulationFailure::Build(e)),
        },
    }
}

/// The last stage of a simulation: an engine failure, or the result mapped
/// from the engine's output (see `map_engine_output`).
pub fn finish_simulation(
    engine: Result<EngineOutput, EngineError>,
    num_txs: usize,
) -> (r: Result<SimulationResult, SimulationFailure>)
    requires
        engine matches Ok(o) ==> schedule_fits(o.results@.len() as int, o.incarnations@.len() as int),
    ensures
        engine is Err ==> r == Err::<SimulationResult, SimulationFailure>(SimulationFailure::Engine(engine->Err_0)),
        engine is Ok ==> (r matches Ok(s) && maps_engine_output(engine->Ok_0, num_txs, s)),
{
    match engine {
        Err(e) => Err(SimulationFailure::Engine(e)),
        Ok(o) => Ok(map_engine_output(&o, num_txs)),
    }
}

/// The cache key of a simulation: `sim:<source hash>:rc:<repeat count>`,
/// with `auto` when no repeat count was given.
pub fn cache_key(source_hash: &str, repeat_count: Option<u32>) -> (k: String)
    ensures
        k@ == "sim:"@ + source_hash@ + ":rc:"@ + (match repeat_count {
            Some(n) => decimal_chars(n as nat),
            None => "auto"@,
        }),
{
    let mut k = String::new();
    k.append("sim:");
    k.append(source_hash);
    k.append(":rc:");
    match repeat_count {
        Some(n) => push_decimal(&mut k, n as u64),
        None => k.append("auto"),
    }
    k
}

/// The SHA-256 digest of a byte string.
pub uninterp spec fn spec_sha256(bytes: Seq<u8>) -> Seq<u8>;

/// `sha2::Sha256::digest`: the 32-byte digest, a function of the bytes.
#[verifier::external_body]
fn sha256_digest(bytes: &[u8]) -> (d: [u8; 32])
    ensures
        d@ == spec_sha256(bytes@),
{
    sha2::Sha256::digest(bytes).into()
}

/// The content hash of a Solidity source: the SHA-256 digest of its UTF-8
/// bytes in lowercase hex.
pub fn source_hash(source: &str) -> (h: String)
    ensures
        h@ == hex_of_bytes(spec_sha256(source.spec_bytes())),
{
    let digest = sha256_digest(source.as_bytes());
    let mut h = String::new();
    push_hex_bytes(&mut h, &digest);
    assert(h@ =~= hex_of_bytes(spec_sha256(source.spec_bytes())));
    h
}

/// The cache key of simulating `source` with `repeat_count`: the key of
/// the source's content hash (see `cache_key`).
pub fn simulation_cache_key(source: &str, repeat_count: Option<u32>) -> (k: String)
    ensures
        k@ == "sim:"@ + hex_of_bytes(spec_sha256(source.spec_bytes())) + ":rc:"@ + (match repeat_count {
            Some(n) => decimal_chars(n as nat),
            None => "auto"@,
        }),
{
    let h = source_hash(source);
    cache_key(h.as_str(), repeat_count)
}

// ── WebSocket requests ──────────────────────────────────────────────────────

/// A request received over the WebSocket.
pub struct ClientMessage {
    pub action: String,
    pub source: Option<String>,
    /// How many times each state-changing function is called.
    pub repeat_count: Option<u32>,
}

/// A character with Unicode's `White_Space` property.
pub open spec fn is_white_space(c: char) -> bool {
    let x = c as int;
    ||| 0x9 <= x <= 0xd
    ||| x == 0x20
    ||| x == 0x85
    ||| x == 0xa0
    ||| x == 0x1680
    ||| 0x2000 <= x <= 0x200a
    ||| x == 0x2028
    ||| x == 0x2029
    ||| x == 0x202f
    ||| x == 0x205f
    ||| x == 0x3000
}

/// The text without its leading white space.
pub open spec fn trim_start(s: Seq<char>) -> Seq<char>
    decreases s.len(),
{
    if s.len() > 0 && is_white_space(s[0]) {
        trim_start(s.drop_first())
    } else {
        s
    }
}

/// The text without its trailing white space.
pub open spec fn trim_end(s: Seq<char>) -> Seq<char>
    decreases s.len(),
{
    if s.len() > 0 && is_white_space(s.last()) {
        trim_end(s.drop_last())
    } else {
        s
    }
}

/// The text without its leading and trailing white space.
pub open spec fn spec_trim(s: Seq<char>) -> Seq<char> {
    trim_end(trim_start(s))
}

/// `str::trim`: the text without leading and trailing white space, white
/// space being the characters of Unicode's `White_Space` property.
#[verifier::external_body]
fn trim_text(s: &str) -> (t: &str)
    ensures
        t@ == spec_trim(s@),
{
    s.trim()
}

/// Why a request is refused: an action other than `simulate`, or a source
/// that is missing or blank.
pub open spec fn request_error(action: Seq<char>, source: Option<Seq<char>>) -> Option<Seq<char>> {
    if action != "simulate"@ {
        Some("unknown action: "@ + action)
    } else if source is None || spec_trim(source->0).len() == 0 {
        Some("missing or empty source field"@)
    } else {
        None
    }
}

/// Checks a request: `Err` with the message to send back when it is
/// refused (see `request_error`), else `Ok`.
pub fn check_client_message(msg: &ClientMessage) -> (r: Result<(), String>)
    ensures
        match request_error(msg.action@, opt_text(msg.source)) {
            Some(e) => r matches Err(m) && m@ == e,
            None => r is Ok,
        },
{
    let simulate = "simulate".to_string();
    if msg.action != simulate {
        let mut e = "unknown action: ".to_string();
        e.append(msg.action.as_str());
        return Err(e);
    }
    match &msg.source {
        Some(s) => {
            if trim_text(s.as_str()).is_empty() {
                Err("missing or empty source field".to_string())
            } else {
                Ok(())
            }
        },
        None => Err("missing or empty source field".to_string()),
    }
}

/// The statistics of the completion frame that ends a stream.
pub struct CompletionStats {
    pub total_events: usize,
    pub total_gas: u64,
    pub num_transactions: usize,
    pub num_conflicts: usize,
    pub num_re_executions: usize,
}

/// The completion statistics of a simulation: the number of streamed
/// events and the response's statistics.
pub fn completion_stats(result: &SimulationResult) -> (c: CompletionStats)
    ensures
        c.total_events == result.game_events@.len(),
        c.total_gas == result.response.stats.total_gas,
        c.num_transactions == result.response.stats.num_transactions,
        c.num_conflicts == result.response.stats.num_conflicts,
        c.num_re_executions == result.response.stats.num_re_executions,
{
    CompletionStats {
        total_events: result.game_events.len(),
        total_gas: result.response.stats.total_gas,
        num_transactions: result.response.stats.num_transactions,
        num_conflicts: result.response.stats.num_conflicts,
        num_re_executions: result.response.stats.num_re_executions,
    }
}

/// Paging of the simulation history.
pub struct SimulationsQuery {
    pub limit: Option<i64>,
    pub offset: Option<i64>,
}

/// The page to fetch: at most 100 records (20 by default), from a
/// non-negative offset (0 by default).
pub fn page_bounds(query: &SimulationsQuery) -> (r: (i64, i64))
    ensures
        r.0 == (match query.limit {
            Some(l) => if l < 100 {
                l
            } else {
                100
            },
            None => 20,
        }),
        r.1 == (match query.offset {
            Some(o) => if o > 0 {
                o
            } else {
                0
            },
            None => 0,
        }),
{
    let limit = match query.limit {
        Some(l) => if l < 100 {
            l
        } else {
            100
        },
        None => 20,
    };
    let offset = match query.offset {
        Some(o) => if o > 0 {
            o
        } else {
            0
        },
        None => 0,
    };
    (limit, offset)
}

} // verus!
