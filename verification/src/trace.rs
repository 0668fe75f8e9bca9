//! The recorded execution trace, as plain values.
//!
//! A trace is a sequence of call frames ("nodes"), each with the EVM steps
//! executed in it. Everything the debugger reads of a step is held here,
//! including the source position that the compiler's source map assigns to
//! it, which is looked up once when the trace is loaded.

use vstd::prelude::*;
use crate::source_map::SourceLocation;
use crate::word::Word;

verus! {

/// A 20-byte account address, held as the number it denotes.
#[derive(Debug, Clone, Copy, PartialEq, Eq, Structural)]
pub struct Address {
    pub value: Word,
}

/// One executed EVM instruction.
pub struct TraceStep {
    /// Program counter before the step.
    pub pc: u64,
    /// Opcode byte.
    pub op: u8,
    /// Stack before the step, bottom first, when it was recorded.
    pub stack: Option<Vec<Word>>,
    /// Memory before the step, when it was recorded.
    pub memory: Option<Vec<u8>>,
    /// Return data of the last call before the step.
    pub returndata: Vec<u8>,
    /// Gas remaining before the step.
    pub gas_remaining: u64,
    /// Gas cost of the step.
    pub gas_cost: u64,
    /// The source position the compiler's source map assigns to the step.
    pub location: Option<SourceLocation>,
}

/// One call frame of the trace.
pub struct TraceNode {
    /// Address of the executing contract.
    pub address: Address,
    /// The kind of call (`CALL`, `CREATE`, ...), as displayed.
    pub kind: String,
    /// Whether the frame runs creation code.
    pub is_create: bool,
    /// Input data of the call.
    pub calldata: Vec<u8>,
    /// Steps executed in the frame.
    pub steps: Vec<TraceStep>,
}

/// The mnemonic that `revm`'s `OpCode` displays for an opcode byte.
pub uninterp spec fn opcode_text(op: u8) -> Seq<char>;

/// `revm_bytecode::OpCode`'s `Display`: the mnemonic of the opcode (`ADD`,
/// `SSTORE`, ...), or `UNKNOWN(0x..)` for a byte that is no opcode.
#[verifier::external_body]
pub(crate) fn opcode_name(op: u8) -> (r: String)
    ensures
        r@ == opcode_text(op),
{
    revm_bytecode::OpCode::new_or_unknown(op).to_string()
}

} // verus!
