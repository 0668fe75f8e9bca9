//! Evaluation of debug console expressions against the current step.
//!
//! An expression is parsed (see `expr_parser`) and evaluated in one of two
//! ways: for display, as text, or as a 256-bit number, for the operands of
//! arithmetic and the keys of mapping lookups. Arithmetic wraps modulo
//! 2^256; division and remainder by zero are errors; shifts are capped at
//! 255 bits. Storage variables and mapping entries are read by replaying
//! the storage writes of the trace.

use vstd::prelude::*;
use crate::expr_parser::{parse, result_view, spec_parse, BinOp, Expr, SpecExpr};
use crate::fmt::{
    dec_u64_chars, dec_word_chars, hex_u64_chars, hex_word_chars, join, join_strings, lit_chars,
    push_chars, push_lit, push_string, string_of,
};
use crate::launch::StorageLayout;
use crate::session::DebugSession;
use crate::text::{eq_lit, starts_with, starts_with_lit, str_chars, trim, trimmed};
use crate::trace::{opcode_name, opcode_text, Address, TraceNode, TraceStep};
use crate::variables::{
    address_chars, address_text, bytes0x, bytes0x_chars, collect_console_logs, collect_events,
    event_chars, event_text, event_view, events_upto, find_key, first_frame_at,
    first_frame_index, frames_run, key_index, logs_upto, replay_sstores, short_string_text,
    decode_short_string, slot_number, slot_word, storage_value, stored, trace_writes,
    type_encoding, type_label, CollectedEvent, hex0x, hex0x_chars,
};
use crate::word::{
    be_bytes, be_value, checked_quotient, checked_remainder, dec_text, hex_text, keccak256,
    keccak256_spec, lemma_val_bounds, lemma_word_of_val, pow2, pow2_256, pow2_64, radix_literal,
    shift_left, shift_right, val, word_from_be_slice, word_from_str_radix, word_of, word_to_be_bytes,
    wrapping_add, wrapping_mul, wrapping_sub, Word,
};

verus! {

// ===================== Numbers =====================

/// `n` in decimal, then in hexadecimal in brackets.
pub open spec fn num_text(n: nat) -> Seq<char> {
    dec_text(n) + " (0x"@ + hex_text(n) + ")"@
}

/// How a number is shown: decimal first when it fits in 64 bits, else
/// hexadecimal first.
pub open spec fn result_text(n: nat) -> Seq<char> {
    if n == 0 {
        "0 (0x0)"@
    } else if n < pow2_64() {
        num_text(n)
    } else {
        "0x"@ + hex_text(n) + " ("@ + dec_text(n) + ")"@
    }
}

/// The bits of a shift: the amount, capped at 255.
pub open spec fn shift_amount(n: nat) -> nat {
    if n < 255 {
        n
    } else {
        255
    }
}

/// Limb-wise bit operations on the words of two numbers.
pub open spec fn bit_and(a: nat, b: nat) -> nat {
    val(
        Word {
            l0: word_of(a).l0 & word_of(b).l0,
            l1: word_of(a).l1 & word_of(b).l1,
            l2: word_of(a).l2 & word_of(b).l2,
            l3: word_of(a).l3 & word_of(b).l3,
        },
    )
}

pub open spec fn bit_or(a: nat, b: nat) -> nat {
    val(
        Word {
            l0: word_of(a).l0 | word_of(b).l0,
            l1: word_of(a).l1 | word_of(b).l1,
            l2: word_of(a).l2 | word_of(b).l2,
            l3: word_of(a).l3 | word_of(b).l3,
        },
    )
}

pub open spec fn bit_xor(a: nat, b: nat) -> nat {
    val(
        Word {
            l0: word_of(a).l0 ^ word_of(b).l0,
            l1: word_of(a).l1 ^ word_of(b).l1,
            l2: word_of(a).l2 ^ word_of(b).l2,
            l3: word_of(a).l3 ^ word_of(b).l3,
        },
    )
}

/// The value of `a op b` on 256-bit words; nothing for a division or
/// remainder by zero.
pub open spec fn binop_value(a: nat, op: BinOp, b: nat) -> Option<nat> {
    match op {
        BinOp::Add => Some((a + b) % pow2_256()),
        BinOp::Sub => Some(((a + pow2_256() - b) % (pow2_256() as int)) as nat),
        BinOp::Mul => Some((a * b) % pow2_256()),
        BinOp::Div => if b == 0 {
            None
        } else {
            Some(a / b)
        },
        BinOp::Mod => if b == 0 {
            None
        } else {
            Some(a % b)
        },
        BinOp::BitAnd => Some(bit_and(a, b)),
        BinOp::BitOr => Some(bit_or(a, b)),
        BinOp::BitXor => Some(bit_xor(a, b)),
        BinOp::Shl => Some((a * pow2(shift_amount(b))) % pow2_256()),
        BinOp::Shr => Some(a / pow2(shift_amount(b))),
    }
}

/// The error of an operation that has no value.
pub open spec fn binop_error(op: BinOp) -> Seq<char> {
    if op == BinOp::Div {
        "division by zero"@
    } else {
        "modulo by zero"@
    }
}

/// The digits of a hexadecimal literal, without its `0x` or `0X`.
pub open spec fn hex_body(s: Seq<char>) -> Seq<char> {
    if starts_with(s, "0x"@) || starts_with(s, "0X"@) {
        s.skip(2)
    } else {
        s
    }
}

pub open spec fn or_zero(o: Option<nat>) -> nat {
    match o {
        Some(n) => n,
        None => 0,
    }
}

// ===================== The session =====================

/// The address of the current frame.
pub open spec fn session_address(s: DebugSession) -> Option<Address> {
    if s.current_node < s.debug_arena@.len() {
        Some(s.debug_arena@[s.current_node as int].address)
    } else {
        None
    }
}

/// The frame before the first one at the current address.
pub open spec fn session_sender(s: DebugSession) -> Option<Option<Address>> {
    match session_address(s) {
        Some(a) => match first_frame_at(s.debug_arena@, a, 0) {
            Some(k) => if k > 0 {
                Some(Some(s.debug_arena@[k - 1].address))
            } else {
                Some(None)
            },
            None => None,
        },
        None => None,
    }
}

/// The console output so far.
pub open spec fn session_logs(s: DebugSession) -> Seq<Seq<char>> {
    logs_upto(
        s.debug_arena@,
        s.current_node as int,
        s.current_step as int,
        frames_run(s.debug_arena@, s.current_node as int),
    )
}

/// The events so far.
pub open spec fn session_events(s: DebugSession) -> Seq<
    (
        Address,
        Seq<char>,
        Option<(Seq<char>, Seq<(Seq<char>, Seq<char>, bool)>)>,
        Seq<Word>,
        Seq<u8>,
        Seq<(Seq<char>, Seq<char>, Seq<char>)>,
    ),
> {
    events_upto(
        s.debug_arena@,
        s.current_node as int,
        s.current_step as int,
        s.event_signatures@,
        s.identified_contracts@,
        frames_run(s.debug_arena@, s.current_node as int),
    )
}

// ===================== Storage =====================

/// Index of the first entry of a layout labelled `name`, from `i` on.
pub open spec fn entry_index(layout: StorageLayout, name: Seq<char>, i: int) -> Option<int>
    decreases layout.storage@.len() - i,
{
    if i < 0 || i >= layout.storage@.len() {
        None
    } else if layout.storage@[i].label@ == name {
        Some(i)
    } else {
        entry_index(layout, name, i + 1)
    }
}

/// Some contract's layout has a variable `name`.
pub open spec fn is_storage_name(layouts: Seq<(String, StorageLayout)>, name: Seq<char>) -> bool {
    exists|l: int| 0 <= l < layouts.len() && (#[trigger] entry_index(layouts[l].1, name, 0)) is Some
}

/// Where variable `name` is stored, by the last layout among `0..m` that
/// has it (its first entry of that name): slot, type label, encoding and
/// the contract.
pub open spec fn storage_info(layouts: Seq<(String, StorageLayout)>, name: Seq<char>, m: int) -> Option<
    (nat, Seq<char>, Seq<char>, Seq<char>),
>
    decreases m,
{
    if m <= 0 {
        None
    } else {
        let l = layouts[m - 1].1;
        match entry_index(l, name, 0) {
            Some(e) => Some(
                (
                    slot_number(l.storage@[e].slot@),
                    type_label(l.types@, l.storage@[e].type_key@),
                    type_encoding(l.types@, l.storage@[e].type_key@),
                    layouts[m - 1].0@,
                ),
            ),
            None => storage_info(layouts, name, m - 1),
        }
    }
}

/// Index of the first identified contract named `name`.
pub open spec fn contract_index_named(ids: Seq<(Address, String)>, name: Seq<char>, i: int) -> Option<
    int,
>
    decreases ids.len() - i,
{
    if i < 0 || i >= ids.len() {
        None
    } else if ids[i].1@ == name {
        Some(i)
    } else {
        contract_index_named(ids, name, i + 1)
    }
}

/// The address whose storage a variable of contract `owner` is read at:
/// the first one identified as `owner`, else the current one.
pub open spec fn owner_address(s: DebugSession, owner: Seq<char>) -> Option<Address> {
    match contract_index_named(s.identified_contracts@, owner, 0) {
        Some(j) => Some(s.identified_contracts@[j].0),
        None => session_address(s),
    }
}

pub open spec fn at_most(a: Option<Address>) -> Set<Address> {
    match a {
        Some(x) => set![x],
        None => Set::empty(),
    }
}

/// The value of a (non-mapping) variable of contract `owner` in `slot`.
pub open spec fn variable_value(s: DebugSession, owner: Seq<char>, slot: nat) -> nat {
    stored(
        trace_writes(
            s.debug_arena@,
            at_most(owner_address(s, owner)),
            s.current_node as int,
            s.debug_arena@.len() as int,
        ),
        slot,
    )
}

/// How a storage value is shown for a type label: strings and byte arrays
/// as short strings, unsigned integers in decimal, addresses, booleans,
/// and anything else in hex.
pub open spec fn value_by_type(n: nat, label: Seq<char>) -> Seq<char> {
    if label == "string"@ || starts_with(label, "bytes"@) {
        short_string_text(n)
    } else if starts_with(label, "uint"@) {
        dec_text(n)
    } else if starts_with(label, "address"@) || starts_with(label, "contract"@) {
        address_text(n)
    } else if label == "bool"@ {
        if n == 0 {
            "false"@
        } else {
            "true"@
        }
    } else {
        hex0x(n)
    }
}

/// The value of storage variable `name`, unless it is a mapping.
pub open spec fn storage_variable_value(s: DebugSession, name: Seq<char>) -> Option<nat> {
    match storage_info(s.storage_layouts@, name, s.storage_layouts@.len() as int) {
        Some(info) => if info.2 == "mapping"@ {
            None
        } else {
            Some(variable_value(s, info.3, info.0))
        },
        None => None,
    }
}

/// How storage variable `name` is shown.
pub open spec fn storage_variable_text(s: DebugSession, name: Seq<char>) -> Seq<char> {
    match storage_info(s.storage_layouts@, name, s.storage_layouts@.len() as int) {
        Some(info) => if info.2 == "mapping"@ {
            name + " ("@ + info.1 + ")"@
        } else {
            name + " ("@ + info.1 + ") = "@ + value_by_type(variable_value(s, info.3, info.0), info.1)
        },
        None => "variable '"@ + name + "' not found in storage layout"@,
    }
}

/// The value of parameter `name` of the current call, from its call data:
/// the first parameter of that name whose word is there.
pub open spec fn param_scan(params: Seq<(String, String)>, name: Seq<char>, data: Seq<u8>, i: int) -> Option<
    nat,
>
    decreases params.len() - i,
{
    if i < 0 || i >= params.len() {
        None
    } else if params[i].0@ == name && 4 + 32 * i + 32 <= data.len() {
        Some(be_value(data.subrange(4 + 32 * i, 4 + 32 * i + 32)))
    } else {
        param_scan(params, name, data, i + 1)
    }
}

pub open spec fn calldata_param_value(s: DebugSession, name: Seq<char>) -> Option<nat> {
    if s.current_node < s.debug_arena@.len() {
        let data = s.debug_arena@[s.current_node as int].calldata@;
        if data.len() >= 4 {
            match key_index(s.function_params@, bytes0x(data.subrange(0, 4)), 0) {
                Some(j) => param_scan(s.function_params@[j].1@, name, data, 0),
                None => None,
            }
        } else {
            None
        }
    } else {
        None
    }
}

/// The value of an identifier: a parameter of the current call, else a
/// storage variable, else 0.
pub open spec fn ident_value(s: DebugSession, name: Seq<char>) -> nat {
    match calldata_param_value(s, name) {
        Some(n) => n,
        None => if is_storage_name(s.storage_layouts@, name) {
            or_zero(storage_variable_value(s, name))
        } else {
            0
        },
    }
}

/// What the layouts say of mapping `name`: its slot, the label of its
/// value type, and the contract, by the last layout among `0..m` whose
/// first entry of that name is a mapping. (A mapping whose value type is
/// not named leaves the label of an earlier one.)
pub open spec fn mapping_info(layouts: Seq<(String, StorageLayout)>, name: Seq<char>, m: int) -> (
    Option<nat>,
    Option<Seq<char>>,
    Option<Seq<char>>,
)
    decreases m,
{
    if m <= 0 {
        (None, None, None)
    } else {
        let prev = mapping_info(layouts, name, m - 1);
        let l = layouts[m - 1].1;
        match entry_index(l, name, 0) {
            Some(e) => {
                let key = l.storage@[e].type_key@;
                if type_encoding(l.types@, key) == "mapping"@ {
                    let vt = match key_index(l.types@, key, 0) {
                        Some(t) => match l.types@[t].1.value_type {
                            Some(v) => match key_index(l.types@, v@, 0) {
                                Some(u) => Some(l.types@[u].1.label@),
                                None => None,
                            },
                            None => prev.1,
                        },
                        None => prev.1,
                    };
                    (Some(slot_number(l.storage@[e].slot@)), vt, Some(layouts[m - 1].0@))
                } else {
                    prev
                }
            },
            None => prev,
        }
    }
}

/// Among the first `j` identified contracts, one at `a` is named `owner`.
pub open spec fn identified_as(ids: Seq<(Address, String)>, owner: Seq<char>, j: int, a: Address) -> bool
    decreases j,
{
    if j <= 0 {
        false
    } else {
        identified_as(ids, owner, j - 1, a) || (ids[j - 1].0 == a && ids[j - 1].1@ == owner)
    }
}

/// Among the first `l` layouts, one with a variable `name` belongs to a
/// contract identified at `a`.
pub open spec fn layout_owner_at(s: DebugSession, name: Seq<char>, l: int, a: Address) -> bool
    decreases l,
{
    if l <= 0 {
        false
    } else {
        layout_owner_at(s, name, l - 1, a) || (entry_index(s.storage_layouts@[l - 1].1, name, 0)
            is Some && identified_as(
            s.identified_contracts@,
            s.storage_layouts@[l - 1].0@,
            s.identified_contracts@.len() as int,
            a,
        ))
    }
}

/// The addresses whose storage a lookup in mapping `name` of contract
/// `owner` reads: those identified as `owner`, the current one, and those
/// identified as any contract with a variable `name`.
pub open spec fn mapping_targets(s: DebugSession, name: Seq<char>, owner: Seq<char>) -> Set<Address> {
    Set::new(
        |a: Address|
            identified_as(
                s.identified_contracts@,
                owner,
                s.identified_contracts@.len() as int,
                a,
            ) || session_address(s) == Some(a) || layout_owner_at(
                s,
                name,
                s.storage_layouts@.len() as int,
                a,
            ),
    )
}

/// The slot of the entry for `key` of a mapping in `slot`:
/// `keccak256(key . slot)`, both as 32 big-endian bytes.
pub open spec fn entry_slot(key: nat, slot: nat) -> nat {
    be_value(keccak256_spec(be_bytes(key, 32) + be_bytes(slot, 32)))
}

/// The value of a mapping entry at `slot`.
pub open spec fn mapping_value(s: DebugSession, name: Seq<char>, owner: Seq<char>, slot: nat) -> nat {
    stored(
        trace_writes(
            s.debug_arena@,
            mapping_targets(s, name, owner),
            s.current_node as int,
            s.debug_arena@.len() as int,
        ),
        slot,
    )
}

// ===================== Expressions =====================

/// The value of a keyword in arithmetic: a number for the execution
/// context and the addresses, 0 for the others.
pub open spec fn keyword_value(kw: Seq<char>, step: TraceStep, s: DebugSession) -> nat {
    if kw == "pc"@ {
        step.pc as nat
    } else if kw == "gas"@ {
        step.gas_remaining as nat
    } else if kw == "gas_cost"@ {
        step.gas_cost as nat
    } else if kw == "depth"@ || kw == "node"@ {
        s.current_node as nat
    } else if kw == "step"@ {
        s.current_step as nat
    } else if kw == "address"@ || kw == "this"@ {
        match session_address(s) {
            Some(a) => val(a.value),
            None => 0,
        }
    } else if kw == "msg.sender"@ || kw == "caller"@ {
        match session_sender(s) {
            Some(Some(a)) => val(a.value),
            _ => 0,
        }
    } else {
        0
    }
}

/// The numeric value of an expression.
pub open spec fn eval_value(e: SpecExpr, step: TraceStep, s: DebugSession) -> nat
    decreases e, 0int,
{
    match e {
        SpecExpr::HexLiteral(t) => or_zero(radix_literal(hex_body(t), 16)),
        SpecExpr::DecLiteral(t) => or_zero(radix_literal(t, 10)),
        SpecExpr::StackIndex(idx) => match step.stack {
            Some(st) => if (idx as usize) < st@.len() {
                val(st@[st@.len() - 1 - (idx as usize)])
            } else {
                0
            },
            None => 0,
        },
        SpecExpr::LogAccess(_) => 0,
        SpecExpr::Keyword(kw) => keyword_value(kw, step, s),
        SpecExpr::Ident(name) => ident_value(s, name),
        SpecExpr::MappingLookup { name, keys } => {
            let info = mapping_info(s.storage_layouts@, name, s.storage_layouts@.len() as int);
            match info.0 {
                Some(base) => mapping_value(
                    s,
                    name,
                    info.2->0,
                    slot_after(keys, keys.len() as int, base, step, s),
                ),
                None => 0,
            }
        },
        SpecExpr::BinaryOp { lhs, op, rhs } => or_zero(
            binop_value(eval_value(*lhs, step, s), op, eval_value(*rhs, step, s)),
        ),
        SpecExpr::EventAccess { .. } => 0,
        SpecExpr::EventField { .. } => 0,
        SpecExpr::MemoryAccess { offset, length } => match step.memory {
            Some(m) => if (offset as usize) + 32 <= m@.len() {
                be_value(m@.subrange(offset as usize as int, offset as usize + 32))
            } else {
                0
            },
            None => 0,
        },
    }
}

/// The slot of a mapping entry after the first `k` keys, from `base`.
pub open spec fn slot_after(keys: Seq<SpecExpr>, k: int, base: nat, step: TraceStep, s: DebugSession) -> nat
    decreases keys, k,
{
    if k <= 0 || k > keys.len() {
        base
    } else {
        entry_slot(eval_value(keys[k - 1], step, s), slot_after(keys, k - 1, base, step, s))
    }
}

/// The text listing the expressions of the console.
pub open spec fn help_text() -> Seq<char> {
    "Available expressions:\npc, op, gas, gas_cost, depth, step\naddress, this, msg.sender, caller\nstack, stack[N]\nlog, log[N]\nmemory, memory[offset], memory[offset:length]\ncalldata, msg.data, returndata\n<variable_name> (storage variables, e.g. 'number')\n<mapping>[<key>] (e.g. '_balances[msg.sender]')\n0xff (hex to decimal conversion)\n<expr> <op> <expr> (arithmetic: +, -, *, /, %, &, |, ^, <<, >>)\nexamples: 1 + 1, 0xff - 32, stack[4] << 8, 0xff & fee\nhelp, ?"@
}

/// Item `i` of the shown stack.
pub open spec fn stack_line(st: Seq<Word>, i: int) -> Seq<char> {
    "  ["@ + dec_text(i as nat) + "] "@ + dec_text(val(st[i])) + " (0x"@ + hex_text(val(st[i]))
        + ")"@
}

/// The stack shown top first.
pub open spec fn stack_text(st: Seq<Word>) -> Seq<char> {
    if st.len() == 0 {
        "[] (empty)"@
    } else {
        "Stack ("@ + dec_text(st.len()) + " items):\n"@ + join(
            Seq::new(st.len(), |k: int| stack_line(st, st.len() - 1 - k)),
            "\n"@,
        )
    }
}

/// The console output shown as a list.
pub open spec fn logs_text(logs: Seq<Seq<char>>) -> Seq<char> {
    if logs.len() == 0 {
        "[] (no console logs)"@
    } else {
        "Console Logs ("@ + dec_text(logs.len()) + "):\n"@ + join(
            Seq::new(logs.len(), |k: int| "  log["@ + dec_text(k as nat) + "] "@ + logs[k]),
            "\n"@,
        )
    }
}

/// How a keyword is shown.
pub open spec fn keyword_text(kw: Seq<char>, step: TraceStep, s: DebugSession) -> Seq<char> {
    if kw == "pc"@ {
        num_text(step.pc as nat)
    } else if kw == "op"@ || kw == "opcode"@ {
        opcode_text(step.op)
    } else if kw == "gas"@ {
        num_text(step.gas_remaining as nat)
    } else if kw == "gas_cost"@ {
        num_text(step.gas_cost as nat)
    } else if kw == "depth"@ || kw == "node"@ {
        dec_text(s.current_node as nat)
    } else if kw == "step"@ {
        dec_text(s.current_step as nat)
    } else if kw == "address"@ || kw == "this"@ {
        match session_address(s) {
            Some(a) => address_text(val(a.value)),
            None => "N/A"@,
        }
    } else if kw == "msg.sender"@ || kw == "caller"@ {
        match session_sender(s) {
            Some(Some(a)) => address_text(val(a.value)),
            Some(None) => "N/A (top-level call)"@,
            None => "N/A"@,
        }
    } else if kw == "memory"@ || kw == "memory.length"@ {
        match step.memory {
            Some(m) => dec_text(m@.len()) + " bytes"@,
            None => "not available"@,
        }
    } else if kw == "calldata"@ || kw == "msg.data"@ {
        if s.current_node < s.debug_arena@.len() {
            bytes0x(s.debug_arena@[s.current_node as int].calldata@)
        } else {
            ""@
        }
    } else if kw == "returndata"@ {
        bytes0x(step.returndata@)
    } else if kw == "stack"@ {
        match step.stack {
            Some(st) => stack_text(st@),
            None => "not available"@,
        }
    } else if kw == "log"@ {
        logs_text(session_logs(s))
    } else if kw == "help"@ || kw == "?"@ {
        help_text()
    } else {
        "unknown keyword: "@ + kw
    }
}

/// How a mapping lookup is shown.
pub open spec fn mapping_text(name: Seq<char>, keys: Seq<SpecExpr>, step: TraceStep, s: DebugSession) -> Seq<
    char,
> {
    let info = mapping_info(s.storage_layouts@, name, s.storage_layouts@.len() as int);
    match info.0 {
        Some(base) => {
            let label = match info.1 {
                Some(l) => l,
                None => "uint256"@,
            };
            let v = mapping_value(s, name, info.2->0, slot_after(keys, keys.len() as int, base, step, s));
            name + "[..] ("@ + label + ") = "@ + value_by_type(v, label)
        },
        None => "'"@ + name + "' is not a storage mapping"@,
    }
}

/// How an expression is shown.
pub open spec fn eval_text(e: SpecExpr, step: TraceStep, s: DebugSession) -> Seq<char> {
    match e {
        SpecExpr::Keyword(kw) => keyword_text(kw, step, s),
        SpecExpr::HexLiteral(t) => match radix_literal(hex_body(t), 16) {
            Some(n) => result_text(n),
            None => "invalid hex literal: "@ + t,
        },
        SpecExpr::DecLiteral(t) => result_text(or_zero(radix_literal(t, 10))),
        SpecExpr::StackIndex(idx) => match step.stack {
            Some(st) => if (idx as usize) < st@.len() {
                result_text(val(st@[st@.len() - 1 - (idx as usize)]))
            } else {
                "stack index "@ + dec_text(idx as usize as nat) + " out of bounds (stack has "@
                    + dec_text(st@.len()) + " items)"@
            },
            None => "stack not available"@,
        },
        SpecExpr::LogAccess(idx) => {
            let logs = session_logs(s);
            if idx > usize::MAX {
                "log index too large"@
            } else if idx < logs.len() {
                logs[idx as int]
            } else {
                "log["@ + dec_text(idx as nat) + "] out of range ("@ + dec_text(logs.len())
                    + " logs)"@
            }
        },
        SpecExpr::EventAccess { index, field_index } => {
            let evs = session_events(s);
            let i = index as usize as int;
            if i < evs.len() {
                match field_index {
                    Some(fi) => if (fi as usize) < evs[i].5.len() {
                        evs[i].5[fi as usize as int].2
                    } else {
                        "event["@ + dec_text(index as nat) + "]["@ + dec_text(fi as nat)
                            + "] out of bounds ("@ + dec_text(evs[i].5.len()) + " params)"@
                    },
                    None => event_text(evs[i], false),
                }
            } else {
                "event["@ + dec_text(index as nat) + "] out of bounds ("@ + dec_text(evs.len())
                    + " events)"@
            }
        },
        SpecExpr::EventField { index, field } => {
            let evs = session_events(s);
            let i = index as usize as int;
            if i < evs.len() {
                match named_param(evs[i].5, field, 0) {
                    Some(k) => evs[i].5[k].2,
                    None => "event["@ + dec_text(index as nat) + "]."@ + field + " not found"@,
                }
            } else {
                "event["@ + dec_text(index as nat) + "] out of bounds ("@ + dec_text(evs.len())
                    + " events)"@
            }
        },
        SpecExpr::MemoryAccess { offset, length } => match step.memory {
            Some(m) => {
                let off = offset as usize as nat;
                let len = match length {
                    Some(l) => l as usize as nat,
                    None => 32,
                };
                if off >= m@.len() {
                    "offset "@ + dec_text(off) + " out of bounds (memory is "@ + dec_text(m@.len())
                        + " bytes)"@
                } else {
                    bytes0x(
                        m@.subrange(
                            off as int,
                            if off + len < m@.len() {
                                (off + len) as int
                            } else {
                                m@.len() as int
                            },
                        ),
                    )
                }
            },
            None => "memory not available"@,
        },
        SpecExpr::Ident(name) => if is_storage_name(s.storage_layouts@, name) {
            storage_variable_text(s, name)
        } else {
            "unknown expression: '"@ + name + "'. Type 'help' for available expressions."@
        },
        SpecExpr::MappingLookup { name, keys } => mapping_text(name, keys, step, s),
        SpecExpr::BinaryOp { lhs, op, rhs } => match binop_value(
            eval_value(*lhs, step, s),
            op,
            eval_value(*rhs, step, s),
        ) {
            Some(n) => result_text(n),
            None => binop_error(op),
        },
    }
}

/// Index of the first decoded parameter named `field`, from `i` on.
pub open spec fn named_param(ps: Seq<(Seq<char>, Seq<char>, Seq<char>)>, field: Seq<char>, i: int) -> Option<
    int,
>
    decreases ps.len() - i,
{
    if i < 0 || i >= ps.len() {
        None
    } else if ps[i].0 == field {
        Some(i)
    } else {
        named_param(ps, field, i + 1)
    }
}

/// Reading a 32-byte word at `offset` overflows the address space: the
/// evaluation of such an expression does not complete.
pub open spec fn value_overflows(e: SpecExpr, step: TraceStep, s: DebugSession) -> bool
    decreases e, 0int,
{
    match e {
        SpecExpr::MemoryAccess { offset, .. } => step.memory is Some && (offset as usize) + 32
            > usize::MAX,
        SpecExpr::BinaryOp { lhs, rhs, .. } => value_overflows(*lhs, step, s) || value_overflows(
            *rhs,
            step,
            s,
        ),
        SpecExpr::MappingLookup { name, keys } => mapping_info(
            s.storage_layouts@,
            name,
            s.storage_layouts@.len() as int,
        ).0 is Some && keys_overflow(keys, keys.len() as int, step, s),
        _ => false,
    }
}

/// One of the first `k` keys overflows.
pub open spec fn keys_overflow(keys: Seq<SpecExpr>, k: int, step: TraceStep, s: DebugSession) -> bool
    decreases keys, k,
{
    if k <= 0 || k > keys.len() {
        false
    } else {
        value_overflows(keys[k - 1], step, s) || keys_overflow(keys, k - 1, step, s)
    }
}

/// Showing the expression overflows the address space: a memory range
/// whose end does not fit in a `usize`, or an operand that overflows.
pub open spec fn text_overflows(e: SpecExpr, step: TraceStep, s: DebugSession) -> bool {
    match e {
        SpecExpr::MemoryAccess { offset, length } => match step.memory {
            Some(m) => (offset as usize) < m@.len() && (offset as usize) + match length {
                Some(l) => l as usize as int,
                None => 32,
            } > usize::MAX,
            None => false,
        },
        SpecExpr::BinaryOp { lhs, rhs, .. } => value_overflows(*lhs, step, s) || value_overflows(
            *rhs,
            step,
            s,
        ),
        SpecExpr::MappingLookup { .. } => value_overflows(e, step, s),
        _ => false,
    }
}

/// What the console shows for `input`: the parse error, or the value.
pub open spec fn evaluation_text(input: Seq<char>, step: TraceStep, s: DebugSession) -> Seq<char> {
    match spec_parse(trim(input)) {
        Ok(e) => eval_text(e, step, s),
        Err(m) => "parse error: "@ + m,
    }
}

/// Evaluating `input` overflows the address space.
pub open spec fn evaluation_overflows(input: Seq<char>, step: TraceStep, s: DebugSession) -> bool {
    match spec_parse(trim(input)) {
        Ok(e) => text_overflows(e, step, s),
        Err(_) => false,
    }
}

// ===================== Evaluation =====================

/// A number shown in decimal and hexadecimal.
pub fn format_u256_result(value: Word) -> (r: String)
    ensures
        r@ == result_text(val(value)),
{
    if value.is_zero() {
        return String::from_str("0 (0x0)");
    }
    let out = match value.to_u64() {
        Some(x) => {
            let mut o = dec_u64_chars(x);
            push_lit(&mut o, " (0x");
            let h = hex_u64_chars(x);
            push_chars(&mut o, &h);
            push_lit(&mut o, ")");
            o
        },
        None => {
            let mut o = lit_chars("0x");
            let h = hex_word_chars(value);
            push_chars(&mut o, &h);
            push_lit(&mut o, " (");
            let d = dec_word_chars(value);
            push_chars(&mut o, &d);
            push_lit(&mut o, ")");
            o
        },
    };
    string_of(&out)
}

/// `n` in decimal, then in hexadecimal in brackets.
fn num_chars(x: u64) -> (r: Vec<char>)
    ensures
        r@ == num_text(x as nat),
{
    let mut o = dec_u64_chars(x);
    push_lit(&mut o, " (0x");
    let h = hex_u64_chars(x);
    push_chars(&mut o, &h);
    push_lit(&mut o, ")");
    o
}

/// Applies a binary operator to two words.
pub fn apply_binop(lhs: Word, op: BinOp, rhs: Word) -> (r: Result<Word, String>)
    ensures
        match binop_value(val(lhs), op, val(rhs)) {
            Some(n) => r matches Ok(w) && val(w) == n,
            None => r matches Err(m) && m@ == binop_error(op),
        },
{
    proof {
        lemma_word_of_val(lhs);
        lemma_word_of_val(rhs);
    }
    match op {
        BinOp::Add => Ok(wrapping_add(lhs, rhs)),
        BinOp::Sub => Ok(wrapping_sub(lhs, rhs)),
        BinOp::Mul => Ok(wrapping_mul(lhs, rhs)),
        BinOp::Div => {
            if rhs.is_zero() {
                return Err(String::from_str("division by zero"));
            }
            Ok(checked_quotient(lhs, rhs))
        },
        BinOp::Mod => {
            if rhs.is_zero() {
                return Err(String::from_str("modulo by zero"));
            }
            Ok(checked_remainder(lhs, rhs))
        },
        BinOp::BitAnd => Ok(lhs.bitand(&rhs)),
        BinOp::BitOr => Ok(lhs.bitor(&rhs)),
        BinOp::BitXor => Ok(lhs.bitxor(&rhs)),
        BinOp::Shl => Ok(shift_left(lhs, shift_bits(&rhs))),
        BinOp::Shr => Ok(shift_right(lhs, shift_bits(&rhs))),
    }
}

/// The bits of a shift by `w`: at most 255.
fn shift_bits(w: &Word) -> (r: usize)
    ensures
        r as nat == shift_amount(val(*w)),
{
    match w.to_u64() {
        Some(x) => if x < 255 {
            x as usize
        } else {
            255
        },
        None => 255,
    }
}

/// The number a hexadecimal literal denotes.
fn hex_literal_value(s: &Vec<char>) -> (r: Option<Word>)
    ensures
        match r {
            Some(w) => radix_literal(hex_body(s@), 16) == Some(val(w)),
            None => radix_literal(hex_body(s@), 16) is None,
        },
{
    let body = if starts_with_lit(s, "0x") || starts_with_lit(s, "0X") {
        proof {
            reveal_strlit("0x");
            reveal_strlit("0X");
        }
        let b = crate::text::slice_chars(s, 2, s.len());
        assert(b@ =~= s@.skip(2));
        b
    } else {
        crate::text::slice_chars(s, 0, s.len())
    };
    assert(body@ =~= hex_body(s@));
    let text = string_of(&body);
    word_from_str_radix(text.as_str(), 16)
}

/// How a hexadecimal literal is shown: its value, or an error.
pub fn eval_hex_literal(s: &str) -> (r: String)
    ensures
        r@ == match radix_literal(hex_body(s@), 16) {
            Some(n) => result_text(n),
            None => "invalid hex literal: "@ + s@,
        },
{
    let chars = str_chars(s);
    match hex_literal_value(&chars) {
        Some(w) => format_u256_result(w),
        None => {
            let mut o = lit_chars("invalid hex literal: ");
            push_chars(&mut o, &chars);
            string_of(&o)
        },
    }
}

/// The number a decimal literal denotes, 0 when it does not fit.
fn dec_literal_value(s: &String) -> (r: Word)
    ensures
        val(r) == or_zero(radix_literal(s@, 10)),
{
    match word_from_str_radix(s.as_str(), 10) {
        Some(w) => w,
        None => Word::zero(),
    }
}

/// How stack item `idx` from the top is shown.
fn eval_stack_index(idx: u64, step: &TraceStep) -> (r: String)
    ensures
        r@ == eval_text(SpecExpr::StackIndex(idx), *step, arbitrary()),
{
    let i = idx as usize;
    match &step.stack {
        Some(stack) => {
            if i < stack.len() {
                format_u256_result(stack[stack.len() - 1 - i])
            } else {
                let mut o = lit_chars("stack index ");
                let d = dec_u64_chars(i as u64);
                push_chars(&mut o, &d);
                push_lit(&mut o, " out of bounds (stack has ");
                let n = dec_u64_chars(stack.len() as u64);
                push_chars(&mut o, &n);
                push_lit(&mut o, " items)");
                string_of(&o)
            }
        },
        None => String::from_str("stack not available"),
    }
}

/// The frame before the first one at the current address.
fn sender(session: &DebugSession) -> (r: Option<Option<Address>>)
    ensures
        r == session_sender(*session),
{
    match session.current_address() {
        Some(a) => match first_frame_index(&session.debug_arena, &a) {
            Some(k) => if k > 0 {
                Some(Some(session.debug_arena[k - 1].address))
            } else {
                Some(None)
            },
            None => None,
        },
        None => None,
    }
}

/// The stack shown top first.
fn stack_chars(stack: &Vec<Word>) -> (r: Vec<char>)
    ensures
        r@ == stack_text(stack@),
{
    if stack.len() == 0 {
        return lit_chars("[] (empty)");
    }
    let n = stack.len();
    let mut parts: Vec<Vec<char>> = Vec::new();
    let mut k: usize = 0;
    while k < n
        invariant
            n == stack@.len(),
            k <= n,
            parts@.len() == k,
            forall|x: int| 0 <= x < k ==> (#[trigger] parts@[x])@ == stack_line(stack@, n - 1 - x),
        decreases n - k,
    {
        let i = n - 1 - k;
        let mut line = lit_chars("  [");
        let d = dec_u64_chars(i as u64);
        push_chars(&mut line, &d);
        push_lit(&mut line, "] ");
        let v = dec_word_chars(stack[i]);
        push_chars(&mut line, &v);
        push_lit(&mut line, " (0x");
        let h = hex_word_chars(stack[i]);
        push_chars(&mut line, &h);
        push_lit(&mut line, ")");
        parts.push(line);
        k = k + 1;
    }
    let mut o = lit_chars("Stack (");
    let c = dec_u64_chars(n as u64);
    push_chars(&mut o, &c);
    push_lit(&mut o, " items):\n");
    let j = join_strings(&parts, "\n");
    assert(Seq::new(parts@.len(), |x: int| parts@[x]@) =~= Seq::new(
        stack@.len(),
        |x: int| stack_line(stack@, stack@.len() - 1 - x),
    ));
    push_chars(&mut o, &j);
    o
}

/// The console output shown as a list.
fn logs_chars(logs: &Vec<String>) -> (r: Vec<char>)
    ensures
        r@ == logs_text(logs@.map_values(|t: String| t@)),
{
    let ghost lv = logs@.map_values(|t: String| t@);
    if logs.len() == 0 {
        return lit_chars("[] (no console logs)");
    }
    let mut parts: Vec<Vec<char>> = Vec::new();
    let mut k: usize = 0;
    while k < logs.len()
        invariant
            lv == logs@.map_values(|t: String| t@),
            k <= logs@.len(),
            parts@.len() == k,
            forall|x: int|
                0 <= x < k ==> (#[trigger] parts@[x])@ == "  log["@ + dec_text(x as nat) + "] "@
                    + lv[x],
        decreases logs.len() - k,
    {
        let mut line = lit_chars("  log[");
        let d = dec_u64_chars(k as u64);
        push_chars(&mut line, &d);
        push_lit(&mut line, "] ");
        push_string(&mut line, &logs[k]);
        parts.push(line);
        k = k + 1;
    }
    let mut o = lit_chars("Console Logs (");
    let c = dec_u64_chars(logs.len() as u64);
    push_chars(&mut o, &c);
    push_lit(&mut o, "):\n");
    let j = join_strings(&parts, "\n");
    assert(Seq::new(parts@.len(), |x: int| parts@[x]@) =~= Seq::new(
        lv.len(),
        |x: int| "  log["@ + dec_text(x as nat) + "] "@ + lv[x],
    ));
    push_chars(&mut o, &j);
    o
}

/// How a keyword is shown.
pub fn eval_keyword(kw: &String, step: &TraceStep, session: &DebugSession) -> (r: String)
    ensures
        r@ == keyword_text(kw@, *step, *session),
{
    let k = str_chars(kw.as_str());
    let out: Vec<char> = if eq_lit(&k, "pc") {
        num_chars(step.pc)
    } else if eq_lit(&k, "op") || eq_lit(&k, "opcode") {
        let o = opcode_name(step.op);
        str_chars(o.as_str())
    } else if eq_lit(&k, "gas") {
        num_chars(step.gas_remaining)
    } else if eq_lit(&k, "gas_cost") {
        num_chars(step.gas_cost)
    } else if eq_lit(&k, "depth") || eq_lit(&k, "node") {
        dec_u64_chars(session.current_node as u64)
    } else if eq_lit(&k, "step") {
        dec_u64_chars(session.current_step as u64)
    } else if eq_lit(&k, "address") || eq_lit(&k, "this") {
        match session.current_address() {
            Some(a) => address_chars(a.value),
            None => lit_chars("N/A"),
        }
    } else if eq_lit(&k, "msg.sender") || eq_lit(&k, "caller") {
        match sender(session) {
            Some(Some(a)) => address_chars(a.value),
            Some(None) => lit_chars("N/A (top-level call)"),
            None => lit_chars("N/A"),
        }
    } else if eq_lit(&k, "memory") || eq_lit(&k, "memory.length") {
        match &step.memory {
            Some(m) => {
                let mut o = dec_u64_chars(m.len() as u64);
                push_lit(&mut o, " bytes");
                o
            },
            None => lit_chars("not available"),
        }
    } else if eq_lit(&k, "calldata") || eq_lit(&k, "msg.data") {
        match session.current_debug_node() {
            Some(n) => bytes0x_chars(n.calldata.as_slice()),
            None => {
                proof {
                    reveal_strlit("");
                }
                Vec::new()
            },
        }
    } else if eq_lit(&k, "returndata") {
        bytes0x_chars(step.returndata.as_slice())
    } else if eq_lit(&k, "stack") {
        match &step.stack {
            Some(st) => stack_chars(st),
            None => lit_chars("not available"),
        }
    } else if eq_lit(&k, "log") {
        let logs = collect_console_logs(
            &session.debug_arena,
            session.current_node,
            session.current_step,
        );
        logs_chars(&logs)
    } else if eq_lit(&k, "help") || eq_lit(&k, "?") {
        lit_chars(
            "Available expressions:\npc, op, gas, gas_cost, depth, step\naddress, this, msg.sender, caller\nstack, stack[N]\nlog, log[N]\nmemory, memory[offset], memory[offset:length]\ncalldata, msg.data, returndata\n<variable_name> (storage variables, e.g. 'number')\n<mapping>[<key>] (e.g. '_balances[msg.sender]')\n0xff (hex to decimal conversion)\n<expr> <op> <expr> (arithmetic: +, -, *, /, %, &, |, ^, <<, >>)\nexamples: 1 + 1, 0xff - 32, stack[4] << 8, 0xff & fee\nhelp, ?",
        )
    } else {
        let mut o = lit_chars("unknown keyword: ");
        push_chars(&mut o, &k);
        o
    };
    string_of(&out)
}

/// The value of a keyword in arithmetic.
fn resolve_keyword_to_u256(kw: &String, step: &TraceStep, session: &DebugSession) -> (r: Word)
    ensures
        val(r) == keyword_value(kw@, *step, *session),
{
    let k = str_chars(kw.as_str());
    if eq_lit(&k, "pc") {
        Word::from_u64(step.pc)
    } else if eq_lit(&k, "gas") {
        Word::from_u64(step.gas_remaining)
    } else if eq_lit(&k, "gas_cost") {
        Word::from_u64(step.gas_cost)
    } else if eq_lit(&k, "depth") || eq_lit(&k, "node") {
        Word::from_u64(session.current_node as u64)
    } else if eq_lit(&k, "step") {
        Word::from_u64(session.current_step as u64)
    } else if eq_lit(&k, "address") || eq_lit(&k, "this") {
        match session.current_address() {
            Some(a) => a.value,
            None => Word::zero(),
        }
    } else if eq_lit(&k, "msg.sender") || eq_lit(&k, "caller") {
        match sender(session) {
            Some(Some(a)) => a.value,
            _ => Word::zero(),
        }
    } else {
        Word::zero()
    }
}

/// How console log entry `idx` is shown.
fn eval_log_index(idx: u64, session: &DebugSession) -> (r: String)
    ensures
        r@ == eval_text(SpecExpr::LogAccess(idx), arbitrary(), *session),
{
    let logs = collect_console_logs(&session.debug_arena, session.current_node, session.current_step);
    let ghost lv = logs@.map_values(|t: String| t@);
    if idx > usize::MAX as u64 {
        return String::from_str("log index too large");
    }
    let i = idx as usize;
    if i < logs.len() {
        assert(lv[i as int] == logs@[i as int]@);
        logs[i].clone()
    } else {
        let mut o = lit_chars("log[");
        let d = dec_u64_chars(idx);
        push_chars(&mut o, &d);
        push_lit(&mut o, "] out of range (");
        let n = dec_u64_chars(logs.len() as u64);
        push_chars(&mut o, &n);
        push_lit(&mut o, " logs)");
        string_of(&o)
    }
}

/// An event shown without its address.
fn format_collected_event(ev: &CollectedEvent) -> (r: String)
    ensures
        r@ == event_text(event_view(*ev), false),
{
    let c = event_chars(ev, false);
    string_of(&c)
}

fn event_out_of_bounds(index: u64, n: usize) -> (r: Vec<char>)
    ensures
        r@ == "event["@ + dec_text(index as nat) + "] out of bounds ("@ + dec_text(n as nat)
            + " events)"@,
{
    let mut o = lit_chars("event[");
    let d = dec_u64_chars(index);
    push_chars(&mut o, &d);
    push_lit(&mut o, "] out of bounds (");
    let c = dec_u64_chars(n as u64);
    push_chars(&mut o, &c);
    push_lit(&mut o, " events)");
    o
}

/// How event `index`, or its parameter `field_index`, is shown.
fn eval_event_access(index: u64, field_index: Option<u64>, session: &DebugSession) -> (r: String)
    ensures
        r@ == eval_text(SpecExpr::EventAccess { index, field_index }, arbitrary(), *session),
{
    let events = collect_events(
        &session.debug_arena,
        session.current_node,
        session.current_step,
        &session.event_signatures,
        &session.identified_contracts,
    );
    let ghost evs = events@.map_values(|ev: CollectedEvent| event_view(ev));
    let idx = index as usize;
    if idx >= events.len() {
        let o = event_out_of_bounds(index, events.len());
        return string_of(&o);
    }
    let ev = &events[idx];
    assert(evs[idx as int] == event_view(*ev));
    match field_index {
        Some(fi) => {
            let mi = fi as usize;
            assert(evs[idx as int].5.len() == ev.decoded_params@.len());
            if mi < ev.decoded_params.len() {
                assert(evs[idx as int].5[mi as int].2 == ev.decoded_params@[mi as int].2@);
                ev.decoded_params[mi].2.clone()
            } else {
                let mut o = lit_chars("event[");
                let d = dec_u64_chars(index);
                push_chars(&mut o, &d);
                push_lit(&mut o, "][");
                let f = dec_u64_chars(fi);
                push_chars(&mut o, &f);
                push_lit(&mut o, "] out of bounds (");
                let c = dec_u64_chars(ev.decoded_params.len() as u64);
                push_chars(&mut o, &c);
                push_lit(&mut o, " params)");
                string_of(&o)
            }
        },
        None => format_collected_event(ev),
    }
}

/// How parameter `field` of event `index` is shown.
fn eval_event_field(index: u64, field: &String, session: &DebugSession) -> (r: String)
    ensures
        r@ == eval_text(SpecExpr::EventField { index, field: field@ }, arbitrary(), *session),
{
    let events = collect_events(
        &session.debug_arena,
        session.current_node,
        session.current_step,
        &session.event_signatures,
        &session.identified_contracts,
    );
    let ghost evs = events@.map_values(|ev: CollectedEvent| event_view(ev));
    let idx = index as usize;
    if idx >= events.len() {
        let o = event_out_of_bounds(index, events.len());
        return string_of(&o);
    }
    let ev = &events[idx];
    let ghost ps = evs[idx as int].5;
    assert(ps == event_view(*ev).5);
    let mut k: usize = 0;
    while k < ev.decoded_params.len()
        invariant
            ps == ev.decoded_params@.map_values(|t: (String, String, String)| crate::variables::triple_view(t)),
            evs == session_events(*session),
            idx == index as usize,
            (idx as int) < evs.len(),
            ps == evs[idx as int].5,
            k <= ev.decoded_params@.len(),
            named_param(ps, field@, k as int) == named_param(ps, field@, 0),
        decreases ev.decoded_params.len() - k,
    {
        assert(ps[k as int] == crate::variables::triple_view(ev.decoded_params@[k as int]));
        if ev.decoded_params[k].0 == *field {
            assert(named_param(ps, field@, k as int) == Some(k as int));
            assert(named_param(ps, field@, 0) == Some(k as int));
            assert(ps[k as int].2 == ev.decoded_params@[k as int].2@);
            let r = ev.decoded_params[k].2.clone();
            assert(r@ == ps[k as int].2);
            return r;
        }
        k = k + 1;
    }
    let mut o = lit_chars("event[");
    let d = dec_u64_chars(index);
    push_chars(&mut o, &d);
    push_lit(&mut o, "].");
    push_string(&mut o, field);
    push_lit(&mut o, " not found");
    string_of(&o)
}

/// How a memory range is shown.
fn eval_memory_access(offset: u64, length: Option<u64>, step: &TraceStep) -> (r: String)
    requires
        !text_overflows(SpecExpr::MemoryAccess { offset, length }, *step, arbitrary()),
    ensures
        r@ == eval_text(SpecExpr::MemoryAccess { offset, length }, *step, arbitrary()),
{
    let memory = match &step.memory {
        Some(m) => m,
        None => {
            return String::from_str("memory not available");
        },
    };
    let off = offset as usize;
    let len = match length {
        Some(l) => l as usize,
        None => 32,
    };
    if off >= memory.len() {
        let mut o = lit_chars("offset ");
        let d = dec_u64_chars(off as u64);
        push_chars(&mut o, &d);
        push_lit(&mut o, " out of bounds (memory is ");
        let c = dec_u64_chars(memory.len() as u64);
        push_chars(&mut o, &c);
        push_lit(&mut o, " bytes)");
        return string_of(&o);
    }
    let end = if off + len < memory.len() {
        off + len
    } else {
        memory.len()
    };
    let c = bytes0x_chars(vstd::slice::slice_subrange(memory.as_slice(), off, end));
    string_of(&c)
}

/// Whether some contract has a storage variable `name`.
pub fn is_storage_variable(name: &String, session: &DebugSession) -> (r: bool)
    ensures
        r == is_storage_name(session.storage_layouts@, name@),
{
    let mut l: usize = 0;
    while l < session.storage_layouts.len()
        invariant
            l <= session.storage_layouts@.len(),
            forall|x: int|
                0 <= x < l ==> (#[trigger] entry_index(session.storage_layouts@[x].1, name@, 0))
                    is None,
        decreases session.storage_layouts.len() - l,
    {
        if entry_of(&session.storage_layouts[l].1, name).is_some() {
            return true;
        }
        l = l + 1;
    }
    false
}

/// The first entry of a layout labelled `name`.
fn entry_of(layout: &StorageLayout, name: &String) -> (r: Option<usize>)
    ensures
        match r {
            Some(e) => entry_index(*layout, name@, 0) == Some(e as int) && e < layout.storage@.len(),
            None => entry_index(*layout, name@, 0) is None,
        },
{
    let mut i: usize = 0;
    while i < layout.storage.len()
        invariant
            i <= layout.storage@.len(),
            entry_index(*layout, name@, i as int) == entry_index(*layout, name@, 0),
        decreases layout.storage.len() - i,
    {
        if layout.storage[i].label == *name {
            return Some(i);
        }
        i = i + 1;
    }
    None
}

/// Where storage variable `name` is: see `storage_info`.
fn find_storage_info(layouts: &Vec<(String, StorageLayout)>, name: &String) -> (r: Option<
    (Word, Vec<char>, Vec<char>, String),
>)
    ensures
        match r {
            Some(t) => storage_info(layouts@, name@, layouts@.len() as int) == Some(
                (val(t.0), t.1@, t.2@, t.3@),
            ),
            None => storage_info(layouts@, name@, layouts@.len() as int) is None,
        },
{
    let mut info: Option<(Word, Vec<char>, Vec<char>, String)> = None;
    let mut l: usize = 0;
    while l < layouts.len()
        invariant
            l <= layouts@.len(),
            match info {
                Some(t) => storage_info(layouts@, name@, l as int) == Some(
                    (val(t.0), t.1@, t.2@, t.3@),
                ),
                None => storage_info(layouts@, name@, l as int) is None,
            },
        decreases layouts.len() - l,
    {
        let layout = &layouts[l].1;
        match entry_of(layout, name) {
            Some(e) => {
                let entry = &layout.storage[e];
                let (label, enc) = crate::variables::type_info(&layout.types, &entry.type_key);
                info = Some((slot_word(&entry.slot), label, enc, layouts[l].0.clone()));
            },
            None => {},
        }
        l = l + 1;
    }
    info
}

/// The first address identified as `name`.
fn contract_address_named(ids: &Vec<(Address, String)>, name: &String) -> (r: Option<Address>)
    ensures
        match contract_index_named(ids@, name@, 0) {
            Some(j) => r == Some(ids@[j].0),
            None => r is None,
        },
{
    let mut i: usize = 0;
    while i < ids.len()
        invariant
            i <= ids@.len(),
            contract_index_named(ids@, name@, i as int) == contract_index_named(ids@, name@, 0),
        decreases ids.len() - i,
    {
        if ids[i].1 == *name {
            return Some(ids[i].0);
        }
        i = i + 1;
    }
    None
}

/// The value in `slot` of a variable of contract `owner`.
fn owner_storage_value(session: &DebugSession, owner: &String, slot: &Word) -> (r: Word)
    ensures
        val(r) == variable_value(*session, owner@, val(*slot)),
{
    let target = match contract_address_named(&session.identified_contracts, owner) {
        Some(a) => Some(a),
        None => session.current_address(),
    };
    let mut targets: Vec<Address> = Vec::new();
    match target {
        Some(a) => targets.push(a),
        None => {},
    }
    proof {
        assert(targets@.to_set() =~= at_most(owner_address(*session, owner@))) by {
            assert forall|a: Address| targets@.to_set().contains(a) <==> at_most(
                owner_address(*session, owner@),
            ).contains(a) by {
                if targets@.contains(a) {
                    let k = choose|k: int| 0 <= k < targets@.len() && targets@[k] == a;
                    assert(k == 0);
                }
                if target is Some && a == target->0 {
                    assert(targets@[0] == a);
                }
            }
        }
    }
    let writes = replay_sstores(&session.debug_arena, &targets, session.current_node);
    storage_value(&writes, slot)
}

/// How storage variable `name` is shown.
fn eval_storage_variable(name: &String, session: &DebugSession) -> (r: String)
    ensures
        r@ == storage_variable_text(*session, name@),
{
    match find_storage_info(&session.storage_layouts, name) {
        None => {
            let mut o = lit_chars("variable '");
            push_string(&mut o, name);
            push_lit(&mut o, "' not found in storage layout");
            string_of(&o)
        },
        Some(info) => {
            let (slot, label, enc, owner) = info;
            let mut o = str_chars(name.as_str());
            push_lit(&mut o, " (");
            push_chars(&mut o, &label);
            if eq_lit(&enc, "mapping") {
                push_lit(&mut o, ")");
                return string_of(&o);
            }
            push_lit(&mut o, ") = ");
            let v = owner_storage_value(session, &owner, &slot);
            let f = format_value_by_type(v, &label);
            push_chars(&mut o, &f);
            string_of(&o)
        },
    }
}

/// The value of storage variable `name`, unless it is a mapping.
fn resolve_storage_value(name: &String, session: &DebugSession) -> (r: Option<Word>)
    ensures
        match r {
            Some(w) => storage_variable_value(*session, name@) == Some(val(w)),
            None => storage_variable_value(*session, name@) is None,
        },
{
    match find_storage_info(&session.storage_layouts, name) {
        None => None,
        Some(info) => {
            let (slot, _label, enc, owner) = info;
            if eq_lit(&enc, "mapping") {
                return None;
            }
            Some(owner_storage_value(session, &owner, &slot))
        },
    }
}

/// How a storage value is shown for its type label.
fn format_value_by_type(value: Word, label: &Vec<char>) -> (r: Vec<char>)
    ensures
        r@ == value_by_type(val(value), label@),
{
    if eq_lit(label, "string") || starts_with_lit(label, "bytes") {
        let s = decode_short_string(&value);
        str_chars(s.as_str())
    } else if starts_with_lit(label, "uint") {
        dec_word_chars(value)
    } else if starts_with_lit(label, "address") || starts_with_lit(label, "contract") {
        address_chars(value)
    } else if eq_lit(label, "bool") {
        if value.is_zero() {
            lit_chars("false")
        } else {
            lit_chars("true")
        }
    } else {
        hex0x_chars(value)
    }
}

/// How an identifier is shown: the storage variable of that name.
fn eval_ident(name: &String, session: &DebugSession) -> (r: String)
    ensures
        r@ == eval_text(SpecExpr::Ident(name@), arbitrary(), *session),
{
    if is_storage_variable(name, session) {
        return eval_storage_variable(name, session);
    }
    let mut o = lit_chars("unknown expression: '");
    push_string(&mut o, name);
    push_lit(&mut o, "'. Type 'help' for available expressions.");
    string_of(&o)
}

/// The value of parameter `name` of the current call.
fn calldata_param(name: &String, session: &DebugSession) -> (r: Option<Word>)
    ensures
        match r {
            Some(w) => calldata_param_value(*session, name@) == Some(val(w)),
            None => calldata_param_value(*session, name@) is None,
        },
{
    let node = match session.current_debug_node() {
        Some(n) => n,
        None => {
            return None;
        },
    };
    let data = node.calldata.as_slice();
    if data.len() < 4 {
        return None;
    }
    let sel = bytes0x_chars(vstd::slice::slice_subrange(data, 0, 4));
    let sel_string = string_of(&sel);
    let j = match find_key(&session.function_params, &sel_string) {
        Some(j) => j,
        None => {
            return None;
        },
    };
    let params = &session.function_params[j].1;
    assert(calldata_param_value(*session, name@) == param_scan(params@, name@, data@, 0));
    let mut i: usize = 0;
    while i < params.len()
        invariant
            calldata_param_value(*session, name@) == param_scan(params@, name@, data@, 0),
            data@ == node.calldata@,
            data@.len() >= 4,
            i <= params@.len(),
            param_scan(params@, name@, data@, i as int) == param_scan(params@, name@, data@, 0),
        decreases params.len() - i,
    {
        let ghost dl = data@.len() as int;
        assert((dl >= 36 && i <= (dl - 36) / 32) <==> (4 + 32 * i + 32 <= dl)) by (nonlinear_arith)
            requires
                dl >= 4,
        ;
        if params[i].0 == *name && data.len() >= 36 && i <= (data.len() - 36) / 32 {
            let start = 4 + 32 * i;
            let w = word_from_be_slice(vstd::slice::slice_subrange(data, start, start + 32));
            return Some(w);
        }
        i = i + 1;
    }
    None
}

/// The value of an identifier in arithmetic.
fn resolve_ident_to_u256(name: &String, step: &TraceStep, session: &DebugSession) -> (r: Word)
    ensures
        val(r) == ident_value(*session, name@),
{
    match calldata_param(name, session) {
        Some(w) => {
            return w;
        },
        None => {},
    }
    if is_storage_variable(name, session) {
        match resolve_storage_value(name, session) {
            Some(v) => {
                return v;
            },
            None => {},
        }
    }
    Word::zero()
}

proof fn lemma_push_contains(v: Seq<Address>, x: Address, a: Address)
    ensures
        v.push(x).contains(a) <==> (v.contains(a) || a == x),
{
    if v.contains(a) {
        let k = choose|k: int| 0 <= k < v.len() && v[k] == a;
        assert(v.push(x)[k] == a);
    }
    if a == x {
        assert(v.push(x)[v.len() as int] == a);
    }
    if v.push(x).contains(a) {
        let k = choose|k: int| 0 <= k < v.push(x).len() && v.push(x)[k] == a;
        if k < v.len() {
            assert(v[k] == a);
        }
    }
}

/// Appends the addresses identified as `owner`.
fn push_identified(out: &mut Vec<Address>, ids: &Vec<(Address, String)>, owner: &String)
    ensures
        forall|a: Address|
            #[trigger] final(out)@.contains(a) <==> (old(out)@.contains(a) || identified_as(
                ids@,
                owner@,
                ids@.len() as int,
                a,
            )),
{
    let ghost start = out@;
    let mut j: usize = 0;
    while j < ids.len()
        invariant
            j <= ids@.len(),
            forall|a: Address|
                #[trigger] out@.contains(a) <==> (start.contains(a) || identified_as(ids@, owner@, j as int, a)),
        decreases ids.len() - j,
    {
        let ghost before = out@;
        let matched = ids[j].1 == *owner;
        if matched {
            out.push(ids[j].0);
        }
        proof {
            assert forall|a: Address|
                #[trigger] out@.contains(a) <==> (start.contains(a) || identified_as(ids@, owner@, j + 1, a)) by {
                lemma_push_contains(before, ids@[j as int].0, a);
                assert(before.contains(a) <==> (start.contains(a) || identified_as(ids@, owner@, j as int, a)));
                assert(identified_as(ids@, owner@, j + 1, a) == (identified_as(ids@, owner@, j as int, a)
                    || (ids@[j as int].0 == a && ids@[j as int].1@ == owner@)));
                assert(matched == (ids@[j as int].1@ == owner@));
                if !matched {
                    assert(out@ == before);
                } else {
                    assert(out@ == before.push(ids@[j as int].0));
                }
            }
        }
        j = j + 1;
    }
}

/// The addresses whose storage mapping `name` of contract `owner` is read at.
fn mapping_target_list(session: &DebugSession, name: &String, owner: &String) -> (r: Vec<Address>)
    ensures
        r@.to_set() == mapping_targets(*session, name@, owner@),
{
    let ids = &session.identified_contracts;
    let mut out: Vec<Address> = Vec::new();
    push_identified(&mut out, ids, owner);
    let ghost part1 = out@;
    let cur = session.current_address();
    match cur {
        Some(a) => {
            out.push(a);
        },
        None => {},
    }
    let ghost part12 = out@;
    proof {
        assert forall|b: Address|
            part12.contains(b) <==> (identified_as(ids@, owner@, ids@.len() as int, b)
                || session_address(*session) == Some(b)) by {
            match cur {
                Some(a) => {
                    lemma_push_contains(part1, a, b);
                },
                None => {},
            }
        }
    }
    let mut l: usize = 0;
    while l < session.storage_layouts.len()
        invariant
            l <= session.storage_layouts@.len(),
            *ids == session.identified_contracts,
            forall|a: Address|
                #[trigger] out@.contains(a) <==> (part12.contains(a) || layout_owner_at(*session, name@, l as int, a)),
        decreases session.storage_layouts.len() - l,
    {
        let ghost before = out@;
        let found = entry_of(&session.storage_layouts[l].1, name).is_some();
        if found {
            push_identified(&mut out, ids, &session.storage_layouts[l].0);
        }
        proof {
            assert forall|a: Address|
                #[trigger] out@.contains(a) <==> (part12.contains(a) || layout_owner_at(*session, name@, l + 1, a)) by {
                assert(layout_owner_at(*session, name@, l + 1, a) == (layout_owner_at(*session, name@, l as int, a) || (
                    entry_index(session.storage_layouts@[l as int].1, name@, 0) is Some && identified_as(
                        session.identified_contracts@,
                        session.storage_layouts@[l as int].0@,
                        session.identified_contracts@.len() as int,
                        a,
                    ))));
                if !found {
                    assert(out@ == before);
                }
            }
        }
        l = l + 1;
    }
    proof {
        assert forall|a: Address| out@.to_set().contains(a) <==> mapping_targets(*session, name@, owner@).contains(a) by {
            if session.current_node < session.debug_arena@.len() {
                assert(session_address(*session) == Some(session.debug_arena@[session.current_node as int].address));
            }
        }
        assert(out@.to_set() =~= mapping_targets(*session, name@, owner@));
    }
    out
}

/// What the layouts say of mapping `name`: see `mapping_info`.
fn find_mapping_info(layouts: &Vec<(String, StorageLayout)>, name: &String) -> (r: (
    Option<Word>,
    Option<Vec<char>>,
    Option<String>,
))
    ensures
        ({
            let m = mapping_info(layouts@, name@, layouts@.len() as int);
            &&& match r.0 {
                Some(w) => m.0 == Some(val(w)),
                None => m.0 is None,
            }
            &&& match r.1 {
                Some(v) => m.1 == Some(v@),
                None => m.1 is None,
            }
            &&& match r.2 {
                Some(o) => m.2 == Some(o@),
                None => m.2 is None,
            }
        }),
{
    let mut slot: Option<Word> = None;
    let mut vtype: Option<Vec<char>> = None;
    let mut owner: Option<String> = None;
    let mut l: usize = 0;
    while l < layouts.len()
        invariant
            l <= layouts@.len(),
            ({
                let m = mapping_info(layouts@, name@, l as int);
                &&& match slot {
                    Some(w) => m.0 == Some(val(w)),
                    None => m.0 is None,
                }
                &&& match vtype {
                    Some(v) => m.1 == Some(v@),
                    None => m.1 is None,
                }
                &&& match owner {
                    Some(o) => m.2 == Some(o@),
                    None => m.2 is None,
                }
            }),
        decreases layouts.len() - l,
    {
        let layout = &layouts[l].1;
        match entry_of(layout, name) {
            Some(e) => {
                let entry = &layout.storage[e];
                let (_label, enc) = crate::variables::type_info(&layout.types, &entry.type_key);
                if eq_lit(&enc, "mapping") {
                    match find_key(&layout.types, &entry.type_key) {
                        Some(t) => match &layout.types[t].1.value_type {
                            Some(v) => {
                                vtype = match find_key(&layout.types, v) {
                                    Some(u) => Some(str_chars(layout.types[u].1.label.as_str())),
                                    None => None,
                                };
                            },
                            None => {},
                        },
                        None => {},
                    }
                    slot = Some(slot_word(&entry.slot));
                    owner = Some(layouts[l].0.clone());
                }
            },
            None => {},
        }
        l = l + 1;
    }
    (slot, vtype, owner)
}

/// The slot of the entry for `key` of a mapping in `slot`.
fn mapping_entry_slot(key: Word, slot: Word) -> (r: Word)
    ensures
        val(r) == entry_slot(val(key), val(slot)),
{
    let mut data = word_to_be_bytes(key);
    let mut s2 = word_to_be_bytes(slot);
    data.append(&mut s2);
    let h = keccak256(data.as_slice());
    word_from_be_slice(h.as_slice())
}

proof fn lemma_mapping_info_owner(layouts: Seq<(String, StorageLayout)>, name: Seq<char>, m: int)
    ensures
        mapping_info(layouts, name, m).0 is Some <==> mapping_info(layouts, name, m).2 is Some,
    decreases m,
{
    if m > 0 {
        lemma_mapping_info_owner(layouts, name, m - 1);
    }
}

proof fn lemma_keys_no_overflow(keys: Seq<SpecExpr>, n: int, step: TraceStep, s: DebugSession)
    requires
        0 <= n <= keys.len(),
        !keys_overflow(keys, n, step, s),
    ensures
        forall|k: int| 0 <= k < n ==> !value_overflows(#[trigger] keys[k], step, s),
    decreases n,
{
    if n > 0 {
        lemma_keys_no_overflow(keys, n - 1, step, s);
    }
}

/// The value of an expression in arithmetic.
pub fn eval_to_u256(ast: &Expr, step: &TraceStep, session: &DebugSession) -> (r: Word)
    requires
        !value_overflows(ast@, *step, *session),
    ensures
        val(r) == eval_value(ast@, *step, *session),
    decreases ast, 2int,
{
    match ast {
        Expr::HexLiteral(t) => {
            let c = str_chars(t.as_str());
            match hex_literal_value(&c) {
                Some(w) => w,
                None => Word::zero(),
            }
        },
        Expr::DecLiteral(t) => dec_literal_value(t),
        Expr::StackIndex(idx) => {
            let i = *idx as usize;
            match &step.stack {
                Some(st) => if i < st.len() {
                    st[st.len() - 1 - i]
                } else {
                    Word::zero()
                },
                None => Word::zero(),
            }
        },
        Expr::LogAccess(_) => Word::zero(),
        Expr::Keyword(kw) => resolve_keyword_to_u256(kw, step, session),
        Expr::Ident(name) => resolve_ident_to_u256(name, step, session),
        Expr::MappingLookup { name, keys } => {
            assert(crate::expr_parser::views(keys@) =~= match ast@ {
                SpecExpr::MappingLookup { keys: ks, .. } => ks,
                _ => seq![],
            });
            resolve_mapping_to_u256(name, keys, step, session)
        },
        Expr::BinaryOp { lhs, op, rhs } => {
            let l = eval_to_u256(lhs, step, session);
            let r = eval_to_u256(rhs, step, session);
            match apply_binop(l, *op, r) {
                Ok(w) => w,
                Err(_) => Word::zero(),
            }
        },
        Expr::EventAccess { .. } => Word::zero(),
        Expr::EventField { .. } => Word::zero(),
        Expr::MemoryAccess { offset, .. } => {
            let off = *offset as usize;
            match &step.memory {
                Some(m) => if off + 32 <= m.len() {
                    word_from_be_slice(vstd::slice::slice_subrange(m.as_slice(), off, off + 32))
                } else {
                    Word::zero()
                },
                None => Word::zero(),
            }
        },
    }
}

/// The slot of a mapping entry after all `keys`, from `base`.
fn mapping_slot_chain(keys: &Vec<Expr>, base: Word, step: &TraceStep, session: &DebugSession) -> (r:
    Word)
    requires
        !keys_overflow(crate::expr_parser::views(keys@), keys@.len() as int, *step, *session),
    ensures
        val(r) == slot_after(
            crate::expr_parser::views(keys@),
            keys@.len() as int,
            val(base),
            *step,
            *session,
        ),
    decreases keys, 0int,
{
    let ghost ks = crate::expr_parser::views(keys@);
    proof {
        lemma_keys_no_overflow(ks, keys@.len() as int, *step, *session);
    }
    let mut slot = base;
    let mut k: usize = 0;
    while k < keys.len()
        invariant
            ks == crate::expr_parser::views(keys@),
            k <= keys@.len(),
            forall|x: int| 0 <= x < keys@.len() ==> !value_overflows(#[trigger] ks[x], *step, *session),
            val(slot) == slot_after(ks, k as int, val(base), *step, *session),
        decreases keys.len() - k,
    {
        assert(ks[k as int] == keys@[k as int]@);
        let key = eval_to_u256(&keys[k], step, session);
        slot = mapping_entry_slot(key, slot);
        k = k + 1;
    }
    slot
}

/// The value of a mapping entry in arithmetic; 0 when `name` is no mapping.
fn resolve_mapping_to_u256(name: &String, keys: &Vec<Expr>, step: &TraceStep, session: &DebugSession) -> (r:
    Word)
    requires
        !value_overflows(
            SpecExpr::MappingLookup { name: name@, keys: crate::expr_parser::views(keys@) },
            *step,
            *session,
        ),
    ensures
        val(r) == eval_value(
            SpecExpr::MappingLookup { name: name@, keys: crate::expr_parser::views(keys@) },
            *step,
            *session,
        ),
    decreases keys, 1int,
{
    proof {
        lemma_mapping_info_owner(session.storage_layouts@, name@, session.storage_layouts@.len() as int);
    }
    let (slot, _vtype, owner) = find_mapping_info(&session.storage_layouts, name);
    match (slot, owner) {
        (Some(base), Some(owner)) => {
            let entry = mapping_slot_chain(keys, base, step, session);
            let targets = mapping_target_list(session, name, &owner);
            let writes = replay_sstores(&session.debug_arena, &targets, session.current_node);
            storage_value(&writes, &entry)
        },
        _ => Word::zero(),
    }
}

/// How a mapping lookup is shown.
fn eval_mapping_lookup(name: &String, keys: &Vec<Expr>, step: &TraceStep, session: &DebugSession) -> (r:
    String)
    requires
        !value_overflows(
            SpecExpr::MappingLookup { name: name@, keys: crate::expr_parser::views(keys@) },
            *step,
            *session,
        ),
    ensures
        r@ == mapping_text(name@, crate::expr_parser::views(keys@), *step, *session),
{
    proof {
        lemma_mapping_info_owner(session.storage_layouts@, name@, session.storage_layouts@.len() as int);
    }
    let (slot, vtype, owner) = find_mapping_info(&session.storage_layouts, name);
    match (slot, owner) {
        (Some(base), Some(owner)) => {
            let entry = mapping_slot_chain(keys, base, step, session);
            let targets = mapping_target_list(session, name, &owner);
            let writes = replay_sstores(&session.debug_arena, &targets, session.current_node);
            let value = storage_value(&writes, &entry);
            let label = match vtype {
                Some(v) => v,
                None => lit_chars("uint256"),
            };
            let mut o = str_chars(name.as_str());
            push_lit(&mut o, "[..] (");
            push_chars(&mut o, &label);
            push_lit(&mut o, ") = ");
            let f = format_value_by_type(value, &label);
            push_chars(&mut o, &f);
            string_of(&o)
        },
        _ => {
            let mut o = lit_chars("'");
            push_string(&mut o, name);
            push_lit(&mut o, "' is not a storage mapping");
            string_of(&o)
        },
    }
}

/// How a parsed expression is shown.
pub fn eval_ast(ast: &Expr, step: &TraceStep, session: &DebugSession) -> (r: String)
    requires
        !text_overflows(ast@, *step, *session),
    ensures
        r@ == eval_text(ast@, *step, *session),
{
    match ast {
        Expr::Keyword(kw) => eval_keyword(kw, step, session),
        Expr::HexLiteral(t) => eval_hex_literal(t.as_str()),
        Expr::DecLiteral(t) => format_u256_result(dec_literal_value(t)),
        Expr::StackIndex(idx) => eval_stack_index(*idx, step),
        Expr::LogAccess(idx) => eval_log_index(*idx, session),
        Expr::EventAccess { index, field_index } => eval_event_access(*index, *field_index, session),
        Expr::EventField { index, field } => eval_event_field(*index, field, session),
        Expr::MemoryAccess { offset, length } => eval_memory_access(*offset, *length, step),
        Expr::Ident(name) => eval_ident(name, session),
        Expr::MappingLookup { name, keys } => {
            assert(crate::expr_parser::views(keys@) =~= match ast@ {
                SpecExpr::MappingLookup { keys: ks, .. } => ks,
                _ => seq![],
            });
            eval_mapping_lookup(name, keys, step, session)
        },
        Expr::BinaryOp { lhs, op, rhs } => {
            let l = eval_to_u256(lhs, step, session);
            let r = eval_to_u256(rhs, step, session);
            match apply_binop(l, *op, r) {
                Ok(w) => format_u256_result(w),
                Err(e) => e,
            }
        },
    }
}

/// Evaluates an expression typed in the debug console at `step`.
pub fn evaluate_expression(expr: &str, step: &TraceStep, session: &DebugSession) -> (r: String)
    requires
        !evaluation_overflows(expr@, *step, *session),
    ensures
        r@ == evaluation_text(expr@, *step, *session),
{
    let chars = str_chars(expr);
    let t = trimmed(&chars);
    let text = string_of(&t);
    match parse(text.as_str()) {
        Ok(ast) => eval_ast(&ast, step, session),
        Err(e) => {
            let mut o = lit_chars("parse error: ");
            push_string(&mut o, &e);
            string_of(&o)
        },
    }
}

/// Whether evaluating `ast` as a number overflows the address space.
fn value_overflows_exec(ast: &Expr, step: &TraceStep, session: &DebugSession) -> (r: bool)
    ensures
        r == value_overflows(ast@, *step, *session),
    decreases ast, 1int,
{
    match ast {
        Expr::MemoryAccess { offset, .. } => step.memory.is_some() && *offset as usize > usize::MAX
            - 32,
        Expr::BinaryOp { lhs, rhs, .. } => value_overflows_exec(lhs, step, session)
            || value_overflows_exec(rhs, step, session),
        Expr::MappingLookup { name, keys } => {
            assert(crate::expr_parser::views(keys@) =~= match ast@ {
                SpecExpr::MappingLookup { keys: ks, .. } => ks,
                _ => seq![],
            });
            let (slot, _v, _o) = find_mapping_info(&session.storage_layouts, name);
            if slot.is_none() {
                return false;
            }
            keys_overflow_exec(keys, step, session)
        },
        _ => false,
    }
}

/// Whether evaluating one of `keys` overflows the address space.
fn keys_overflow_exec(keys: &Vec<Expr>, step: &TraceStep, session: &DebugSession) -> (r: bool)
    ensures
        r == keys_overflow(crate::expr_parser::views(keys@), keys@.len() as int, *step, *session),
    decreases keys, 0int,
{
    let ghost ks = crate::expr_parser::views(keys@);
    let mut k: usize = 0;
    while k < keys.len()
        invariant
            ks == crate::expr_parser::views(keys@),
            k <= keys@.len(),
            keys_overflow(ks, k as int, *step, *session) == false,
        decreases keys.len() - k,
    {
        assert(ks[k as int] == keys@[k as int]@);
        if value_overflows_exec(&keys[k], step, session) {
            proof {
                lemma_keys_overflow_mono(ks, k as int + 1, keys@.len() as int, *step, *session);
            }
            return true;
        }
        k = k + 1;
    }
    false
}

proof fn lemma_keys_overflow_mono(keys: Seq<SpecExpr>, a: int, b: int, step: TraceStep, s: DebugSession)
    requires
        0 <= a <= b <= keys.len(),
        keys_overflow(keys, a, step, s),
    ensures
        keys_overflow(keys, b, step, s),
    decreases b - a,
{
    if a < b {
        lemma_keys_overflow_mono(keys, a, b - 1, step, s);
    }
}

/// Whether evaluating `expr` at `step` overflows the address space.
pub fn evaluation_would_overflow(expr: &str, step: &TraceStep, session: &DebugSession) -> (r: bool)
    ensures
        r == evaluation_overflows(expr@, *step, *session),
{
    let chars = str_chars(expr);
    let t = trimmed(&chars);
    let text = string_of(&t);
    match parse(text.as_str()) {
        Ok(ast) => match &ast {
            Expr::MemoryAccess { offset, length } => match &step.memory {
                Some(m) => {
                    let off = *offset as usize;
                    let len = match length {
                        Some(l) => *l as usize,
                        None => 32,
                    };
                    off < m.len() && off > usize::MAX - len
                },
                None => false,
            },
            Expr::BinaryOp { lhs, rhs, .. } => value_overflows_exec(lhs, step, session)
                || value_overflows_exec(rhs, step, session),
            Expr::MappingLookup { .. } => value_overflows_exec(&ast, step, session),
            _ => false,
        },
        Err(_) => false,
    }
}

} // verus!
