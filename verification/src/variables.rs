//! The EVM state at a step, decoded into variables for display: the stack,
//! memory, call data, return data, gas, storage, emitted events and
//! `console.log` output.

use vstd::prelude::*;
use vstd::slice::slice_subrange;
use vstd::utf8::{decode_utf8, valid_utf8};
use crate::fmt::{
    dec_u64_chars, dec_word_chars, hex_bytes_chars, hex_word_chars, join, join_strings, lit_chars,
    pad_zeros_chars, push_chars, push_lit, push_string, string_of,
};
use crate::text::{eq_lit, starts_with, starts_with_lit, str_chars, utf8_text};
use crate::launch::{EventInfo, EventParam, StorageLayout, StorageType};
use crate::session::{contract_name_for, contract_name_of};
use crate::trace::{opcode_name, opcode_text, Address, TraceNode, TraceStep};
use crate::word::{
    be_bytes, be_value, checked_quotient, dec_text, hex_bytes, hex_text, lemma_be_bytes_len, pad_zeros, val,
    parse_word, word_literal, word_to_be_bytes, word_to_usize, Word,
};

verus! {

/// A named value shown in the debugger's variables view.
#[derive(Debug)]
pub struct Variable {
    pub name: String,
    pub value: String,
    pub type_field: Option<String>,
    /// Handle of the variable's children; 0 when it has none.
    pub variables_reference: i64,
}

pub open spec fn opt_text(o: Option<String>) -> Option<Seq<char>> {
    match o {
        Some(s) => Some(s@),
        None => None,
    }
}

impl View for Variable {
    type V = (Seq<char>, Seq<char>, Option<Seq<char>>, i64);

    open spec fn view(&self) -> Self::V {
        (self.name@, self.value@, opt_text(self.type_field), self.variables_reference)
    }
}

/// A variable without children.
pub open spec fn leaf(name: Seq<char>, value: Seq<char>, ty: Seq<char>) -> (
    Seq<char>,
    Seq<char>,
    Option<Seq<char>>,
    i64,
) {
    (name, value, Some(ty), 0)
}

/// `[i]`.
pub open spec fn index_name(i: nat) -> Seq<char> {
    "["@ + dec_text(i) + "]"@
}

/// `0x` and the lowercase hexadecimal digits of `n`.
pub open spec fn hex0x(n: nat) -> Seq<char> {
    "0x"@ + hex_text(n)
}

/// `0x` and two hexadecimal digits per byte of `b`.
pub open spec fn bytes0x(b: Seq<u8>) -> Seq<char> {
    "0x"@ + hex_bytes(b)
}

/// `0x` and the 40 hexadecimal digits of a 20-byte address.
pub open spec fn address_text(n: nat) -> Seq<char> {
    "0x"@ + pad_zeros(hex_text(n), 40)
}

/// How a word is shown for a Solidity type: addresses and contracts as 40
/// hex digits, `bool` as `true` or `false`, fixed-size byte arrays in hex,
/// integers in decimal, anything else in hex.
pub open spec fn typed_text(n: nat, t: Seq<char>) -> Seq<char> {
    if starts_with(t, "address"@) || starts_with(t, "contract"@) {
        address_text(n)
    } else if t == "bool"@ {
        if n == 0 {
            "false"@
        } else {
            "true"@
        }
    } else if starts_with(t, "bytes"@) && t != "bytes"@ {
        hex0x(n)
    } else if starts_with(t, "uint"@) || starts_with(t, "int"@) {
        dec_text(n)
    } else {
        hex0x(n)
    }
}

/// Number of 32-byte chunks that `len` bytes split into, the last one
/// possibly shorter.
pub open spec fn chunk_count(len: nat) -> nat {
    (len + 31) / 32
}

/// Chunk `i` of `b`: bytes `32i .. min(32i + 32, len)`.
pub open spec fn chunk(b: Seq<u8>, i: int) -> Seq<u8> {
    b.subrange(
        32 * i,
        if 32 * i + 32 <= b.len() {
            32 * i + 32
        } else {
            b.len() as int
        },
    )
}

pub fn leaf_var(name: &Vec<char>, value: &Vec<char>, ty: &str) -> (r: Variable)
    ensures
        r@ == leaf(name@, value@, ty@),
{
    let t = lit_chars(ty);
    Variable {
        name: string_of(name),
        value: string_of(value),
        type_field: Some(string_of(&t)),
        variables_reference: 0,
    }
}

/// `0x` and the hexadecimal digits of `w`.
pub fn hex0x_chars(w: Word) -> (r: Vec<char>)
    ensures
        r@ == hex0x(val(w)),
{
    let mut out = lit_chars("0x");
    let h = hex_word_chars(w);
    push_chars(&mut out, &h);
    out
}

/// `0x` and two hexadecimal digits per byte.
pub fn bytes0x_chars(b: &[u8]) -> (r: Vec<char>)
    ensures
        r@ == bytes0x(b@),
{
    let mut out = lit_chars("0x");
    let h = hex_bytes_chars(b);
    push_chars(&mut out, &h);
    out
}

/// `0x` and 40 hexadecimal digits.
pub fn address_chars(w: Word) -> (r: Vec<char>)
    ensures
        r@ == address_text(val(w)),
{
    let mut out = lit_chars("0x");
    let h = hex_word_chars(w);
    let p = pad_zeros_chars(&h, 40);
    push_chars(&mut out, &p);
    out
}

/// `[i]`.
pub fn index_name_chars(i: usize) -> (r: Vec<char>)
    ensures
        r@ == index_name(i as nat),
{
    let mut out = lit_chars("[");
    let d = dec_u64_chars(i as u64);
    push_chars(&mut out, &d);
    push_lit(&mut out, "]");
    out
}

pub fn typed_chars(value: Word, t: &Vec<char>) -> (r: Vec<char>)
    ensures
        r@ == typed_text(val(value), t@),
{
    if starts_with_lit(t, "address") || starts_with_lit(t, "contract") {
        address_chars(value)
    } else if eq_lit(t, "bool") {
        if value.is_zero() {
            lit_chars("false")
        } else {
            lit_chars("true")
        }
    } else if starts_with_lit(t, "bytes") && !eq_lit(t, "bytes") {
        hex0x_chars(value)
    } else if starts_with_lit(t, "uint") || starts_with_lit(t, "int") {
        dec_word_chars(value)
    } else {
        hex0x_chars(value)
    }
}

/// Formats a word according to its Solidity type.
pub fn format_typed_value(value: &Word, type_hint: &str) -> (r: String)
    ensures
        r@ == typed_text(val(*value), type_hint@),
{
    let t = str_chars(type_hint);
    let c = typed_chars(*value, &t);
    string_of(&c)
}

/// Number of 32-byte chunks of `len` bytes.
pub fn chunk_total(len: usize) -> (r: usize)
    ensures
        r == chunk_count(len as nat),
{
    len / 32 + if len % 32 != 0 {
        1
    } else {
        0
    }
}

/// Chunk `i` of `b`.
pub fn chunk_slice(b: &[u8], i: usize) -> (r: &[u8])
    requires
        i < chunk_count(b@.len()),
    ensures
        r@ == chunk(b@, i as int),
        32 * i < b@.len(),
{
    let n = b.len();
    assert(32 * i < n) by (nonlinear_arith)
        requires
            i < (n + 31) / 32,
    ;
    let start = 32 * i;
    let end = if n - start >= 32 {
        start + 32
    } else {
        b.len()
    };
    slice_subrange(b, start, end)
}

pub open spec fn stack_var(stack: Seq<Word>, i: int) -> (
    Seq<char>,
    Seq<char>,
    Option<Seq<char>>,
    i64,
) {
    leaf(index_name(i as nat), hex0x(val(stack[i])), "uint256"@)
}

/// The stack, bottom first, each item in hexadecimal.
pub fn stack_variables(step: &TraceStep) -> (r: Vec<Variable>)
    ensures
        match step.stack {
            None => r@.len() == 0,
            Some(s) => r@.len() == s@.len() && forall|i: int|
                0 <= i < s@.len() ==> (#[trigger] r@[i])@ == stack_var(s@, i),
        },
{
    let mut out: Vec<Variable> = Vec::new();
    match &step.stack {
        None => {},
        Some(stack) => {
            let mut i: usize = 0;
            while i < stack.len()
                invariant
                    i <= stack@.len(),
                    out@.len() == i,
                    forall|k: int| 0 <= k < i ==> (#[trigger] out@[k])@ == stack_var(stack@, k),
                decreases stack.len() - i,
            {
                let name = index_name_chars(i);
                let value = hex0x_chars(stack[i]);
                out.push(leaf_var(&name, &value, "uint256"));
                i = i + 1;
            }
        },
    }
    out
}

pub open spec fn memory_var(m: Seq<u8>, i: int) -> (
    Seq<char>,
    Seq<char>,
    Option<Seq<char>>,
    i64,
) {
    leaf("0x"@ + pad_zeros(hex_text((32 * i) as nat), 4), bytes0x(chunk(m, i)), "bytes32"@)
}

/// Memory in 32-byte words, each named by its offset.
pub fn memory_variables(step: &TraceStep) -> (r: Vec<Variable>)
    ensures
        match step.memory {
            None => r@.len() == 0,
            Some(m) => r@.len() == chunk_count(m@.len()) && forall|i: int|
                0 <= i < r@.len() ==> (#[trigger] r@[i])@ == memory_var(m@, i),
        },
{
    let mut out: Vec<Variable> = Vec::new();
    match &step.memory {
        None => {},
        Some(memory) => {
            let bytes = memory.as_slice();
            let blen = bytes.len();
            let total = chunk_total(blen);
            let mut i: usize = 0;
            while i < total
                invariant
                    bytes@ == memory@,
                    blen == bytes@.len(),
                    total == chunk_count(bytes@.len()),
                    i <= total,
                    out@.len() == i,
                    forall|k: int| 0 <= k < i ==> (#[trigger] out@[k])@ == memory_var(bytes@, k),
                decreases total - i,
            {
                let ch = chunk_slice(bytes, i);
                let mut name = lit_chars("0x");
                let h = hex_word_chars(Word::from_u64((32 * i) as u64));
                let p = pad_zeros_chars(&h, 4);
                push_chars(&mut name, &p);
                let value = bytes0x_chars(ch);
                out.push(leaf_var(&name, &value, "bytes32"));
                i = i + 1;
            }
        },
    }
    out
}

pub open spec fn returndata_var(d: Seq<u8>, i: int) -> (
    Seq<char>,
    Seq<char>,
    Option<Seq<char>>,
    i64,
) {
    leaf(index_name(i as nat), bytes0x(chunk(d, i)), "bytes32"@)
}

/// The return data of the last call, in 32-byte words.
pub fn returndata_variables(step: &TraceStep) -> (r: Vec<Variable>)
    ensures
        r@.len() == chunk_count(step.returndata@.len()),
        forall|i: int| 0 <= i < r@.len() ==> (#[trigger] r@[i])@ == returndata_var(step.returndata@, i),
{
    let mut out: Vec<Variable> = Vec::new();
    let bytes = step.returndata.as_slice();
    let total = chunk_total(bytes.len());
    let mut i: usize = 0;
    while i < total
        invariant
            bytes@ == step.returndata@,
            total == chunk_count(bytes@.len()),
            i <= total,
            out@.len() == i,
            forall|k: int| 0 <= k < i ==> (#[trigger] out@[k])@ == returndata_var(bytes@, k),
        decreases total - i,
    {
        let ch = chunk_slice(bytes, i);
        let name = index_name_chars(i);
        let value = bytes0x_chars(ch);
        out.push(leaf_var(&name, &value, "bytes32"));
        i = i + 1;
    }
    out
}

/// The gas left before the step and the step's cost.
pub fn gas_info_variables(step: &TraceStep) -> (r: Vec<Variable>)
    ensures
        r@.len() == 2,
        r@[0]@ == leaf("gas_remaining"@, dec_text(step.gas_remaining as nat), "uint64"@),
        r@[1]@ == leaf("gas_cost"@, dec_text(step.gas_cost as nat), "uint64"@),
{
    let mut out: Vec<Variable> = Vec::new();
    let n1 = lit_chars("gas_remaining");
    let v1 = dec_u64_chars(step.gas_remaining);
    out.push(leaf_var(&n1, &v1, "uint64"));
    let n2 = lit_chars("gas_cost");
    let v2 = dec_u64_chars(step.gas_cost);
    out.push(leaf_var(&n2, &v2, "uint64"));
    out
}

/// How a Solidity `string` or `bytes` held in one storage slot is shown.
/// A short value (last byte even) keeps its bytes in front and twice its
/// length in the last byte: it is shown quoted when it is valid UTF-8, else
/// in hex. A long value (last byte odd) keeps `2·len + 1` in the slot: only
/// its length is shown.
pub open spec fn short_string_text(n: nat) -> Seq<char> {
    let last = n % 256;
    if last % 2 == 0 {
        let len = last / 2;
        if len == 0 {
            "\"\""@
        } else {
            let seg = be_bytes(n, 32).subrange(0, if len < 31 { len as int } else { 31 });
            if valid_utf8(seg) {
                "\""@ + decode_utf8(seg) + "\""@
            } else {
                bytes0x(seg)
            }
        }
    } else {
        "(string, "@ + dec_text(((n - 1) / 2) as nat) + " bytes)"@
    }
}

/// Decodes a Solidity short string stored in a single storage slot.
#[verifier::spinoff_prover]
#[verifier::rlimit(40)]
pub fn decode_short_string(raw: &Word) -> (r: String)
    ensures
        r@ == short_string_text(val(*raw)),
{
    let ghost n = val(*raw);
    let bytes = word_to_be_bytes(*raw);
    proof {
        lemma_be_bytes_len(n / 256, 31);
    }
    let last = bytes[31];
    assert(last == n % 256);
    if last % 2 == 0 {
        let len = (last / 2) as usize;
        if len == 0 {
            return String::from_str("\"\"");
        }
        let len = if len < 31 {
            len
        } else {
            31
        };
        let seg = slice_subrange(bytes.as_slice(), 0, len);
        match utf8_text(seg) {
            Some(s) => {
                let mut out = lit_chars("\"");
                let c = str_chars(s.as_str());
                push_chars(&mut out, &c);
                push_lit(&mut out, "\"");
                string_of(&out)
            },
            None => {
                let c = bytes0x_chars(seg);
                string_of(&c)
            },
        }
    } else {
        let half = checked_quotient(*raw, Word::from_u64(2));
        assert(n / 2 == (n - 1) / 2);
        let mut out = lit_chars("(string, ");
        let d = dec_word_chars(half);
        push_chars(&mut out, &d);
        push_lit(&mut out, " bytes)");
        string_of(&out)
    }
}

// ===================== Storage =====================

/// The write an `SSTORE` step makes: the slot and the value, the two top
/// stack items.
pub open spec fn step_write(st: TraceStep) -> Seq<(Word, Word)> {
    match st.stack {
        Some(s) => if st.op == 0x55 && s@.len() >= 2 {
            seq![(s@[s@.len() - 1], s@[s@.len() - 2])]
        } else {
            seq![]
        },
        None => seq![],
    }
}

/// The writes of steps `0..k`, in order.
pub open spec fn steps_writes(steps: Seq<TraceStep>, k: int) -> Seq<(Word, Word)>
    decreases k,
{
    if k <= 0 {
        seq![]
    } else {
        steps_writes(steps, k - 1) + step_write(steps[k - 1])
    }
}

/// The storage writes, in order, of the frames among `0..m` that come no
/// later than frame `current` and run at one of the addresses `targets`.
pub open spec fn trace_writes(
    nodes: Seq<TraceNode>,
    targets: Set<Address>,
    current: int,
    m: int,
) -> Seq<(Word, Word)>
    decreases m,
{
    if m <= 0 {
        seq![]
    } else {
        trace_writes(nodes, targets, current, m - 1) + if m - 1 <= current && targets.contains(
            nodes[m - 1].address,
        ) {
            steps_writes(nodes[m - 1].steps@, nodes[m - 1].steps@.len() as int)
        } else {
            seq![]
        }
    }
}

/// The value of `slot` after `writes`: the last value written to it, or 0
/// when it was never written.
pub open spec fn stored(writes: Seq<(Word, Word)>, slot: nat) -> nat
    decreases writes.len(),
{
    if writes.len() == 0 {
        0
    } else if val(writes.last().0) == slot {
        val(writes.last().1)
    } else {
        stored(writes.drop_last(), slot)
    }
}

/// Whether `v` holds `a`.
pub fn contains_address(v: &Vec<Address>, a: &Address) -> (r: bool)
    ensures
        r == v@.contains(*a),
{
    let mut i: usize = 0;
    while i < v.len()
        invariant
            i <= v@.len(),
            forall|k: int| 0 <= k < i ==> v@[k] != *a,
        decreases v.len() - i,
    {
        if v[i] == *a {
            return true;
        }
        i = i + 1;
    }
    false
}

/// The storage writes of the trace at the addresses `targets`, up to and
/// including frame `current_node`, in execution order.
pub fn replay_sstores(nodes: &Vec<TraceNode>, targets: &Vec<Address>, current_node: usize) -> (r:
    Vec<(Word, Word)>)
    ensures
        r@ == trace_writes(nodes@, targets@.to_set(), current_node as int, nodes@.len() as int),
{
    let mut out: Vec<(Word, Word)> = Vec::new();
    let mut ni: usize = 0;
    while ni < nodes.len()
        invariant
            ni <= nodes@.len(),
            out@ == trace_writes(nodes@, targets@.to_set(), current_node as int, ni as int),
        decreases nodes.len() - ni,
    {
        let node = &nodes[ni];
        if ni <= current_node && contains_address(targets, &node.address) {
            let mut si: usize = 0;
            let ghost base = out@;
            while si < node.steps.len()
                invariant
                    si <= node.steps@.len(),
                    out@ == base + steps_writes(node.steps@, si as int),
                decreases node.steps.len() - si,
            {
                let st = &node.steps[si];
                match &st.stack {
                    Some(stack) => {
                        if st.op == 0x55 && stack.len() >= 2 {
                            out.push((stack[stack.len() - 1], stack[stack.len() - 2]));
                        }
                    },
                    None => {},
                }
                si = si + 1;
                assert(out@ =~= base + steps_writes(node.steps@, si as int));
            }
        } else {
            assert(out@ =~= trace_writes(nodes@, targets@.to_set(), current_node as int, ni + 1));
        }
        ni = ni + 1;
    }
    out
}

/// The value of `slot` after `writes`.
pub fn storage_value(writes: &Vec<(Word, Word)>, slot: &Word) -> (r: Word)
    ensures
        val(r) == stored(writes@, val(*slot)),
{
    let mut i: usize = writes.len();
    assert(writes@.subrange(0, i as int) =~= writes@);
    while i > 0
        invariant
            i <= writes@.len(),
            stored(writes@.subrange(0, i as int), val(*slot)) == stored(writes@, val(*slot)),
        decreases i,
    {
        let ghost pre = writes@.subrange(0, i as int);
        assert(pre.drop_last() =~= writes@.subrange(0, i - 1));
        proof {
            crate::word::lemma_val_injective(writes@[i - 1].0, *slot);
        }
        if writes[i - 1].0 == *slot {
            return writes[i - 1].1;
        }
        i = i - 1;
    }
    Word::zero()
}

/// Index of the first pair whose key is `k`, from `i` on.
pub open spec fn key_index<V>(v: Seq<(String, V)>, k: Seq<char>, i: int) -> Option<int>
    decreases v.len() - i,
{
    if i < 0 || i >= v.len() {
        None
    } else if v[i].0@ == k {
        Some(i)
    } else {
        key_index(v, k, i + 1)
    }
}

/// The first pair whose key is `k`.
pub fn find_key<V>(v: &Vec<(String, V)>, k: &String) -> (r: Option<usize>)
    ensures
        match r {
            Some(i) => key_index(v@, k@, 0) == Some(i as int) && i < v@.len(),
            None => key_index(v@, k@, 0) is None,
        },
{
    let mut i: usize = 0;
    while i < v.len()
        invariant
            i <= v@.len(),
            key_index(v@, k@, i as int) == key_index(v@, k@, 0),
        decreases v.len() - i,
    {
        if v[i].0 == *k {
            return Some(i);
        }
        i = i + 1;
    }
    None
}

/// The label of the type with key `k`, `unknown` when there is none.
pub open spec fn type_label(types: Seq<(String, StorageType)>, k: Seq<char>) -> Seq<char> {
    match key_index(types, k, 0) {
        Some(i) => types[i].1.label@,
        None => "unknown"@,
    }
}

/// The encoding of the type with key `k`, empty when unknown.
pub open spec fn type_encoding(types: Seq<(String, StorageType)>, k: Seq<char>) -> Seq<char> {
    match key_index(types, k, 0) {
        Some(i) => match types[i].1.encoding {
            Some(e) => e@,
            None => ""@,
        },
        None => ""@,
    }
}

/// The slot number a storage layout gives as text; 0 when it does not parse.
pub open spec fn slot_number(s: Seq<char>) -> nat {
    match word_literal(s) {
        Some(n) => n,
        None => 0,
    }
}

/// How a storage value is shown for its type label and encoding.
pub open spec fn storage_text(n: nat, label: Seq<char>, encoding: Seq<char>) -> Seq<char> {
    if encoding == "bytes"@ || label == "string"@ {
        short_string_text(n)
    } else if starts_with(label, "uint"@) || starts_with(label, "int"@) {
        dec_text(n)
    } else if starts_with(label, "address"@) || starts_with(label, "contract"@) {
        address_text(n)
    } else if label == "bool"@ {
        if n == 0 {
            "false"@
        } else {
            "true"@
        }
    } else {
        hex0x(n)
    }
}

/// The variable shown for entry `i` of a storage layout after `writes`.
pub open spec fn storage_var(layout: StorageLayout, writes: Seq<(Word, Word)>, i: int) -> (
    Seq<char>,
    Seq<char>,
    Option<Seq<char>>,
    i64,
) {
    let e = layout.storage@[i];
    let label = type_label(layout.types@, e.type_key@);
    let enc = type_encoding(layout.types@, e.type_key@);
    if enc == "mapping"@ {
        leaf(e.label@, "("@ + label + ")"@, label)
    } else {
        leaf(e.label@, storage_text(stored(writes, slot_number(e.slot@)), label, enc), label)
    }
}

/// The label and encoding of the type with key `k`.
pub(crate) fn type_info(types: &Vec<(String, StorageType)>, k: &String) -> (r: (Vec<char>, Vec<char>))
    ensures
        r.0@ == type_label(types@, k@),
        r.1@ == type_encoding(types@, k@),
{
    proof {
        reveal_strlit("");
    }
    match find_key(types, k) {
        Some(i) => {
            let t = &types[i].1;
            let label = str_chars(t.label.as_str());
            let enc = match &t.encoding {
                Some(e) => str_chars(e.as_str()),
                None => Vec::new(),
            };
            (label, enc)
        },
        None => (lit_chars("unknown"), Vec::new()),
    }
}

fn storage_chars(value: Word, label: &Vec<char>, encoding: &Vec<char>) -> (r: Vec<char>)
    ensures
        r@ == storage_text(val(value), label@, encoding@),
{
    if eq_lit(encoding, "bytes") || eq_lit(label, "string") {
        let s = decode_short_string(&value);
        str_chars(s.as_str())
    } else if starts_with_lit(label, "uint") || starts_with_lit(label, "int") {
        dec_word_chars(value)
    } else if starts_with_lit(label, "address") || starts_with_lit(label, "contract") {
        address_chars(value)
    } else if eq_lit(label, "bool") {
        if value.is_zero() {
            lit_chars("false")
        } else {
            lit_chars("true")
        }
    } else {
        hex0x_chars(value)
    }
}

/// The slot of a layout entry as a word.
pub fn slot_word(slot: &String) -> (r: Word)
    ensures
        val(r) == slot_number(slot@),
{
    match parse_word(slot.as_str()) {
        Some(w) => w,
        None => Word::zero(),
    }
}

/// The state variables of the contract at `node_address`, their values
/// replayed from every storage write made at that address up to and
/// including the current frame (the whole current frame, not only up to
/// the current step).
pub fn storage_variables(
    debug_arena: &Vec<TraceNode>,
    current_node: usize,
    current_step: usize,
    node_address: &Address,
    layout: &StorageLayout,
) -> (r: Vec<Variable>)
    ensures
        r@.len() == layout.storage@.len(),
        forall|i: int|
            0 <= i < r@.len() ==> (#[trigger] r@[i])@ == storage_var(
                *layout,
                trace_writes(
                    debug_arena@,
                    set![*node_address],
                    current_node as int,
                    debug_arena@.len() as int,
                ),
                i,
            ),
{
    let mut targets: Vec<Address> = Vec::new();
    targets.push(*node_address);
    let writes = replay_sstores(debug_arena, &targets, current_node);
    assert(targets@.to_set() =~= set![*node_address]) by {
        assert(targets@ =~= seq![*node_address]);
        assert forall|a: Address| targets@.to_set().contains(a) <==> set![*node_address].contains(a) by {
            if targets@.contains(a) {
                let k = choose|k: int| 0 <= k < targets@.len() && targets@[k] == a;
                assert(k == 0);
            }
            if a == *node_address {
                assert(targets@[0] == a);
            }
        }
    }
    let mut out: Vec<Variable> = Vec::new();
    let mut i: usize = 0;
    while i < layout.storage.len()
        invariant
            i <= layout.storage@.len(),
            out@.len() == i,
            forall|k: int| 0 <= k < i ==> (#[trigger] out@[k])@ == storage_var(*layout, writes@, k),
        decreases layout.storage.len() - i,
    {
        let e = &layout.storage[i];
        let (label, enc) = type_info(&layout.types, &e.type_key);
        let name = str_chars(e.label.as_str());
        let value = if eq_lit(&enc, "mapping") {
            let mut v = lit_chars("(");
            push_chars(&mut v, &label);
            push_lit(&mut v, ")");
            v
        } else {
            let slot = slot_word(&e.slot);
            let w = storage_value(&writes, &slot);
            storage_chars(w, &label, &enc)
        };
        out.push(
            Variable {
                name: string_of(&name),
                value: string_of(&value),
                type_field: Some(string_of(&label)),
                variables_reference: 0,
            },
        );
        i = i + 1;
    }
    out
}

// ===================== Events =====================

/// An event emitted by a `LOG` instruction, with its ABI description when
/// its first topic is a known event signature.
#[derive(Debug)]
pub struct CollectedEvent {
    pub address: Address,
    pub contract_name: String,
    pub event_info: Option<EventInfo>,
    pub topics: Vec<Word>,
    pub data: Vec<u8>,
    /// Name, type and shown value of each decoded parameter.
    pub decoded_params: Vec<(String, String, String)>,
}

pub open spec fn param_view(p: EventParam) -> (Seq<char>, Seq<char>, bool) {
    (p.name@, p.type_field@, p.indexed)
}

pub open spec fn info_view(e: EventInfo) -> (Seq<char>, Seq<(Seq<char>, Seq<char>, bool)>) {
    (e.name@, e.params@.map_values(|p: EventParam| param_view(p)))
}

pub open spec fn triple_view(t: (String, String, String)) -> (Seq<char>, Seq<char>, Seq<char>) {
    (t.0@, t.1@, t.2@)
}

pub open spec fn event_view(ev: CollectedEvent) -> (
    Address,
    Seq<char>,
    Option<(Seq<char>, Seq<(Seq<char>, Seq<char>, bool)>)>,
    Seq<Word>,
    Seq<u8>,
    Seq<(Seq<char>, Seq<char>, Seq<char>)>,
) {
    (
        ev.address,
        ev.contract_name@,
        match ev.event_info {
            Some(i) => Some(info_view(i)),
            None => None,
        },
        ev.topics@,
        ev.data@,
        ev.decoded_params@.map_values(|t: (String, String, String)| triple_view(t)),
    )
}

/// A step that emits an event: `LOG0` to `LOG4` with the offset, the size
/// and its topics on the stack.
pub open spec fn is_log(st: TraceStep) -> bool {
    &&& 0xa0 <= st.op <= 0xa4
    &&& st.stack matches Some(s) && s@.len() >= 2 + (st.op - 0xa0)
}

/// The topics of a `LOG` step: the stack items below offset and size.
pub open spec fn log_topics(st: TraceStep) -> Seq<Word> {
    let s = st.stack->0@;
    Seq::new((st.op - 0xa0) as nat, |i: int| s[s.len() - 3 - i])
}

/// `m[off .. min(off + size, len)]` when `off` is inside `m`, else nothing.
pub open spec fn mem_range(m: Seq<u8>, off: nat, size: nat) -> Seq<u8> {
    if off < m.len() {
        m.subrange(
            off as int,
            if off + size < m.len() {
                (off + size) as int
            } else {
                m.len() as int
            },
        )
    } else {
        seq![]
    }
}

/// The data of a `LOG` step: the memory range that offset and size name,
/// when both fit in a `usize`.
pub open spec fn log_data(st: TraceStep) -> Seq<u8> {
    let s = st.stack->0@;
    let off = val(s[s.len() - 1]);
    let size = val(s[s.len() - 2]);
    match st.memory {
        Some(m) => if off <= usize::MAX && size <= usize::MAX {
            mem_range(m@, off, size)
        } else {
            seq![]
        },
        None => seq![],
    }
}

/// The key of an event signature: `0x` and 64 hexadecimal digits.
pub open spec fn topic_key(t: Word) -> Seq<char> {
    "0x"@ + pad_zeros(hex_text(val(t)), 64)
}

/// The event description that a `LOG` step's first topic selects.
pub open spec fn log_info_index(st: TraceStep, sigs: Seq<(String, EventInfo)>) -> Option<int> {
    let t = log_topics(st);
    if t.len() > 0 {
        key_index(sigs, topic_key(t[0]), 0)
    } else {
        None
    }
}

/// How a parameter of an event is named: its ABI name, or `arg[i]`.
pub open spec fn param_name(p: EventParam, i: int) -> Seq<char> {
    if p.name@.len() == 0 {
        "arg"@ + index_name(i as nat)
    } else {
        p.name@
    }
}

/// The decoded parameters `0..k` of an event, with the next topic to read
/// and the next data word to read. Indexed parameters come from the topics
/// after the first, the others from consecutive 32-byte words of the data;
/// one that is not there is shown as `(missing)`.
pub open spec fn decode_params(params: Seq<EventParam>, topics: Seq<Word>, data: Seq<u8>, k: int) -> (
    Seq<(Seq<char>, Seq<char>, Seq<char>)>,
    int,
    int,
)
    decreases k,
{
    if k <= 0 {
        (seq![], 1, 0)
    } else {
        let prev = decode_params(params, topics, data, k - 1);
        let ti = prev.1;
        let wi = prev.2;
        let p = params[k - 1];
        let name = param_name(p, k - 1);
        if p.indexed {
            if 0 <= ti < topics.len() {
                (prev.0.push((name, p.type_field@, typed_text(val(topics[ti]), p.type_field@))), ti + 1, wi)
            } else {
                (prev.0.push((name, p.type_field@, "(missing)"@)), ti, wi)
            }
        } else {
            if 0 <= wi && 32 * wi + 32 <= data.len() {
                (
                    prev.0.push(
                        (
                            name,
                            p.type_field@,
                            typed_text(be_value(data.subrange(32 * wi, 32 * wi + 32)), p.type_field@),
                        ),
                    ),
                    ti,
                    wi + 1,
                )
            } else {
                (prev.0.push((name, p.type_field@, "(missing)"@)), ti, wi)
            }
        }
    }
}

/// The event that `LOG` step `st` of frame `node` emits.
pub open spec fn event_at(
    node: TraceNode,
    st: TraceStep,
    sigs: Seq<(String, EventInfo)>,
    ids: Seq<(Address, String)>,
) -> (
    Address,
    Seq<char>,
    Option<(Seq<char>, Seq<(Seq<char>, Seq<char>, bool)>)>,
    Seq<Word>,
    Seq<u8>,
    Seq<(Seq<char>, Seq<char>, Seq<char>)>,
) {
    let topics = log_topics(st);
    let data = log_data(st);
    let name = match contract_name_of(ids, node.address) {
        Some(x) => x,
        None => address_text(val(node.address.value)),
    };
    match log_info_index(st, sigs) {
        Some(j) => (
            node.address,
            name,
            Some(info_view(sigs[j].1)),
            topics,
            data,
            decode_params(sigs[j].1.params@, topics, data, sigs[j].1.params@.len() as int).0,
        ),
        None => (node.address, name, None, topics, data, seq![]),
    }
}

/// The events of steps `0..k` of a frame.
pub open spec fn node_events(
    node: TraceNode,
    sigs: Seq<(String, EventInfo)>,
    ids: Seq<(Address, String)>,
    k: int,
) -> Seq<
    (
        Address,
        Seq<char>,
        Option<(Seq<char>, Seq<(Seq<char>, Seq<char>, bool)>)>,
        Seq<Word>,
        Seq<u8>,
        Seq<(Seq<char>, Seq<char>, Seq<char>)>,
    ),
>
    decreases k,
{
    if k <= 0 {
        seq![]
    } else {
        node_events(node, sigs, ids, k - 1) + if is_log(node.steps@[k - 1]) {
            seq![event_at(node, node.steps@[k - 1], sigs, ids)]
        } else {
            seq![]
        }
    }
}

/// How many steps of frame `ni` have run at position (`cn`, `cs`): all of
/// an earlier frame, up to and including the current step of the current
/// frame.
pub open spec fn steps_run(nodes: Seq<TraceNode>, cn: int, cs: int, ni: int) -> int {
    let len = nodes[ni].steps@.len() as int;
    if ni < cn {
        len
    } else if cs + 1 < len {
        cs + 1
    } else {
        len
    }
}

/// The events of frames `0..m` emitted by position (`cn`, `cs`).
pub open spec fn events_upto(
    nodes: Seq<TraceNode>,
    cn: int,
    cs: int,
    sigs: Seq<(String, EventInfo)>,
    ids: Seq<(Address, String)>,
    m: int,
) -> Seq<
    (
        Address,
        Seq<char>,
        Option<(Seq<char>, Seq<(Seq<char>, Seq<char>, bool)>)>,
        Seq<Word>,
        Seq<u8>,
        Seq<(Seq<char>, Seq<char>, Seq<char>)>,
    ),
>
    decreases m,
{
    if m <= 0 {
        seq![]
    } else {
        events_upto(nodes, cn, cs, sigs, ids, m - 1) + node_events(
            nodes[m - 1],
            sigs,
            ids,
            steps_run(nodes, cn, cs, m - 1),
        )
    }
}

/// Number of frames that have started by frame `cn`.
pub open spec fn frames_run(nodes: Seq<TraceNode>, cn: int) -> int {
    if cn + 1 < nodes.len() {
        cn + 1
    } else {
        nodes.len() as int
    }
}

/// A copy of an event description.
pub fn duplicate_info(e: &EventInfo) -> (r: EventInfo)
    ensures
        info_view(r) == info_view(*e),
{
    let mut params: Vec<EventParam> = Vec::new();
    let mut i: usize = 0;
    while i < e.params.len()
        invariant
            i <= e.params@.len(),
            params@.len() == i,
            forall|k: int| 0 <= k < i ==> param_view(#[trigger] params@[k]) == param_view(e.params@[k]),
        decreases e.params.len() - i,
    {
        let p = &e.params[i];
        params.push(
            EventParam {
                name: p.name.clone(),
                type_field: p.type_field.clone(),
                indexed: p.indexed,
            },
        );
        i = i + 1;
    }
    let r = EventInfo { name: e.name.clone(), params };
    assert(info_view(r).1 =~= info_view(*e).1);
    r
}

/// The decoded parameters of an event.
fn decode_event_params(params: &Vec<EventParam>, topics: &Vec<Word>, data: &Vec<u8>) -> (r: Vec<
    (String, String, String),
>)
    ensures
        r@.map_values(|t: (String, String, String)| triple_view(t)) == decode_params(
            params@,
            topics@,
            data@,
            params@.len() as int,
        ).0,
{
    let mut out: Vec<(String, String, String)> = Vec::new();
    let mut ti: usize = 1;
    let mut wi: usize = 0;
    let mut i: usize = 0;
    while i < params.len()
        invariant
            i <= params@.len(),
            decode_params(params@, topics@, data@, i as int).0 == out@.map_values(
                |t: (String, String, String)| triple_view(t),
            ),
            decode_params(params@, topics@, data@, i as int).1 == ti as int,
            decode_params(params@, topics@, data@, i as int).2 == wi as int,
            1 <= ti <= i + 1,
            wi <= i,
            32 * wi <= data@.len(),
        decreases params.len() - i,
    {
        let p = &params[i];
        let name = if p.name.unicode_len() == 0 {
            let mut n = lit_chars("arg");
            let ix = index_name_chars(i);
            push_chars(&mut n, &ix);
            string_of(&n)
        } else {
            p.name.clone()
        };
        let ty = str_chars(p.type_field.as_str());
        let text = if p.indexed {
            if ti < topics.len() {
                let t = typed_chars(topics[ti], &ty);
                ti = ti + 1;
                string_of(&t)
            } else {
                String::from_str("(missing)")
            }
        } else {
            if data.len() >= 32 && wi <= (data.len() - 32) / 32 {
                let start = 32 * wi;
                let word = crate::word::word_from_be_slice(
                    slice_subrange(data.as_slice(), start, start + 32),
                );
                let t = typed_chars(word, &ty);
                wi = wi + 1;
                string_of(&t)
            } else {
                String::from_str("(missing)")
            }
        };
        let ghost before = out@;
        out.push((name, p.type_field.clone(), text));
        proof {
            assert(out@.map_values(|t: (String, String, String)| triple_view(t)) =~= before.map_values(
                |t: (String, String, String)| triple_view(t),
            ).push(triple_view(out@.last())));
        }
        i = i + 1;
    }
    out
}

/// The events emitted up to and including the current step of the current
/// frame, in execution order.
pub fn collect_events(
    debug_arena: &Vec<TraceNode>,
    current_node: usize,
    current_step: usize,
    event_signatures: &Vec<(String, EventInfo)>,
    identified_contracts: &Vec<(Address, String)>,
) -> (r: Vec<CollectedEvent>)
    ensures
        r@.map_values(|ev: CollectedEvent| event_view(ev)) == events_upto(
            debug_arena@,
            current_node as int,
            current_step as int,
            event_signatures@,
            identified_contracts@,
            frames_run(debug_arena@, current_node as int),
        ),
{
    let ghost sigs = event_signatures@;
    let ghost ids = identified_contracts@;
    let ghost nodes = debug_arena@;
    let mut out: Vec<CollectedEvent> = Vec::new();
    let end = if current_node < debug_arena.len() {
        current_node + 1
    } else {
        debug_arena.len()
    };
    let mut ni: usize = 0;
    while ni < end
        invariant
            end == frames_run(nodes, current_node as int),
            nodes == debug_arena@,
            sigs == event_signatures@,
            ids == identified_contracts@,
            end <= nodes.len(),
            ni <= end,
            out@.map_values(|ev: CollectedEvent| event_view(ev)) == events_upto(
                nodes,
                current_node as int,
                current_step as int,
                sigs,
                ids,
                ni as int,
            ),
        decreases end - ni,
    {
        let node = &debug_arena[ni];
        let len = node.steps.len();
        let max_step = if ni < current_node {
            len
        } else if current_step < len {
            current_step + 1
        } else {
            len
        };
        let ghost base = out@.map_values(|ev: CollectedEvent| event_view(ev));
        let mut si: usize = 0;
        while si < max_step
            invariant
                nodes == debug_arena@,
                sigs == event_signatures@,
                ids == identified_contracts@,
                ni < nodes.len(),
                *node == nodes[ni as int],
                max_step == steps_run(nodes, current_node as int, current_step as int, ni as int),
                max_step <= node.steps@.len(),
                si <= max_step,
                out@.map_values(|ev: CollectedEvent| event_view(ev)) == base + node_events(
                    *node,
                    sigs,
                    ids,
                    si as int,
                ),
            decreases max_step - si,
        {
            let step = &node.steps[si];
            let ghost prev = out@;
            if let Some(ev) = event_of_step(node, step, event_signatures, identified_contracts) {
                out.push(ev);
                proof {
                    assert(out@.map_values(|ev: CollectedEvent| event_view(ev)) =~= prev.map_values(
                        |ev: CollectedEvent| event_view(ev),
                    ).push(event_view(out@.last())));
                }
            }
            si = si + 1;
        }
        ni = ni + 1;
    }
    out
}

/// The event that step `step` of frame `node` emits, if it is a `LOG` step.
fn event_of_step(
    node: &TraceNode,
    step: &TraceStep,
    event_signatures: &Vec<(String, EventInfo)>,
    identified_contracts: &Vec<(Address, String)>,
) -> (r: Option<CollectedEvent>)
    ensures
        match r {
            Some(ev) => is_log(*step) && event_view(ev) == event_at(
                *node,
                *step,
                event_signatures@,
                identified_contracts@,
            ),
            None => !is_log(*step),
        },
{
    let op = step.op;
    if op < 0xa0 || op > 0xa4 {
        return None;
    }
    let topic_count = (op - 0xa0) as usize;
    let stack = match &step.stack {
        Some(s) => s,
        None => {
            return None;
        },
    };
    if stack.len() < 2 + topic_count {
        return None;
    }
    let n = stack.len();
    let offset = stack[n - 1];
    let size = stack[n - 2];
    let mut topics: Vec<Word> = Vec::new();
    let mut i: usize = 0;
    while i < topic_count
        invariant
            n == stack@.len(),
            n >= 2 + topic_count,
            i <= topic_count,
            topics@.len() == i,
            forall|k: int| 0 <= k < i ==> topics@[k] == stack@[n - 3 - k],
        decreases topic_count - i,
    {
        topics.push(stack[n - 3 - i]);
        i = i + 1;
    }
    assert(topics@ =~= log_topics(*step));
    let data: Vec<u8> = match &step.memory {
        Some(memory) => match (word_to_usize(&offset), word_to_usize(&size)) {
            (Some(off), Some(sz)) => {
                let len = memory.len();
                if off < len {
                    let end = if sz < len - off {
                        off + sz
                    } else {
                        len
                    };
                    vstd::slice::slice_to_vec(slice_subrange(memory.as_slice(), off, end))
                } else {
                    Vec::new()
                }
            },
            _ => Vec::new(),
        },
        None => Vec::new(),
    };
    assert(data@ =~= log_data(*step));
    let name_chars = match contract_name_for(identified_contracts, node.address) {
        Some(x) => str_chars(x.as_str()),
        None => address_chars(node.address.value),
    };
    let mut event_info: Option<EventInfo> = None;
    let mut decoded: Vec<(String, String, String)> = Vec::new();
    if topic_count > 0 {
        let mut key = lit_chars("0x");
        let h = hex_word_chars(topics[0]);
        let p = pad_zeros_chars(&h, 64);
        push_chars(&mut key, &p);
        let key_string = string_of(&key);
        match find_key(event_signatures, &key_string) {
            Some(j) => {
                let info = &event_signatures[j].1;
                decoded = decode_event_params(&info.params, &topics, &data);
                event_info = Some(duplicate_info(info));
            },
            None => {},
        }
    }
    let ev = CollectedEvent {
        address: node.address,
        contract_name: string_of(&name_chars),
        event_info,
        topics,
        data,
        decoded_params: decoded,
    };
    proof {
        if log_info_index(*step, event_signatures@) is None {
            assert(ev.decoded_params@.map_values(|t: (String, String, String)| triple_view(t)) =~= seq![]);
        }
    }
    Some(ev)
}

/// How an event is shown. A decoded event reads
/// `Contract(0xaddr).Name(p1=v1, ...)`, an undecoded one
/// `Contract(0xaddr).LOGn(topics=[...], data=0x...)`; without the address
/// when `with_address` is false.
pub open spec fn event_text(
    e: (
        Address,
        Seq<char>,
        Option<(Seq<char>, Seq<(Seq<char>, Seq<char>, bool)>)>,
        Seq<Word>,
        Seq<u8>,
        Seq<(Seq<char>, Seq<char>, Seq<char>)>,
    ),
    with_address: bool,
) -> Seq<char> {
    let head = if with_address {
        e.1 + "("@ + address_text(val(e.0.value)) + ")"@
    } else {
        e.1
    };
    match e.2 {
        Some(info) => head + "."@ + info.0 + "("@ + join(
            Seq::new(e.5.len(), |i: int| e.5[i].0 + "="@ + e.5[i].2),
            ", "@,
        ) + ")"@,
        None => head + ".LOG"@ + dec_text(e.3.len()) + "(topics=["@ + join(
            Seq::new(e.3.len(), |i: int| topic_key(e.3[i])),
            ", "@,
        ) + "], data="@ + bytes0x(e.4) + ")"@,
    }
}

/// The text of a collected event.
pub fn event_chars(ev: &CollectedEvent, with_address: bool) -> (r: Vec<char>)
    ensures
        r@ == event_text(event_view(*ev), with_address),
{
    let mut out = str_chars(ev.contract_name.as_str());
    if with_address {
        push_lit(&mut out, "(");
        let a = address_chars(ev.address.value);
        push_chars(&mut out, &a);
        push_lit(&mut out, ")");
    }
    let ghost e = event_view(*ev);
    match &ev.event_info {
        Some(info) => {
            push_lit(&mut out, ".");
            push_string(&mut out, &info.name);
            push_lit(&mut out, "(");
            let mut parts: Vec<Vec<char>> = Vec::new();
            let mut i: usize = 0;
            while i < ev.decoded_params.len()
                invariant
                    e == event_view(*ev),
                    i <= ev.decoded_params@.len(),
                    parts@.len() == i,
                    forall|k: int|
                        0 <= k < i ==> (#[trigger] parts@[k])@ == e.5[k].0 + "="@ + e.5[k].2,
                decreases ev.decoded_params.len() - i,
            {
                let t = &ev.decoded_params[i];
                let mut item = str_chars(t.0.as_str());
                push_lit(&mut item, "=");
                push_string(&mut item, &t.2);
                parts.push(item);
                i = i + 1;
            }
            let j = join_strings(&parts, ", ");
            assert(Seq::new(parts@.len(), |k: int| parts@[k]@) =~= Seq::new(
                e.5.len(),
                |k: int| e.5[k].0 + "="@ + e.5[k].2,
            ));
            push_chars(&mut out, &j);
            push_lit(&mut out, ")");
        },
        None => {
            push_lit(&mut out, ".LOG");
            let d = dec_u64_chars(ev.topics.len() as u64);
            push_chars(&mut out, &d);
            push_lit(&mut out, "(topics=[");
            let mut parts: Vec<Vec<char>> = Vec::new();
            let mut i: usize = 0;
            while i < ev.topics.len()
                invariant
                    e == event_view(*ev),
                    i <= ev.topics@.len(),
                    parts@.len() == i,
                    forall|k: int| 0 <= k < i ==> (#[trigger] parts@[k])@ == topic_key(e.3[k]),
                decreases ev.topics.len() - i,
            {
                let mut item = lit_chars("0x");
                let h = hex_word_chars(ev.topics[i]);
                let p = pad_zeros_chars(&h, 64);
                push_chars(&mut item, &p);
                parts.push(item);
                i = i + 1;
            }
            let j = join_strings(&parts, ", ");
            assert(Seq::new(parts@.len(), |k: int| parts@[k]@) =~= Seq::new(
                e.3.len(),
                |k: int| topic_key(e.3[k]),
            ));
            push_chars(&mut out, &j);
            push_lit(&mut out, "], data=");
            let b = bytes0x_chars(ev.data.as_slice());
            push_chars(&mut out, &b);
            push_lit(&mut out, ")");
        },
    }
    out
}

/// The events emitted so far, as variables `event[i]`.
pub fn event_variables(
    debug_arena: &Vec<TraceNode>,
    current_node: usize,
    current_step: usize,
    event_signatures: &Vec<(String, EventInfo)>,
    identified_contracts: &Vec<(Address, String)>,
) -> (r: Vec<Variable>)
    ensures
        ({
            let evs = events_upto(
                debug_arena@,
                current_node as int,
                current_step as int,
                event_signatures@,
                identified_contracts@,
                frames_run(debug_arena@, current_node as int),
            );
            &&& r@.len() == evs.len()
            &&& forall|i: int|
                0 <= i < r@.len() ==> (#[trigger] r@[i])@ == leaf(
                    "event"@ + index_name(i as nat),
                    event_text(evs[i], true),
                    "event"@,
                )
        }),
{
    let events = collect_events(
        debug_arena,
        current_node,
        current_step,
        event_signatures,
        identified_contracts,
    );
    let ghost evs = events@.map_values(|ev: CollectedEvent| event_view(ev));
    let mut out: Vec<Variable> = Vec::new();
    let mut i: usize = 0;
    while i < events.len()
        invariant
            evs == events@.map_values(|ev: CollectedEvent| event_view(ev)),
            i <= events@.len(),
            out@.len() == i,
            forall|k: int|
                0 <= k < i ==> (#[trigger] out@[k])@ == leaf(
                    "event"@ + index_name(k as nat),
                    event_text(evs[k], true),
                    "event"@,
                ),
        decreases events.len() - i,
    {
        let mut name = lit_chars("event");
        let ix = index_name_chars(i);
        push_chars(&mut name, &ix);
        let value = event_chars(&events[i], true);
        out.push(leaf_var(&name, &value, "event"));
        i = i + 1;
    }
    out
}

// ===================== console.log =====================

/// The address of Foundry's `console.log` contract,
/// `0x000000000000000000636F6e736F6c652e6c6f67`, as a number.
pub open spec fn console_address() -> nat {
    0x636f6e736f6c652e6c6f67nat
}

/// The string that argument word `k` of `console.log` arguments points at,
/// with the index of its length word and the number of words it covers:
/// the word is an offset, a multiple of 32 inside the arguments, to a
/// length word of at most 10000 followed by that many bytes of UTF-8.
pub open spec fn console_string(args: Seq<u8>, k: int) -> Option<(Seq<char>, int, int)> {
    let off = be_value(chunk(args, k));
    let n = chunk_count(args.len()) as int;
    if off <= usize::MAX && off % 32 == 0 && off + 32 <= args.len() {
        let lw = (off / 32) as int;
        let len = be_value(chunk(args, lw));
        if lw < n && chunk(args, lw).len() == 32 && len <= 10000 {
            let ds = off + 32;
            let de = ds + len;
            if de <= args.len() && valid_utf8(args.subrange(ds as int, de as int)) {
                Some((decode_utf8(args.subrange(ds as int, de as int)), lw, 1 + chunk_count(len) as int))
            } else {
                None
            }
        } else {
            None
        }
    } else {
        None
    }
}

/// How argument word `k` is shown, and which words it consumes, given the
/// words consumed so far: a short trailing word in hex, a pointer to a
/// string as the string (consuming the string's words), a 0 or 1 as a
/// boolean, anything else in decimal.
#[verifier::opaque]
pub open spec fn console_word(args: Seq<u8>, c: Seq<bool>, parts: Seq<Seq<char>>, k: int) -> (
    Seq<bool>,
    Seq<Seq<char>>,
) {
    let w = chunk(args, k);
    if w.len() < 32 {
        (c.update(k, true), parts.push(bytes0x(w)))
    } else {
        match console_string(args, k) {
            Some(t) => (
                Seq::new(c.len(), |j: int| c[j] || j == k || (t.1 <= j < t.1 + t.2)),
                parts.push(t.0),
            ),
            None => if (forall|y: int| 0 <= y < 31 ==> w[y] == 0) && (w[31] == 0 || w[31] == 1) {
                (c.update(k, true), parts.push(if w[31] == 0 { "false"@ } else { "true"@ }))
            } else {
                (c.update(k, true), parts.push(dec_text(be_value(w))))
            },
        }
    }
}

/// The consumed words and the shown parts after argument words `0..i`.
pub open spec fn console_scan(args: Seq<u8>, i: int) -> (Seq<bool>, Seq<Seq<char>>)
    decreases i,
{
    if i <= 0 {
        (Seq::new(chunk_count(args.len()), |j: int| false), seq![])
    } else {
        let prev = console_scan(args, i - 1);
        if prev.0[i - 1] {
            prev
        } else {
            console_word(args, prev.0, prev.1, i - 1)
        }
    }
}

/// The text of a `console.log` call with call data `calldata`: its
/// arguments decoded heuristically and joined by spaces.
pub open spec fn console_text(calldata: Seq<u8>) -> Seq<char> {
    if calldata.len() < 4 || calldata.len() == 4 {
        "(empty)"@
    } else {
        let args = calldata.skip(4);
        let parts = console_scan(args, chunk_count(args.len()) as int).1;
        if parts.len() == 0 {
            "(empty)"@
        } else {
            join(parts, " "@)
        }
    }
}

proof fn lemma_console_word_len(args: Seq<u8>, c: Seq<bool>, parts: Seq<Seq<char>>, k: int)
    requires
        0 <= k < c.len(),
    ensures
        console_word(args, c, parts, k).0.len() == c.len(),
{
    reveal(console_word);
}

proof fn lemma_console_scan_len(args: Seq<u8>, i: int)
    requires
        0 <= i <= chunk_count(args.len()),
    ensures
        console_scan(args, i).0.len() == chunk_count(args.len()),
    decreases i,
{
    if i > 0 {
        lemma_console_scan_len(args, i - 1);
        let prev = console_scan(args, i - 1);
        if !prev.0[i - 1] {
            lemma_console_word_len(args, prev.0, prev.1, i - 1);
        }
    }
}

/// The string argument that word `k` points at, as `console_string` states.
fn console_string_at(args: &[u8], k: usize) -> (r: Option<(Vec<char>, usize, usize)>)
    requires
        k < chunk_count(args@.len()),
        chunk(args@, k as int).len() == 32,
    ensures
        match r {
            Some(t) => console_string(args@, k as int) == Some((t.0@, t.1 as int, t.2 as int))
                && t.1 < chunk_count(args@.len()) && t.2 <= 314,
            None => console_string(args@, k as int) is None,
        },
{
    let n = chunk_total(args.len());
    let w = chunk_slice(args, k);
    let v = crate::word::word_from_be_slice(w);
    let off = match word_to_usize(&v) {
        Some(x) => x,
        None => {
            return None;
        },
    };
    if off % 32 != 0 || args.len() < 32 || off > args.len() - 32 {
        return None;
    }
    let lw = off / 32;
    if lw >= n {
        return None;
    }
    let lwd = chunk_slice(args, lw);
    if lwd.len() != 32 {
        return None;
    }
    let lv = crate::word::word_from_be_slice(lwd);
    let len = match word_to_usize(&lv) {
        Some(x) => x,
        None => {
            return None;
        },
    };
    if len > 10000 {
        return None;
    }
    let ds = off + 32;
    if len > args.len() - ds {
        return None;
    }
    let de = ds + len;
    let bytes = slice_subrange(args, ds, de);
    match utf8_text(bytes) {
        Some(text) => {
            let total = 1 + chunk_total(len);
            Some((str_chars(text.as_str()), lw, total))
        },
        None => None,
    }
}

/// Decodes the arguments of a `console.log` call.
pub fn decode_console_log(calldata: &[u8]) -> (r: String)
    ensures
        r@ == console_text(calldata@),
{
    if calldata.len() <= 4 {
        return String::from_str("(empty)");
    }
    let args = slice_subrange(calldata, 4, calldata.len());
    assert(args@ =~= calldata@.skip(4));
    let alen = args.len();
    let n = chunk_total(alen);
    let mut consumed: Vec<bool> = Vec::new();
    let mut j: usize = 0;
    while j < n
        invariant
            j <= n,
            consumed@ == Seq::new(j as nat, |x: int| false),
        decreases n - j,
    {
        consumed.push(false);
        j = j + 1;
        assert(consumed@ =~= Seq::new(j as nat, |x: int| false));
    }
    let mut parts: Vec<Vec<char>> = Vec::new();
    let mut i: usize = 0;
    while i < n
        invariant
            n == chunk_count(args@.len()),
            alen == args@.len(),
            i <= n,
            consumed@ == console_scan(args@, i as int).0,
            Seq::new(parts@.len(), |x: int| parts@[x]@) == console_scan(args@, i as int).1,
        decreases n - i,
    {
        proof {
            lemma_console_scan_len(args@, i as int);
        }
        let ghost pc = consumed@;
        let ghost pp = Seq::new(parts@.len(), |x: int| parts@[x]@);
        if !consumed[i] {
            let w = chunk_slice(args, i);
            if w.len() < 32 {
                let t = bytes0x_chars(w);
                parts.push(t);
                consumed.set(i, true);
            } else {
                match console_string_at(args, i) {
                    Some(t) => {
                        let (text, lw, total) = t;
                        parts.push(text);
                        consumed.set(i, true);
                        let ghost c1 = consumed@;
                        assert(n <= usize::MAX / 32 + 1) by (nonlinear_arith)
                            requires
                                n == (args@.len() + 31) / 32,
                                args@.len() <= usize::MAX,
                        ;
                        let mut x: usize = lw;
                        while x < lw + total && x < n
                            invariant
                                consumed@.len() == n,
                                c1.len() == n,
                                lw < n,
                                total <= 314,
                                n <= usize::MAX / 32 + 1,
                                lw <= x <= lw + total,
                                forall|y: int|
                                    0 <= y < n ==> #[trigger] consumed@[y] == (c1[y] || (lw <= y
                                        < x)),
                            decreases n - x,
                        {
                            consumed.set(x, true);
                            x = x + 1;
                        }
                        assert(consumed@ =~= Seq::new(
                            pc.len(),
                            |y: int| pc[y] || y == i || (lw <= y < lw + total),
                        ));
                    },
                    None => {
                        let mut zero = true;
                        let mut b: usize = 0;
                        while b < 31
                            invariant
                                w@.len() == 32,
                                b <= 31,
                                zero == (forall|y: int| 0 <= y < b ==> w@[y] == 0),
                            decreases 31 - b,
                        {
                            if w[b] != 0 {
                                zero = false;
                            }
                            b = b + 1;
                        }
                        if zero && (w[31] == 0 || w[31] == 1) {
                            let t = if w[31] == 0 {
                                lit_chars("false")
                            } else {
                                lit_chars("true")
                            };
                            parts.push(t);
                        } else {
                            let v = crate::word::word_from_be_slice(w);
                            parts.push(dec_word_chars(v));
                        }
                        consumed.set(i, true);
                    },
                }
            }
            assert(Seq::new(parts@.len(), |x: int| parts@[x]@) =~= console_word(
                args@,
                pc,
                pp,
                i as int,
            ).1) by {
                reveal(console_word);
            }
            assert(consumed@ =~= console_word(args@, pc, pp, i as int).0) by {
                reveal(console_word);
            }
        }
        i = i + 1;
    }
    if parts.len() == 0 {
        return String::from_str("(empty)");
    }
    let j = join_strings(&parts, " ");
    string_of(&j)
}

/// The `console.log` call that step `st` makes, if any: a `STATICCALL`
/// to the console address, whose input, named by offset and size on the
/// stack, lies inside memory. Its text is the decoded input.
pub open spec fn step_console_log(st: TraceStep) -> Option<Seq<char>> {
    match st.stack {
        Some(s) => {
            let n = s@.len();
            if st.op == 0xfa && n >= 6 && val(s@[n - 2]) == console_address() {
                let off = val(s@[n - 3]);
                let size = val(s@[n - 4]);
                let end = if off + size <= usize::MAX {
                    off + size
                } else {
                    usize::MAX as nat
                };
                match st.memory {
                    Some(m) => if off <= usize::MAX && size <= usize::MAX && off <= m@.len()
                        && end <= m@.len() {
                        Some(console_text(m@.subrange(off as int, end as int)))
                    } else {
                        None
                    },
                    None => None,
                }
            } else {
                None
            }
        },
        None => None,
    }
}

/// The console output of steps `0..k` of a frame.
pub open spec fn step_logs(steps: Seq<TraceStep>, k: int) -> Seq<Seq<char>>
    decreases k,
{
    if k <= 0 {
        seq![]
    } else {
        step_logs(steps, k - 1) + match step_console_log(steps[k - 1]) {
            Some(t) => seq![t],
            None => seq![],
        }
    }
}

/// The console output of frames `0..m` by position (`cn`, `cs`): a frame
/// that runs at the console address is one call, shown from its call
/// data; in the others, the console calls among the steps run.
pub open spec fn logs_upto(nodes: Seq<TraceNode>, cn: int, cs: int, m: int) -> Seq<Seq<char>>
    decreases m,
{
    if m <= 0 {
        seq![]
    } else {
        logs_upto(nodes, cn, cs, m - 1) + if val(nodes[m - 1].address.value)
            == console_address() {
            seq![console_text(nodes[m - 1].calldata@)]
        } else {
            step_logs(nodes[m - 1].steps@, steps_run(nodes, cn, cs, m - 1))
        }
    }
}

fn console_word_value() -> (r: Word)
    ensures
        val(r) == console_address(),
{
    let r = Word { l0: 0x736f6c652e6c6f67, l1: 0x636f6e, l2: 0, l3: 0 };
    assert(val(r) == console_address());
    r
}

/// The console output of step `st`, if it calls `console.log`.
fn console_log_of_step(st: &TraceStep, console: &Word) -> (r: Option<String>)
    requires
        val(*console) == console_address(),
    ensures
        match r {
            Some(t) => step_console_log(*st) == Some(t@),
            None => step_console_log(*st) is None,
        },
{
    if st.op != 0xfa {
        return None;
    }
    let stack = match &st.stack {
        Some(s) => s,
        None => {
            return None;
        },
    };
    let n = stack.len();
    if n < 6 {
        return None;
    }
    proof {
        crate::word::lemma_val_injective(stack@[n - 2], *console);
    }
    if stack[n - 2] != *console {
        return None;
    }
    let memory = match &st.memory {
        Some(m) => m,
        None => {
            return None;
        },
    };
    let (off, sz) = match (word_to_usize(&stack[n - 3]), word_to_usize(&stack[n - 4])) {
        (Some(a), Some(b)) => (a, b),
        _ => {
            return None;
        },
    };
    let end = if sz <= usize::MAX - off {
        off + sz
    } else {
        usize::MAX
    };
    let len = memory.len();
    if off > len || end > len {
        return None;
    }
    let text = decode_console_log(slice_subrange(memory.as_slice(), off, end));
    Some(text)
}

/// The `console.log` output up to and including the current step of the
/// current frame, in execution order.
pub fn collect_console_logs(debug_arena: &Vec<TraceNode>, current_node: usize, current_step: usize) -> (r:
    Vec<String>)
    ensures
        r@.map_values(|t: String| t@) == logs_upto(
            debug_arena@,
            current_node as int,
            current_step as int,
            frames_run(debug_arena@, current_node as int),
        ),
{
    let console = console_word_value();
    let ghost nodes = debug_arena@;
    let mut out: Vec<String> = Vec::new();
    let end = if current_node < debug_arena.len() {
        current_node + 1
    } else {
        debug_arena.len()
    };
    let mut ni: usize = 0;
    while ni < end
        invariant
            nodes == debug_arena@,
            val(console) == console_address(),
            end == frames_run(nodes, current_node as int),
            end <= nodes.len(),
            ni <= end,
            out@.map_values(|t: String| t@) == logs_upto(
                nodes,
                current_node as int,
                current_step as int,
                ni as int,
            ),
        decreases end - ni,
    {
        let node = &debug_arena[ni];
        let ghost prev = out@;
        proof {
            crate::word::lemma_val_injective(node.address.value, console);
        }
        if node.address.value == console {
            out.push(decode_console_log(node.calldata.as_slice()));
            assert(out@.map_values(|t: String| t@) =~= prev.map_values(|t: String| t@).push(
                out@.last()@,
            ));
        } else {
            let len = node.steps.len();
            let max_step = if ni < current_node {
                len
            } else if current_step < len {
                current_step + 1
            } else {
                len
            };
            let ghost base = out@.map_values(|t: String| t@);
            let mut si: usize = 0;
            while si < max_step
                invariant
                    nodes == debug_arena@,
                    val(console) == console_address(),
                    ni < nodes.len(),
                    *node == nodes[ni as int],
                    max_step <= node.steps@.len(),
                    si <= max_step,
                    out@.map_values(|t: String| t@) == base + step_logs(node.steps@, si as int),
                decreases max_step - si,
            {
                let ghost p2 = out@;
                match console_log_of_step(&node.steps[si], &console) {
                    Some(t) => {
                        out.push(t);
                        assert(out@.map_values(|t: String| t@) =~= p2.map_values(|t: String| t@).push(
                            out@.last()@,
                        ));
                    },
                    None => {},
                }
                si = si + 1;
            }
        }
        ni = ni + 1;
    }
    out
}

/// The `console.log` output so far, as variables `log[i]`.
pub fn console_log_variables(debug_arena: &Vec<TraceNode>, current_node: usize, current_step: usize) -> (r:
    Vec<Variable>)
    ensures
        ({
            let logs = logs_upto(
                debug_arena@,
                current_node as int,
                current_step as int,
                frames_run(debug_arena@, current_node as int),
            );
            &&& r@.len() == logs.len()
            &&& forall|i: int|
                0 <= i < r@.len() ==> (#[trigger] r@[i])@ == leaf(
                    "log"@ + index_name(i as nat),
                    logs[i],
                    "string"@,
                )
        }),
{
    let logs = collect_console_logs(debug_arena, current_node, current_step);
    let ghost lv = logs@.map_values(|t: String| t@);
    let mut out: Vec<Variable> = Vec::new();
    let mut i: usize = 0;
    while i < logs.len()
        invariant
            lv == logs@.map_values(|t: String| t@),
            i <= logs@.len(),
            out@.len() == i,
            forall|k: int|
                0 <= k < i ==> (#[trigger] out@[k])@ == leaf(
                    "log"@ + index_name(k as nat),
                    lv[k],
                    "string"@,
                ),
        decreases logs.len() - i,
    {
        let mut name = lit_chars("log");
        let ix = index_name_chars(i);
        push_chars(&mut name, &ix);
        let value = str_chars(logs[i].as_str());
        out.push(leaf_var(&name, &value, "string"));
        i = i + 1;
    }
    out
}

// ===================== Call data and context =====================

pub open spec fn vars_view(v: Seq<Variable>) -> Seq<(Seq<char>, Seq<char>, Option<Seq<char>>, i64)> {
    v.map_values(|x: Variable| x@)
}

/// The argument bytes of call data: all after the 4-byte selector.
pub open spec fn call_args(data: Seq<u8>) -> Seq<u8> {
    if data.len() >= 4 {
        data.skip(4)
    } else {
        seq![]
    }
}

/// Argument word `i` shown raw.
pub open spec fn raw_arg_var(args: Seq<u8>, i: int) -> (
    Seq<char>,
    Seq<char>,
    Option<Seq<char>>,
    i64,
) {
    leaf("arg"@ + index_name(i as nat), bytes0x(chunk(args, i)), "bytes32"@)
}

/// Parameter `i` decoded from argument word `i` by its ABI name and type.
pub open spec fn param_var(args: Seq<u8>, params: Seq<(Seq<char>, Seq<char>)>, i: int) -> (
    Seq<char>,
    Seq<char>,
    Option<Seq<char>>,
    i64,
) {
    leaf(
        params[i].0,
        if i < chunk_count(args.len()) {
            typed_text(be_value(chunk(args, i)), params[i].1)
        } else {
            "(missing)"@
        },
        params[i].1,
    )
}

/// The call data of a frame as variables: the selector with the function
/// signature when it is known, then the parameters decoded with their ABI
/// names and types when they are known, and any other argument words raw.
pub open spec fn calldata_vars(
    data: Seq<u8>,
    params: Option<Seq<(Seq<char>, Seq<char>)>>,
    sig: Option<Seq<char>>,
) -> Seq<(Seq<char>, Seq<char>, Option<Seq<char>>, i64)> {
    if data.len() == 0 {
        seq![]
    } else {
        let args = call_args(data);
        let n = chunk_count(args.len()) as int;
        let head = if data.len() >= 4 {
            let sel = bytes0x(data.subrange(0, 4));
            seq![
                leaf(
                    "function"@,
                    match sig {
                        Some(s) => sel + " ("@ + s + ")"@,
                        None => sel,
                    },
                    "bytes4"@,
                ),
            ]
        } else {
            seq![]
        };
        head + match params {
            Some(ps) => Seq::new(ps.len(), |i: int| param_var(args, ps, i)) + Seq::new(
                if n > ps.len() {
                    (n - ps.len()) as nat
                } else {
                    0
                },
                |j: int| raw_arg_var(args, j + ps.len()),
            ),
            None => Seq::new(n as nat, |i: int| raw_arg_var(args, i)),
        }
    }
}

pub open spec fn params_view(ps: Seq<(String, String)>) -> Seq<(Seq<char>, Seq<char>)> {
    ps.map_values(|p: (String, String)| (p.0@, p.1@))
}

/// The call data of `node` as variables.
pub fn calldata_variables(
    node: &TraceNode,
    function_params: Option<&Vec<(String, String)>>,
    fn_signature: Option<&String>,
) -> (r: Vec<Variable>)
    ensures
        vars_view(r@) == calldata_vars(
            node.calldata@,
            match function_params {
                Some(ps) => Some(params_view(ps@)),
                None => None,
            },
            match fn_signature {
                Some(s) => Some(s@),
                None => None,
            },
        ),
{
    let data = node.calldata.as_slice();
    let mut out: Vec<Variable> = Vec::new();
    if data.len() == 0 {
        assert(vars_view(out@) =~= seq![]);
        return out;
    }
    let ghost pv = match function_params {
        Some(ps) => Some(params_view(ps@)),
        None => None,
    };
    let ghost sv = match fn_signature {
        Some(s) => Some(s@),
        None => None,
    };
    if data.len() >= 4 {
        let sel = bytes0x_chars(slice_subrange(data, 0, 4));
        let label = match fn_signature {
            Some(sig) => {
                let mut l = sel;
                push_lit(&mut l, " (");
                push_string(&mut l, sig);
                push_lit(&mut l, ")");
                l
            },
            None => sel,
        };
        let name = lit_chars("function");
        out.push(leaf_var(&name, &label, "bytes4"));
    }
    let args: &[u8] = if data.len() >= 4 {
        slice_subrange(data, 4, data.len())
    } else {
        slice_subrange(data, 0, 0)
    };
    assert(args@ =~= call_args(data@));
    let n = chunk_total(args.len());
    let ghost head = vars_view(out@);
    let mut i: usize = 0;
    match function_params {
        Some(params) => {
            let ghost ps = params_view(params@);
            while i < params.len()
                invariant
                    ps == params_view(params@),
                    args@ == call_args(data@),
                    n == chunk_count(args@.len()),
                    i <= params@.len(),
                    vars_view(out@) == head + Seq::new(i as nat, |k: int| param_var(args@, ps, k)),
                decreases params.len() - i,
            {
                let p = &params[i];
                let name = str_chars(p.0.as_str());
                let ty = str_chars(p.1.as_str());
                let value = if i < n {
                    let w = crate::word::word_from_be_slice(chunk_slice(args, i));
                    typed_chars(w, &ty)
                } else {
                    lit_chars("(missing)")
                };
                let ghost before = out@;
                out.push(
                    Variable {
                        name: string_of(&name),
                        value: string_of(&value),
                        type_field: Some(p.1.clone()),
                        variables_reference: 0,
                    },
                );
                assert(vars_view(out@) =~= vars_view(before).push(out@.last()@));
                i = i + 1;
                assert(vars_view(out@) =~= head + Seq::new(i as nat, |k: int| param_var(args@, ps, k)));
            }
            let ghost mid = vars_view(out@);
            let mut j: usize = params.len();
            while j < n
                invariant
                    ps == params_view(params@),
                    args@ == call_args(data@),
                    n == chunk_count(args@.len()),
                    params@.len() <= j <= n || (j == params@.len() && n < j),
                    vars_view(out@) == mid + Seq::new(
                        if j > params@.len() {
                            (j - params@.len()) as nat
                        } else {
                            0
                        },
                        |k: int| raw_arg_var(args@, k + ps.len()),
                    ),
                decreases n - j,
            {
                let name0 = lit_chars("arg");
                let mut name = name0;
                let ix = index_name_chars(j);
                push_chars(&mut name, &ix);
                let value = bytes0x_chars(chunk_slice(args, j));
                let ghost before = out@;
                out.push(leaf_var(&name, &value, "bytes32"));
                assert(vars_view(out@) =~= vars_view(before).push(out@.last()@));
                j = j + 1;
                assert(vars_view(out@) =~= mid + Seq::new(
                    (j - params@.len()) as nat,
                    |k: int| raw_arg_var(args@, k + ps.len()),
                ));
            }
        },
        None => {
            while i < n
                invariant
                    args@ == call_args(data@),
                    n == chunk_count(args@.len()),
                    i <= n,
                    vars_view(out@) == head + Seq::new(i as nat, |k: int| raw_arg_var(args@, k)),
                decreases n - i,
            {
                let mut name = lit_chars("arg");
                let ix = index_name_chars(i);
                push_chars(&mut name, &ix);
                let value = bytes0x_chars(chunk_slice(args, i));
                let ghost before = out@;
                out.push(leaf_var(&name, &value, "bytes32"));
                assert(vars_view(out@) =~= vars_view(before).push(out@.last()@));
                i = i + 1;
                assert(vars_view(out@) =~= head + Seq::new(i as nat, |k: int| raw_arg_var(args@, k)));
            }
        },
    }
    out
}

/// Index of the first frame from `i` on that runs at address `a`.
pub open spec fn first_frame_at(nodes: Seq<TraceNode>, a: Address, i: int) -> Option<int>
    decreases nodes.len() - i,
{
    if i < 0 || i >= nodes.len() {
        None
    } else if nodes[i].address == a {
        Some(i)
    } else {
        first_frame_at(nodes, a, i + 1)
    }
}

/// The frame that called the contract at `a` first: the one before the
/// first frame that runs at `a`.
pub open spec fn sender_of(nodes: Seq<TraceNode>, a: Address) -> Option<Address> {
    match first_frame_at(nodes, a, 0) {
        Some(k) => if k > 0 {
            Some(nodes[k - 1].address)
        } else {
            None
        },
        None => None,
    }
}

/// The first frame that runs at `a`.
pub fn first_frame_index(nodes: &Vec<TraceNode>, a: &Address) -> (r: Option<usize>)
    ensures
        match r {
            Some(k) => first_frame_at(nodes@, *a, 0) == Some(k as int) && k < nodes@.len(),
            None => first_frame_at(nodes@, *a, 0) is None,
        },
{
    let mut i: usize = 0;
    while i < nodes.len()
        invariant
            i <= nodes@.len(),
            first_frame_at(nodes@, *a, i as int) == first_frame_at(nodes@, *a, 0),
        decreases nodes.len() - i,
    {
        if nodes[i].address == *a {
            return Some(i);
        }
        i = i + 1;
    }
    None
}

/// The execution context of a frame as variables: the program counter and
/// opcode of the step, the executing address, and the sender.
pub open spec fn context_vars(node: TraceNode, nodes: Seq<TraceNode>, step: Option<TraceStep>) -> Seq<
    (Seq<char>, Seq<char>, Option<Seq<char>>, i64),
> {
    let head = match step {
        Some(st) => seq![
            leaf("pc"@, dec_text(st.pc as nat), "uint"@),
            leaf("opcode"@, opcode_text(st.op), "string"@),
        ],
        None => seq![],
    };
    let this = seq![leaf("this"@, address_text(val(node.address.value)), "address"@)];
    let sender = match sender_of(nodes, node.address) {
        Some(a) => seq![leaf("msg.sender"@, address_text(val(a.value)), "address"@)],
        None => seq![],
    };
    head + this + sender
}

/// The execution context of `node`, a frame of `debug_arena`, at `step`.
pub fn context_variables(
    node: &TraceNode,
    node_index: usize,
    debug_arena: &Vec<TraceNode>,
    step: Option<&TraceStep>,
) -> (r: Vec<Variable>)
    ensures
        vars_view(r@) == context_vars(
            *node,
            debug_arena@,
            match step {
                Some(st) => Some(*st),
                None => None,
            },
        ),
{
    let mut out: Vec<Variable> = Vec::new();
    match step {
        Some(st) => {
            let n1 = lit_chars("pc");
            let v1 = dec_u64_chars(st.pc);
            out.push(leaf_var(&n1, &v1, "uint"));
            let n2 = lit_chars("opcode");
            let op = opcode_name(st.op);
            let v2 = str_chars(op.as_str());
            out.push(leaf_var(&n2, &v2, "string"));
        },
        None => {},
    }
    let n3 = lit_chars("this");
    let v3 = address_chars(node.address.value);
    out.push(leaf_var(&n3, &v3, "address"));
    match first_frame_index(debug_arena, &node.address) {
        Some(first) => {
            if first > 0 {
                let n4 = lit_chars("msg.sender");
                let v4 = address_chars(debug_arena[first - 1].address.value);
                out.push(leaf_var(&n4, &v4, "address"));
            }
        },
        None => {},
    }
    assert(vars_view(out@) =~= context_vars(
        *node,
        debug_arena@,
        match step {
            Some(st) => Some(*st),
            None => None,
        },
    ));
    out
}

// ===================== Laws =====================

/// Storage reads give back writes: after a write of `v` to `slot`, the slot
/// holds `v`, whatever was written before.
pub proof fn law_storage_read_after_write(writes: Seq<(Word, Word)>, slot: Word, v: Word)
    ensures
        stored(writes.push((slot, v)), val(slot)) == val(v),
{
    assert(writes.push((slot, v)).last() == (slot, v));
}

/// A write to one slot leaves every other slot as it was.
pub proof fn law_storage_other_slot_unchanged(writes: Seq<(Word, Word)>, slot: Word, v: Word, other: nat)
    requires
        val(slot) != other,
    ensures
        stored(writes.push((slot, v)), other) == stored(writes, other),
{
    assert(writes.push((slot, v)).drop_last() =~= writes);
}

proof fn lemma_be_bytes_of_value(b: Seq<u8>)
    ensures
        be_bytes(be_value(b), b.len()) == b,
    decreases b.len(),
{
    if b.len() > 0 {
        let n = be_value(b);
        let p = be_value(b.drop_last());
        assert(n == p * 256 + b.last() as nat);
        assert(n % 256 == b.last() as nat && n / 256 == p) by {
            vstd::arithmetic::div_mod::lemma_fundamental_div_mod_converse(
                n as int,
                256,
                p as int,
                b.last() as int,
            );
        }
        lemma_be_bytes_of_value(b.drop_last());
        assert(be_bytes(n, b.len()) =~= b);
    }
}

/// Solidity's short-string encoding is read back: a slot that holds the
/// bytes of a string of 1 to 31 bytes, zero-padded, with twice its length in
/// the last byte, is shown as that string in quotes (when it is UTF-8).
pub proof fn law_short_string_round_trip(b: Seq<u8>, len: nat)
    requires
        b.len() == 32,
        0 < len <= 31,
        b[31] == 2 * len,
        valid_utf8(b.subrange(0, len as int)),
    ensures
        short_string_text(be_value(b)) == "\""@ + decode_utf8(b.subrange(0, len as int)) + "\""@,
{
    lemma_be_bytes_of_value(b);
    let n = be_value(b);
    assert(n % 256 == b[31] as nat) by {
        let p = be_value(b.drop_last());
        assert(n == p * 256 + b.last() as nat);
        vstd::arithmetic::div_mod::lemma_fundamental_div_mod_converse(
            n as int,
            256,
            p as int,
            b.last() as int,
        );
    }
}

proof fn lemma_node_events_prefix(
    node: TraceNode,
    sigs: Seq<(String, EventInfo)>,
    ids: Seq<(Address, String)>,
    k1: int,
    k2: int,
)
    requires
        0 <= k1 <= k2,
    ensures
        node_events(node, sigs, ids, k1).len() <= node_events(node, sigs, ids, k2).len(),
        node_events(node, sigs, ids, k2).subrange(0, node_events(node, sigs, ids, k1).len() as int)
            == node_events(node, sigs, ids, k1),
    decreases k2 - k1,
{
    if k1 < k2 {
        lemma_node_events_prefix(node, sigs, ids, k1, k2 - 1);
        let a = node_events(node, sigs, ids, k1);
        let b = node_events(node, sigs, ids, k2 - 1);
        let c = node_events(node, sigs, ids, k2);
        assert(c.subrange(0, b.len() as int) =~= b);
        assert(c.subrange(0, a.len() as int) =~= b.subrange(0, a.len() as int));
    } else {
        assert(node_events(node, sigs, ids, k2).subrange(0, node_events(node, sigs, ids, k1).len() as int)
            =~= node_events(node, sigs, ids, k1));
    }
}

proof fn lemma_events_upto_same(
    nodes: Seq<TraceNode>,
    cn1: int,
    cs1: int,
    cn2: int,
    cs2: int,
    sigs: Seq<(String, EventInfo)>,
    ids: Seq<(Address, String)>,
    m: int,
)
    requires
        forall|ni: int| 0 <= ni < m ==> steps_run(nodes, cn1, cs1, ni) == steps_run(nodes, cn2, cs2, ni),
    ensures
        events_upto(nodes, cn1, cs1, sigs, ids, m) == events_upto(nodes, cn2, cs2, sigs, ids, m),
    decreases m,
{
    if m > 0 {
        lemma_events_upto_same(nodes, cn1, cs1, cn2, cs2, sigs, ids, m - 1);
    }
}

/// Events once emitted stay emitted: stepping forward one instruction only
/// adds events after those already emitted.
pub proof fn law_events_persist(
    nodes: Seq<TraceNode>,
    sigs: Seq<(String, EventInfo)>,
    ids: Seq<(Address, String)>,
    n: int,
    s: int,
)
    requires
        crate::session::valid_pos(nodes, n, s),
    ensures
        ({
            let p = crate::session::forward(nodes, n, s);
            let a = events_upto(nodes, n, s, sigs, ids, frames_run(nodes, n));
            let b = events_upto(nodes, p.0, p.1, sigs, ids, frames_run(nodes, p.0));
            a.len() <= b.len() && b.subrange(0, a.len() as int) == a
        }),
{
    let p = crate::session::forward(nodes, n, s);
    let a = events_upto(nodes, n, s, sigs, ids, frames_run(nodes, n));
    let b = events_upto(nodes, p.0, p.1, sigs, ids, frames_run(nodes, p.0));
    let len = nodes[n].steps@.len() as int;
    if p == (n, s) {
        assert(b.subrange(0, a.len() as int) =~= a);
    } else if p == (n, s + 1) {
        // The current frame runs one more step.
        lemma_events_upto_same(nodes, n, s, n, s + 1, sigs, ids, n);
        lemma_node_events_prefix(nodes[n], sigs, ids, steps_run(nodes, n, s, n), steps_run(nodes, n, s + 1, n));
        let pre = events_upto(nodes, n, s, sigs, ids, n);
        assert(a == pre + node_events(nodes[n], sigs, ids, steps_run(nodes, n, s, n)));
        assert(b == pre + node_events(nodes[n], sigs, ids, steps_run(nodes, n, s + 1, n)));
        assert(b.subrange(0, a.len() as int) =~= a);
    } else {
        // The next frame starts: the current one has run all its steps.
        assert(p == (n + 1, 0int));
        assert(steps_run(nodes, n, s, n) == len);
        assert forall|ni: int| 0 <= ni < n + 1 implies steps_run(nodes, n, s, ni) == steps_run(
            nodes,
            n + 1,
            0,
            ni,
        ) by {}
        lemma_events_upto_same(nodes, n, s, n + 1, 0, sigs, ids, n + 1);
        assert(a == events_upto(nodes, n + 1, 0, sigs, ids, n + 1));
        assert(b == a + node_events(nodes[n + 1], sigs, ids, steps_run(nodes, n + 1, 0, n + 1)));
        assert(b.subrange(0, a.len() as int) =~= a);
    }
}

proof fn lemma_step_logs_prefix(steps: Seq<TraceStep>, k1: int, k2: int)
    requires
        0 <= k1 <= k2,
    ensures
        step_logs(steps, k1).len() <= step_logs(steps, k2).len(),
        step_logs(steps, k2).subrange(0, step_logs(steps, k1).len() as int) == step_logs(steps, k1),
    decreases k2 - k1,
{
    if k1 < k2 {
        lemma_step_logs_prefix(steps, k1, k2 - 1);
        let a = step_logs(steps, k1);
        let b = step_logs(steps, k2 - 1);
        let c = step_logs(steps, k2);
        assert(c.subrange(0, b.len() as int) =~= b);
        assert(c.subrange(0, a.len() as int) =~= b.subrange(0, a.len() as int));
    } else {
        assert(step_logs(steps, k2).subrange(0, step_logs(steps, k1).len() as int) =~= step_logs(
            steps,
            k1,
        ));
    }
}

proof fn lemma_logs_upto_same(nodes: Seq<TraceNode>, cn1: int, cs1: int, cn2: int, cs2: int, m: int)
    requires
        forall|ni: int| 0 <= ni < m ==> steps_run(nodes, cn1, cs1, ni) == steps_run(nodes, cn2, cs2, ni),
    ensures
        logs_upto(nodes, cn1, cs1, m) == logs_upto(nodes, cn2, cs2, m),
    decreases m,
{
    if m > 0 {
        lemma_logs_upto_same(nodes, cn1, cs1, cn2, cs2, m - 1);
    }
}

/// `console.log` output once shown stays shown: stepping forward one
/// instruction only adds messages after those already logged.
pub proof fn law_console_logs_persist(nodes: Seq<TraceNode>, n: int, s: int)
    requires
        crate::session::valid_pos(nodes, n, s),
    ensures
        ({
            let p = crate::session::forward(nodes, n, s);
            let a = logs_upto(nodes, n, s, frames_run(nodes, n));
            let b = logs_upto(nodes, p.0, p.1, frames_run(nodes, p.0));
            a.len() <= b.len() && b.subrange(0, a.len() as int) == a
        }),
{
    let p = crate::session::forward(nodes, n, s);
    let a = logs_upto(nodes, n, s, frames_run(nodes, n));
    let b = logs_upto(nodes, p.0, p.1, frames_run(nodes, p.0));
    let len = nodes[n].steps@.len() as int;
    if p == (n, s) {
        assert(b.subrange(0, a.len() as int) =~= a);
    } else if p == (n, s + 1) {
        lemma_logs_upto_same(nodes, n, s, n, s + 1, n);
        lemma_step_logs_prefix(nodes[n].steps@, steps_run(nodes, n, s, n), steps_run(nodes, n, s + 1, n));
        let pre = logs_upto(nodes, n, s, n);
        if val(nodes[n].address.value) == console_address() {
            assert(b.subrange(0, a.len() as int) =~= a);
        } else {
            assert(a == pre + step_logs(nodes[n].steps@, steps_run(nodes, n, s, n)));
            assert(b == pre + step_logs(nodes[n].steps@, steps_run(nodes, n, s + 1, n)));
            assert(b.subrange(0, a.len() as int) =~= a);
        }
    } else {
        assert(p == (n + 1, 0int));
        assert(steps_run(nodes, n, s, n) == len);
        assert forall|ni: int| 0 <= ni < n + 1 implies steps_run(nodes, n, s, ni) == steps_run(
            nodes,
            n + 1,
            0,
            ni,
        ) by {}
        lemma_logs_upto_same(nodes, n, s, n + 1, 0, n + 1);
        assert(a == logs_upto(nodes, n + 1, 0, n + 1));
        assert(b.subrange(0, a.len() as int) =~= a);
    }
}

} // verus!
