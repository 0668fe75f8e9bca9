//! Expression parser for the debug console.
//!
//! Parses expressions like:
//!   - `0xff`                        → HexLiteral
//!   - `42`                          → DecLiteral
//!   - `pc`, `gas`, `this`           → Keyword
//!   - `stack[1]`                    → StackIndex
//!   - `memory[32]`, `memory[0:64]`  → MemoryAccess
//!   - `number`                      → Ident (storage variable or other name)
//!   - `deposits[msg.sender]`        → MappingLookup
//!   - `deposits[msg.sender] + 10`   → BinaryOp
//!   - `stack[1] << 8`               → BinaryOp
//!
//! The grammar is stated by the spec functions of this module, over the
//! characters of the input; `parse` is proved to compute exactly that.

use vstd::prelude::*;
use crate::text::{
    all_digits, all_hex_digits, chars_to_string, concat, eq_lit, find, find_char, is_alnum,
    is_alpha, is_ascii_alphabetic, is_ascii_alphanumeric, is_ascii_digit, is_ascii_hexdigit,
    lemma_find, lemma_trim_len, lit_then, parse_u64, parse_u64_spec, slice_chars, starts_with,
    starts_with_lit, str_chars, trim, trimmed, is_ws, trim_start, trim_end,
};

verus! {

/// Binary operators.
#[derive(Debug, Clone, Copy, PartialEq, Eq)]
pub enum BinOp {
    Add,
    Sub,
    Mul,
    Div,
    Mod,
    BitAnd,
    BitOr,
    BitXor,
    Shl,
    Shr,
}

/// AST node for a debug console expression.
#[derive(Debug, PartialEq, Eq)]
pub enum Expr {
    /// Hex literal: `0xff`, `0xdeadbeef`
    HexLiteral(String),
    /// Decimal literal: `42`, `1000`
    DecLiteral(String),
    /// Keyword: `pc`, `op`, `gas`, `gas_cost`, `depth`, `step`,
    /// `address`, `this`, `msg.sender`, `caller`,
    /// `memory`, `memory.length`, `calldata`, `msg.data`, `returndata`,
    /// `stack`, `log`, `help`, `?`
    Keyword(String),
    /// Identifier (storage variable name, etc.): `number`, `fee`
    Ident(String),
    /// Stack index: `stack[0]`, `stack[12]`
    StackIndex(u64),
    /// Console log entry: `log[0]`
    LogAccess(u64),
    /// Emitted event, or one of its parameters: `event[0]`, `event[0][1]`
    EventAccess { index: u64, field_index: Option<u64> },
    /// Named parameter of an emitted event: `event[0].user`
    EventField { index: u64, field: String },
    /// Memory access: `memory[offset]` or `memory[offset:length]`
    MemoryAccess { offset: u64, length: Option<u64> },
    /// Mapping/array lookup: `deposits[msg.sender]`, `_allowances[from][spender]`
    MappingLookup { name: String, keys: Vec<Expr> },
    /// Binary operation: `lhs op rhs`
    BinaryOp { lhs: Box<Expr>, op: BinOp, rhs: Box<Expr> },
}

/// The mathematical form of an `Expr`: strings become character sequences.
pub enum SpecExpr {
    HexLiteral(Seq<char>),
    DecLiteral(Seq<char>),
    Keyword(Seq<char>),
    Ident(Seq<char>),
    StackIndex(u64),
    LogAccess(u64),
    EventAccess { index: u64, field_index: Option<u64> },
    EventField { index: u64, field: Seq<char> },
    MemoryAccess { offset: u64, length: Option<u64> },
    MappingLookup { name: Seq<char>, keys: Seq<SpecExpr> },
    BinaryOp { lhs: Box<SpecExpr>, op: BinOp, rhs: Box<SpecExpr> },
}

pub open spec fn expr_view(e: Expr) -> SpecExpr
    decreases e,
{
    match e {
        Expr::HexLiteral(s) => SpecExpr::HexLiteral(s@),
        Expr::DecLiteral(s) => SpecExpr::DecLiteral(s@),
        Expr::Keyword(s) => SpecExpr::Keyword(s@),
        Expr::Ident(s) => SpecExpr::Ident(s@),
        Expr::StackIndex(i) => SpecExpr::StackIndex(i),
        Expr::LogAccess(i) => SpecExpr::LogAccess(i),
        Expr::EventAccess { index, field_index } => SpecExpr::EventAccess { index, field_index },
        Expr::EventField { index, field } => SpecExpr::EventField { index, field: field@ },
        Expr::MemoryAccess { offset, length } => SpecExpr::MemoryAccess { offset, length },
        Expr::MappingLookup { name, keys } => SpecExpr::MappingLookup {
            name: name@,
            keys: Seq::new(
                keys@.len(),
                |i: int|
                    if 0 <= i < keys@.len() {
                        expr_view(keys@[i])
                    } else {
                        SpecExpr::StackIndex(0)
                    },
            ),
        },
        Expr::BinaryOp { lhs, op, rhs } => SpecExpr::BinaryOp {
            lhs: Box::new(expr_view(*lhs)),
            op,
            rhs: Box::new(expr_view(*rhs)),
        },
    }
}

impl View for Expr {
    type V = SpecExpr;

    open spec fn view(&self) -> SpecExpr {
        expr_view(*self)
    }
}

pub open spec fn views(v: Seq<Expr>) -> Seq<SpecExpr> {
    Seq::new(v.len(), |i: int| expr_view(v[i]))
}

/// The outcome of a parse, with strings taken as character sequences.
pub open spec fn result_view(r: Result<Expr, String>) -> Result<SpecExpr, Seq<char>> {
    match r {
        Ok(e) => Ok(e@),
        Err(m) => Err(m@),
    }
}

pub open spec fn keys_result_view(r: Result<Vec<Expr>, String>) -> Result<Seq<SpecExpr>, Seq<char>> {
    match r {
        Ok(v) => Ok(views(v@)),
        Err(m) => Err(m@),
    }
}

// ===================== The grammar =====================

/// Known keywords that map to specific evaluation logic.
pub open spec fn is_keyword(s: Seq<char>) -> bool {
    ||| s == "pc"@
    ||| s == "op"@
    ||| s == "opcode"@
    ||| s == "gas"@
    ||| s == "gas_cost"@
    ||| s == "depth"@
    ||| s == "node"@
    ||| s == "step"@
    ||| s == "address"@
    ||| s == "this"@
    ||| s == "msg.sender"@
    ||| s == "caller"@
    ||| s == "memory"@
    ||| s == "memory.length"@
    ||| s == "calldata"@
    ||| s == "msg.data"@
    ||| s == "returndata"@
    ||| s == "stack"@
    ||| s == "log"@
    ||| s == "help"@
    ||| s == "?"@
}

/// One segment of a Solidity-style identifier: a letter or `_`, then letters,
/// digits and `_`.
pub open spec fn valid_ident_part(s: Seq<char>) -> bool {
    &&& s.len() > 0
    &&& (is_alpha(s[0]) || s[0] == '_')
    &&& forall|i: int| 1 <= i < s.len() ==> is_alnum(#[trigger] s[i]) || s[i] == '_'
}

/// A Solidity-style identifier, possibly dotted (`msg.sender`): every
/// `.`-separated segment is a valid segment.
pub open spec fn valid_ident(s: Seq<char>) -> bool
    decreases s.len(),
{
    match find(s, '.') {
        None => valid_ident_part(s),
        Some(k) => if 0 <= k < s.len() {
            valid_ident_part(s.subrange(0, k)) && valid_ident(s.subrange(k + 1, s.len() as int))
        } else {
            false
        },
    }
}

pub open spec fn bracket_match_from(s: Seq<char>, i: int, depth: int) -> Option<int>
    decreases s.len() - i,
{
    if i >= s.len() {
        None
    } else if s[i] == '[' {
        bracket_match_from(s, i + 1, depth + 1)
    } else if s[i] == ']' {
        if depth - 1 == 0 {
            Some(i)
        } else {
            bracket_match_from(s, i + 1, depth - 1)
        }
    } else {
        bracket_match_from(s, i + 1, depth)
    }
}

/// The position of the `]` that closes the `[` at position 0.
pub open spec fn matching_bracket(s: Seq<char>) -> Option<int> {
    if s.len() == 0 || s[0] != '[' {
        None
    } else {
        bracket_match_from(s, 0, 0)
    }
}

pub open spec fn op_text(op: BinOp) -> Seq<char> {
    match op {
        BinOp::Add => seq!['+'],
        BinOp::Sub => seq!['-'],
        BinOp::Mul => seq!['*'],
        BinOp::Div => seq!['/'],
        BinOp::Mod => seq!['%'],
        BinOp::BitAnd => seq!['&'],
        BinOp::BitOr => seq!['|'],
        BinOp::BitXor => seq!['^'],
        BinOp::Shl => seq!['<', '<'],
        BinOp::Shr => seq!['>', '>'],
    }
}

/// Operator groups in ascending precedence: the lowest-precedence operator
/// becomes the root of the tree.
pub open spec fn op_group(g: int) -> Seq<BinOp> {
    if g == 0 {
        seq![BinOp::BitOr]
    } else if g == 1 {
        seq![BinOp::BitXor]
    } else if g == 2 {
        seq![BinOp::BitAnd]
    } else if g == 3 {
        seq![BinOp::Shl, BinOp::Shr]
    } else if g == 4 {
        seq![BinOp::Add, BinOp::Sub]
    } else {
        seq![BinOp::Mul, BinOp::Div, BinOp::Mod]
    }
}

/// Net count of `[` over `]` in `s[..i]`.
pub open spec fn bracket_depth(s: Seq<char>, i: int) -> int
    decreases i,
{
    if i <= 0 {
        0
    } else {
        bracket_depth(s, i - 1) + (if s[i - 1] == '[' {
            1int
        } else if s[i - 1] == ']' {
            -1int
        } else {
            0int
        })
    }
}

/// `op` occurs at position `i` outside brackets, with operands on both sides.
pub open spec fn op_occurs_at(s: Seq<char>, i: int, op: BinOp) -> bool {
    let t = op_text(op);
    &&& 0 < i
    &&& i + t.len() < s.len()
    &&& s[i] != '['
    &&& s[i] != ']'
    &&& bracket_depth(s, i) <= 0
    &&& s.subrange(i, i + t.len()) == t
}

/// The last operator of `ops[..k]` that occurs at position `i`.
pub open spec fn last_op_at(s: Seq<char>, ops: Seq<BinOp>, i: int, k: int) -> Option<BinOp>
    decreases k,
{
    if k <= 0 {
        None
    } else if op_occurs_at(s, i, ops[k - 1]) {
        Some(ops[k - 1])
    } else {
        last_op_at(s, ops, i, k - 1)
    }
}

/// The rightmost occurrence, among positions below `i`, of an operator of `ops`.
pub open spec fn rightmost_op(s: Seq<char>, ops: Seq<BinOp>, i: int) -> Option<(int, BinOp)>
    decreases i,
{
    if i <= 0 {
        None
    } else {
        match last_op_at(s, ops, i - 1, ops.len() as int) {
            Some(op) => Some((i - 1, op)),
            None => rightmost_op(s, ops, i - 1),
        }
    }
}

pub open spec fn is_hex_literal(t: Seq<char>) -> bool {
    &&& t.len() > 2
    &&& t[0] == '0'
    &&& (t[1] == 'x' || t[1] == 'X')
    &&& all_hex_digits(t.subrange(2, t.len() as int))
}

pub open spec fn is_dec_literal(t: Seq<char>) -> bool {
    t.len() > 0 && all_digits(t)
}

/// `t` has the form `<prefix>...]`: the text between them is `t[plen..len-1]`.
pub open spec fn bracketed(t: Seq<char>, prefix: Seq<char>) -> bool {
    starts_with(t, prefix) && t.len() >= prefix.len() + 1 && t.last() == ']'
}

/// Parses the text after `event[` (`rest`), `t` being the whole atom.
pub open spec fn spec_parse_event(t: Seq<char>, rest: Seq<char>) -> Result<SpecExpr, Seq<char>> {
    match find(rest, ']') {
        None => Err("unclosed bracket in: "@ + t),
        Some(close) => {
            let idx_str = trim(rest.subrange(0, close));
            match parse_u64_spec(idx_str) {
                None => Err("invalid event index: "@ + idx_str),
                Some(index) => {
                    let tail = trim(rest.subrange(close + 1, rest.len() as int));
                    if tail.len() == 0 {
                        Ok(SpecExpr::EventAccess { index, field_index: None })
                    } else if tail[0] == '[' {
                        let tail2 = tail.drop_first();
                        match find(tail2, ']') {
                            None => Err("unclosed bracket in: "@ + t),
                            Some(close2) => {
                                let field_str = trim(tail2.subrange(0, close2));
                                match parse_u64_spec(field_str) {
                                    None => Err("invalid event field index: "@ + field_str),
                                    Some(field_index) => {
                                        let extra = trim(
                                            tail2.subrange(close2 + 1, tail2.len() as int),
                                        );
                                        if extra.len() != 0 {
                                            Err("unexpected trailing characters: "@ + extra)
                                        } else {
                                            Ok(
                                                SpecExpr::EventAccess {
                                                    index,
                                                    field_index: Some(field_index),
                                                },
                                            )
                                        }
                                    },
                                }
                            },
                        }
                    } else if tail[0] == '.' {
                        let field = trim(tail.drop_first());
                        if !valid_ident_part(field) {
                            Err("invalid event field: "@ + field)
                        } else {
                            Ok(SpecExpr::EventField { index, field })
                        }
                    } else {
                        Err("unexpected trailing characters: "@ + tail)
                    }
                },
            }
        },
    }
}

/// Parses the text between `memory[` and `]`.
pub open spec fn spec_parse_memory(inner: Seq<char>) -> Result<SpecExpr, Seq<char>> {
    match find(inner, ':') {
        Some(p) => {
            let off_s = inner.subrange(0, p);
            let len_s = inner.subrange(p + 1, inner.len() as int);
            match parse_u64_spec(trim(off_s)) {
                None => Err("invalid memory offset: "@ + off_s),
                Some(offset) => match parse_u64_spec(trim(len_s)) {
                    None => Err("invalid memory length: "@ + len_s),
                    Some(length) => Ok(SpecExpr::MemoryAccess { offset, length: Some(length) }),
                },
            }
        },
        None => match parse_u64_spec(inner) {
            None => Err("invalid memory offset: "@ + inner),
            Some(offset) => Ok(SpecExpr::MemoryAccess { offset, length: None }),
        },
    }
}

/// Parses an atomic expression: one with no binary operator at the top level.
pub open spec fn spec_parse_atom(s: Seq<char>) -> Result<SpecExpr, Seq<char>>
    decreases s.len(), 1int,
{
    let t = trim(s);
    let n = t.len() as int;
    if is_hex_literal(t) {
        Ok(SpecExpr::HexLiteral(t))
    } else if is_dec_literal(t) {
        Ok(SpecExpr::DecLiteral(t))
    } else if bracketed(t, "stack["@) {
        let inner = trim(t.subrange(6, n - 1));
        match parse_u64_spec(inner) {
            Some(i) => Ok(SpecExpr::StackIndex(i)),
            None => Err("invalid stack index: "@ + inner),
        }
    } else if bracketed(t, "log["@) {
        let inner = trim(t.subrange(4, n - 1));
        match parse_u64_spec(inner) {
            Some(i) => Ok(SpecExpr::LogAccess(i)),
            None => Err("invalid log index: "@ + inner),
        }
    } else if starts_with(t, "event["@) {
        spec_parse_event(t, t.subrange(6, n))
    } else if bracketed(t, "memory["@) {
        spec_parse_memory(trim(t.subrange(7, n - 1)))
    } else if find(t, '[') is Some {
        let bp = find(t, '[')->0;
        let name = trim(t.subrange(0, bp));
        if name.len() == 0 {
            Err("missing name before '[' in: "@ + t)
        } else if !valid_ident(name) {
            Err("invalid identifier: "@ + name)
        } else if 0 <= bp <= n && n <= s.len() {
            match spec_parse_keys(t, t.subrange(bp, n)) {
                Err(e) => Err(e),
                Ok(keys) => Ok(SpecExpr::MappingLookup { name, keys }),
            }
        } else {
            Err(seq![])
        }
    } else if is_keyword(t) {
        Ok(SpecExpr::Keyword(t))
    } else if valid_ident(t) {
        Ok(SpecExpr::Ident(t))
    } else {
        Err("cannot parse expression: '"@ + t + "'"@)
    }
}

/// Parses the keys `[k1][k2]...` of a mapping lookup; `t` is the whole atom.
pub open spec fn spec_parse_keys(t: Seq<char>, rest: Seq<char>) -> Result<
    Seq<SpecExpr>,
    Seq<char>,
>
    decreases rest.len(), 0int,
{
    if rest.len() > 0 && rest[0] == '[' {
        match matching_bracket(rest) {
            None => Err("unclosed bracket in: "@ + t),
            Some(close) => if 1 <= close < rest.len() {
                proof {
                    lemma_trim_len(rest.subrange(1, close));
                }
                match spec_parse_atom(trim(rest.subrange(1, close))) {
                    Err(e) => Err(e),
                    Ok(k) => match spec_parse_keys(t, rest.subrange(close + 1, rest.len() as int)) {
                        Err(e) => Err(e),
                        Ok(ks) => Ok(seq![k] + ks),
                    },
                }
            } else {
                Err(seq![])
            },
        }
    } else if trim(rest).len() != 0 {
        Err("unexpected trailing characters: "@ + rest)
    } else {
        Ok(seq![])
    }
}

/// Tries the operator groups from `g` on: the first group with an operator
/// outside brackets splits `s` at its rightmost occurrence.
pub open spec fn spec_try_groups(s: Seq<char>, g: int) -> Result<SpecExpr, Seq<char>>
    decreases s.len(), 6 - g,
{
    if g >= 6 || g < 0 {
        spec_parse_atom(s)
    } else {
        match rightmost_op(s, op_group(g), s.len() as int) {
            None => spec_try_groups(s, g + 1),
            Some((pos, op)) => {
                let lhs = trim(s.subrange(0, pos));
                let rhs = trim(s.subrange(pos + op_text(op).len(), s.len() as int));
                if lhs.len() == 0 || rhs.len() == 0 {
                    spec_try_groups(s, g + 1)
                } else if lhs.len() < s.len() && rhs.len() < s.len() {
                    match spec_parse_binary(lhs) {
                        Err(e) => Err(e),
                        Ok(l) => match spec_parse_binary(rhs) {
                            Err(e) => Err(e),
                            Ok(r) => Ok(
                                SpecExpr::BinaryOp { lhs: Box::new(l), op, rhs: Box::new(r) },
                            ),
                        },
                    }
                } else {
                    Err(seq![])
                }
            },
        }
    }
}

/// Parses a binary expression `<expr> <op> <expr>`, or else an atom.
pub open spec fn spec_parse_binary(s: Seq<char>) -> Result<SpecExpr, Seq<char>>
    decreases s.len(), 7int,
{
    spec_try_groups(s, 0)
}

/// The result of parsing `input`.
pub open spec fn spec_parse(input: Seq<char>) -> Result<SpecExpr, Seq<char>> {
    let t = trim(input);
    if t.len() == 0 {
        Err("empty expression"@)
    } else {
        spec_parse_binary(t)
    }
}


// ===================== Lemmas =====================

/// How tightly each operator binds, as in Solidity and Rust: `* / %` over
/// `+ -`, over `<< >>`, over `&`, over `^`, over `|`.
pub open spec fn precedence(op: BinOp) -> int {
    match op {
        BinOp::Mul | BinOp::Div | BinOp::Mod => 5,
        BinOp::Add | BinOp::Sub => 4,
        BinOp::Shl | BinOp::Shr => 3,
        BinOp::BitAnd => 2,
        BinOp::BitXor => 1,
        BinOp::BitOr => 0,
    }
}

proof fn lemma_group_precedence(op: BinOp, g: int)
    ensures
        op_group(precedence(op)).contains(op),
        0 <= g < 6 && op_group(g).contains(op) ==> precedence(op) == g,
{
    match op {
        BinOp::BitOr => assert(op_group(0)[0] == op),
        BinOp::BitXor => assert(op_group(1)[0] == op),
        BinOp::BitAnd => assert(op_group(2)[0] == op),
        BinOp::Shl => assert(op_group(3)[0] == op),
        BinOp::Shr => assert(op_group(3)[1] == op),
        BinOp::Add => assert(op_group(4)[0] == op),
        BinOp::Sub => assert(op_group(4)[1] == op),
        BinOp::Mul => assert(op_group(5)[0] == op),
        BinOp::Div => assert(op_group(5)[1] == op),
        BinOp::Mod => assert(op_group(5)[2] == op),
    }
    if 0 <= g < 6 && op_group(g).contains(op) {
        let k = choose|k: int| 0 <= k < op_group(g).len() && op_group(g)[k] == op;
        if g == 0 {
        } else if g == 1 {
        } else if g == 2 {
        } else if g == 3 {
            assert(k == 0 || k == 1);
        } else if g == 4 {
            assert(k == 0 || k == 1);
        } else {
            assert(k == 0 || k == 1 || k == 2);
        }
    }
}

proof fn lemma_last_op_at_found(s: Seq<char>, ops: Seq<BinOp>, i: int, k: int)
    requires
        k <= ops.len(),
    ensures
        match last_op_at(s, ops, i, k) {
            Some(op) => ops.contains(op),
            None => forall|x: int| 0 <= x < k ==> !#[trigger] op_occurs_at(s, i, ops[x]),
        },
    decreases k,
{
    if k > 0 {
        lemma_last_op_at_found(s, ops, i, k - 1);
        if op_occurs_at(s, i, ops[k - 1]) {
            assert(ops[k - 1] == ops[k - 1]);
        }
    }
}

proof fn lemma_rightmost_found(s: Seq<char>, ops: Seq<BinOp>, n: int)
    ensures
        match rightmost_op(s, ops, n) {
            Some((p, op)) => ops.contains(op) && 0 <= p < n,
            None => forall|i: int, x: int|
                0 <= i < n && 0 <= x < ops.len() ==> !#[trigger] op_occurs_at(s, i, ops[x]),
        },
    decreases n,
{
    if n > 0 {
        lemma_last_op_at_found(s, ops, n - 1, ops.len() as int);
        lemma_rightmost_found(s, ops, n - 1);
    }
}

proof fn lemma_nonblank_trim(x: Seq<char>, j: int)
    requires
        0 <= j < x.len(),
        !is_ws(x[j]),
    ensures
        trim(x).len() > 0,
{
    let k = lemma_trim_start_keeps(x, j);
    lemma_trim_end_keeps(trim_start(x), k);
}

proof fn lemma_trim_start_keeps(x: Seq<char>, j: int) -> (k: int)
    requires
        0 <= j < x.len(),
        !is_ws(x[j]),
    ensures
        0 <= k < trim_start(x).len(),
        !is_ws(trim_start(x)[k]),
    decreases x.len(),
{
    if x.len() > 0 && is_ws(x[0]) {
        lemma_trim_start_keeps(x.drop_first(), j - 1)
    } else {
        j
    }
}

proof fn lemma_trim_end_keeps(x: Seq<char>, j: int)
    requires
        0 <= j < x.len(),
        !is_ws(x[j]),
    ensures
        trim_end(x).len() > j,
    decreases x.len(),
{
    if x.len() > 0 && is_ws(x.last()) {
        lemma_trim_end_keeps(x.drop_last(), j);
    }
}

proof fn lemma_try_groups_precedence(s: Seq<char>, g: int)
    requires
        s.len() > 0,
        !is_ws(s[0]),
        !is_ws(s.last()),
        0 <= g,
        forall|h: int| 0 <= h < g ==> (#[trigger] rightmost_op(s, op_group(h), s.len() as int)) is None,
    ensures
        match spec_try_groups(s, g) {
            Ok(SpecExpr::BinaryOp { op, .. }) => forall|i: int, op2: BinOp|
                op_occurs_at(s, i, op2) ==> precedence(op2) >= precedence(op),
            _ => true,
        },
    decreases 6 - g,
{
    if g < 6 {
        match rightmost_op(s, op_group(g), s.len() as int) {
            None => {
                lemma_try_groups_precedence(s, g + 1);
            },
            Some((p, op)) => {
                lemma_rightmost_found(s, op_group(g), s.len() as int);
                lemma_group_precedence(op, g);
                let t = op_text(op);
                lemma_rightmost_occurs(s, op_group(g), s.len() as int);
                assert(s.subrange(0, p)[0] == s[0]);
                lemma_nonblank_trim(s.subrange(0, p), 0);
                let r = s.subrange(p + t.len(), s.len() as int);
                assert(r[r.len() - 1] == s.last());
                lemma_nonblank_trim(r, r.len() - 1);
                lemma_trim_len(s.subrange(0, p));
                lemma_trim_len(r);
                assert forall|i: int, op2: BinOp| op_occurs_at(s, i, op2) implies precedence(op2)
                    >= precedence(op) by {
                    lemma_group_precedence(op2, g);
                    let h = precedence(op2);
                    if h < g {
                        lemma_rightmost_found(s, op_group(h), s.len() as int);
                        assert(rightmost_op(s, op_group(h), s.len() as int) is None);
                        let x = choose|x: int| 0 <= x < op_group(h).len() && op_group(h)[x] == op2;
                        assert(!op_occurs_at(s, i, op_group(h)[x]));
                    }
                }
            },
        }
    }
}

proof fn lemma_rightmost_occurs(s: Seq<char>, ops: Seq<BinOp>, n: int)
    ensures
        match rightmost_op(s, ops, n) {
            Some((p, op)) => op_occurs_at(s, p, op),
            None => true,
        },
    decreases n,
{
    if n > 0 {
        lemma_last_op_occurs(s, ops, n - 1, ops.len() as int);
        lemma_rightmost_occurs(s, ops, n - 1);
    }
}

proof fn lemma_last_op_occurs(s: Seq<char>, ops: Seq<BinOp>, i: int, k: int)
    ensures
        match last_op_at(s, ops, i, k) {
            Some(op) => op_occurs_at(s, i, op),
            None => true,
        },
    decreases k,
{
    if k > 0 {
        lemma_last_op_occurs(s, ops, i, k - 1);
    }
}

/// `*`, `/` and `%` bind more tightly than `+` and `-`, and so on down the
/// precedence table: when a trimmed expression parses to an operation, no
/// operator outside brackets binds more loosely than the one at its root.
/// In `a + b % c` the root is `+`.
pub proof fn law_root_operator_binds_loosest(s: Seq<char>)
    requires
        s.len() > 0,
        !is_ws(s[0]),
        !is_ws(s.last()),
    ensures
        match spec_parse_binary(s) {
            Ok(SpecExpr::BinaryOp { op, .. }) => forall|i: int, op2: BinOp|
                op_occurs_at(s, i, op2) ==> precedence(op2) >= precedence(op),
            _ => true,
        },
{
    lemma_try_groups_precedence(s, 0);
}

/// The `]` at `i` closes the `[` at 0: `s[..=i]` holds as many `[` as `]`,
/// and every shorter non-empty prefix holds more `[` than `]`.
pub open spec fn closes_first_bracket(s: Seq<char>, i: int) -> bool {
    &&& s.len() > 0 && s[0] == '['
    &&& 0 <= i < s.len() && s[i] == ']'
    &&& bracket_depth(s, i + 1) == 0
    &&& forall|j: int| 1 <= j <= i ==> bracket_depth(s, j) > 0
}

proof fn lemma_bracket_scan(s: Seq<char>, k: int)
    requires
        s.len() > 0 && s[0] == '[',
        0 <= k <= s.len(),
        forall|j: int| 1 <= j <= k ==> bracket_depth(s, j) > 0,
    ensures
        match bracket_match_from(s, k, bracket_depth(s, k)) {
            Some(i) => k <= i && closes_first_bracket(s, i),
            None => forall|i: int| k <= i ==> !closes_first_bracket(s, i),
        },
    decreases s.len() - k,
{
    if k < s.len() {
        let d = bracket_depth(s, k);
        assert(bracket_depth(s, k + 1) == d + if s[k] == '[' {
            1int
        } else if s[k] == ']' {
            -1int
        } else {
            0int
        });
        if k == 0 {
            assert(bracket_depth(s, 0) == 0);
        }
        if s[k] == ']' && d - 1 == 0 {
        } else {
            lemma_bracket_scan(s, k + 1);
        }
    }
}

/// The `]` that `find_matching_bracket` finds is the one at which the
/// brackets opened since position 0 are all closed again; there is none
/// when no prefix balances so.
pub proof fn law_matching_bracket_balances(s: Seq<char>)
    ensures
        match matching_bracket(s) {
            Some(i) => closes_first_bracket(s, i),
            None => forall|i: int| !closes_first_bracket(s, i),
        },
{
    if s.len() > 0 && s[0] == '[' {
        lemma_bracket_scan(s, 0);
    }
}

/// The `.`-separated parts of `s`, as `str::split('.')` gives them.
pub open spec fn dot_parts(s: Seq<char>) -> Seq<Seq<char>>
    decreases s.len(),
{
    match find(s, '.') {
        Some(k) => if 0 <= k < s.len() {
            seq![s.subrange(0, k)] + dot_parts(s.subrange(k + 1, s.len() as int))
        } else {
            seq![s]
        },
        None => seq![s],
    }
}

/// An identifier is valid exactly when every `.`-separated part is a
/// valid segment: non-empty, a letter or `_`, then letters, digits or `_`.
pub proof fn law_valid_ident_parts(s: Seq<char>)
    ensures
        valid_ident(s) <==> forall|k: int| 0 <= k < dot_parts(s).len() ==> valid_ident_part(
            #[trigger] dot_parts(s)[k],
        ),
    decreases s.len(),
{
    lemma_find(s, '.');
    match find(s, '.') {
        Some(k) => {
            let tail = s.subrange(k + 1, s.len() as int);
            law_valid_ident_parts(tail);
            let ps = dot_parts(s);
            assert(ps == seq![s.subrange(0, k)] + dot_parts(tail));
            assert(ps.len() == dot_parts(tail).len() + 1);
            assert(ps[0] == s.subrange(0, k));
            assert(valid_ident(s) == (valid_ident_part(s.subrange(0, k)) && valid_ident(tail)));
            assert forall|j: int| 0 <= j < dot_parts(tail).len() implies ps[j + 1] == dot_parts(
                tail,
            )[j] by {}
            if forall|j: int| 0 <= j < ps.len() ==> valid_ident_part(#[trigger] ps[j]) {
                assert(valid_ident_part(ps[0]));
                assert forall|j: int| 0 <= j < dot_parts(tail).len() implies valid_ident_part(
                    #[trigger] dot_parts(tail)[j],
                ) by {
                    assert(valid_ident_part(ps[j + 1]));
                }
            }
            if valid_ident(s) {
                assert forall|j: int| 0 <= j < ps.len() implies valid_ident_part(#[trigger] ps[j]) by {
                    if j > 0 {
                        assert(ps[j] == dot_parts(tail)[j - 1]);
                    }
                }
            }
        },
        None => {
            assert(dot_parts(s) == seq![s]);
            assert(dot_parts(s)[0] == s);
        },
    }
}

proof fn lemma_bracket_match_from(s: Seq<char>, i: int, depth: int)
    requires
        0 <= i,
    ensures
        bracket_match_from(s, i, depth) matches Some(k) ==> i <= k < s.len() && s[k] == ']',
    decreases s.len() - i,
{
    if i < s.len() {
        if s[i] == '[' {
            lemma_bracket_match_from(s, i + 1, depth + 1);
        } else if s[i] == ']' {
            lemma_bracket_match_from(s, i + 1, depth - 1);
        } else {
            lemma_bracket_match_from(s, i + 1, depth);
        }
    }
}

/// The closing bracket lies strictly after the opening one, inside `s`.
proof fn lemma_matching_bracket(s: Seq<char>)
    ensures
        matching_bracket(s) matches Some(k) ==> 1 <= k < s.len(),
{
    if s.len() > 0 && s[0] == '[' {
        lemma_bracket_match_from(s, 0, 0);
    }
}

proof fn lemma_last_op_at(s: Seq<char>, ops: Seq<BinOp>, i: int, k: int)
    ensures
        last_op_at(s, ops, i, k) matches Some(op) ==> op_occurs_at(s, i, op),
        (s[i] == '[' || s[i] == ']' || bracket_depth(s, i) > 0) ==> last_op_at(s, ops, i, k) is None,
    decreases k,
{
    if k > 0 {
        lemma_last_op_at(s, ops, i, k - 1);
    }
}

/// The operator found lies strictly inside `s`.
proof fn lemma_rightmost_op(s: Seq<char>, ops: Seq<BinOp>, i: int)
    ensures
        rightmost_op(s, ops, i) matches Some((pos, op)) ==> op_occurs_at(s, pos, op),
    decreases i,
{
    if i > 0 {
        lemma_last_op_at(s, ops, i - 1, ops.len() as int);
        lemma_rightmost_op(s, ops, i - 1);
    }
}

// ===================== The parser =====================

fn err_msg(lit: &str, t: &Vec<char>) -> (r: String)
    ensures
        r@ == lit@ + t@,
{
    chars_to_string(&lit_then(lit, t))
}

fn is_keyword_chars(s: &Vec<char>) -> (r: bool)
    ensures
        r == is_keyword(s@),
{
    eq_lit(s, "pc") || eq_lit(s, "op") || eq_lit(s, "opcode") || eq_lit(s, "gas") || eq_lit(
        s,
        "gas_cost",
    ) || eq_lit(s, "depth") || eq_lit(s, "node") || eq_lit(s, "step") || eq_lit(s, "address")
        || eq_lit(s, "this") || eq_lit(s, "msg.sender") || eq_lit(s, "caller") || eq_lit(
        s,
        "memory",
    ) || eq_lit(s, "memory.length") || eq_lit(s, "calldata") || eq_lit(s, "msg.data")
        || eq_lit(s, "returndata") || eq_lit(s, "stack") || eq_lit(s, "log") || eq_lit(s, "help")
        || eq_lit(s, "?")
}

fn is_valid_ident_part(s: &Vec<char>) -> (r: bool)
    ensures
        r == valid_ident_part(s@),
{
    if s.len() == 0 {
        return false;
    }
    let first = s[0];
    if !is_ascii_alphabetic(first) && first != '_' {
        return false;
    }
    let mut i: usize = 1;
    while i < s.len()
        invariant
            1 <= i <= s@.len(),
            forall|j: int| 1 <= j < i ==> is_alnum(#[trigger] s@[j]) || s@[j] == '_',
        decreases s.len() - i,
    {
        let c = s[i];
        if !(is_ascii_alphanumeric(c) || c == '_') {
            return false;
        }
        i = i + 1;
    }
    true
}

fn is_valid_ident(s: &Vec<char>) -> (r: bool)
    ensures
        r == valid_ident(s@),
    decreases s@.len(),
{
    match find_char(s, '.') {
        None => is_valid_ident_part(s),
        Some(k) => {
            proof {
                lemma_find(s@, '.');
            }
            let n = s.len();
            let head = slice_chars(s, 0, k);
            let tail = slice_chars(s, k + 1, n);
            is_valid_ident_part(&head) && is_valid_ident(&tail)
        },
    }
}

/// Find the position of the matching `]` for a `[` at position 0.
fn find_matching_bracket(s: &Vec<char>) -> (r: Option<usize>)
    ensures
        match r {
            Some(k) => matching_bracket(s@) == Some(k as int),
            None => matching_bracket(s@) is None,
        },
{
    if s.len() == 0 || s[0] != '[' {
        return None;
    }
    let mut depth: usize = 0;
    let mut i: usize = 0;
    while i < s.len()
        invariant
            i <= s@.len(),
            s@[0] == '[',
            bracket_match_from(s@, i as int, depth as int) == matching_bracket(s@),
            i == 0 ==> depth == 0,
            i > 0 ==> depth >= 1,
            depth <= i,
        decreases s.len() - i,
    {
        let b = s[i];
        if b == '[' {
            depth = depth + 1;
        } else if b == ']' {
            depth = depth - 1;
            if depth == 0 {
                return Some(i);
            }
        }
        i = i + 1;
    }
    None
}

fn op_chars(op: BinOp) -> (r: Vec<char>)
    ensures
        r@ == op_text(op),
{
    match op {
        BinOp::Add => vec!['+'],
        BinOp::Sub => vec!['-'],
        BinOp::Mul => vec!['*'],
        BinOp::Div => vec!['/'],
        BinOp::Mod => vec!['%'],
        BinOp::BitAnd => vec!['&'],
        BinOp::BitOr => vec!['|'],
        BinOp::BitXor => vec!['^'],
        BinOp::Shl => vec!['<', '<'],
        BinOp::Shr => vec!['>', '>'],
    }
}

fn group_ops(g: usize) -> (r: Vec<BinOp>)
    requires
        g < 6,
    ensures
        r@ == op_group(g as int),
{
    if g == 0 {
        vec![BinOp::BitOr]
    } else if g == 1 {
        vec![BinOp::BitXor]
    } else if g == 2 {
        vec![BinOp::BitAnd]
    } else if g == 3 {
        vec![BinOp::Shl, BinOp::Shr]
    } else if g == 4 {
        vec![BinOp::Add, BinOp::Sub]
    } else {
        vec![BinOp::Mul, BinOp::Div, BinOp::Mod]
    }
}

fn occurs_at(s: &Vec<char>, i: usize, depth: i128, op: BinOp) -> (r: bool)
    requires
        i < s@.len(),
        depth == bracket_depth(s@, i as int),
    ensures
        r == op_occurs_at(s@, i as int, op),
{
    let t = op_chars(op);
    if i == 0 || t.len() >= s.len() - i {
        return false;
    }
    if s[i] == '[' || s[i] == ']' || depth > 0 {
        return false;
    }
    let mut j: usize = 0;
    while j < t.len()
        invariant
            t@ == op_text(op),
            s@.len() <= usize::MAX,
            i + t@.len() < s@.len(),
            j <= t@.len(),
            forall|m: int| 0 <= m < j ==> s@[i + m] == t@[m],
        decreases t.len() - j,
    {
        if s[i + j] != t[j] {
            assert(s@.subrange(i as int, i + t@.len())[j as int] != t@[j as int]);
            return false;
        }
        j = j + 1;
    }
    assert(s@.subrange(i as int, i + t@.len()) =~= t@);
    true
}

pub open spec fn pos_view(o: Option<(usize, BinOp)>) -> Option<(int, BinOp)> {
    match o {
        Some((i, op)) => Some((i as int, op)),
        None => None,
    }
}

/// Find the rightmost occurrence of any operator in the group,
/// skipping operators inside brackets.
fn find_rightmost_op(s: &Vec<char>, ops: &Vec<BinOp>) -> (r: Option<(usize, BinOp)>)
    ensures
        pos_view(r) == rightmost_op(s@, ops@, s@.len() as int),
{
    let n = s.len();
    let mut best: Option<(usize, BinOp)> = None;
    let mut depth: i128 = 0;
    let mut i: usize = 0;
    while i < n
        invariant
            n == s@.len(),
            i <= n,
            n <= usize::MAX,
            depth == bracket_depth(s@, i as int),
            -(i as int) <= depth <= i,
            pos_view(best) == rightmost_op(s@, ops@, i as int),
        decreases n - i,
    {
        let c = s[i];
        proof {
            lemma_last_op_at(s@, ops@, i as int, ops@.len() as int);
        }
        if c == '[' {
            depth = depth + 1;
        } else if c == ']' {
            depth = depth - 1;
        } else if depth <= 0 {
            let ghost prev = best;
            let mut k: usize = 0;
            while k < ops.len()
                invariant
                    k <= ops@.len(),
                    i < n,
                    n == s@.len(),
                    depth == bracket_depth(s@, i as int),
                    pos_view(prev) == rightmost_op(s@, ops@, i as int),
                    match last_op_at(s@, ops@, i as int, k as int) {
                        Some(op) => best == Some((i, op)),
                        None => best == prev,
                    },
                decreases ops.len() - k,
            {
                let op = ops[k];
                if occurs_at(s, i, depth, op) {
                    best = Some((i, op));
                }
                k = k + 1;
            }
        }
        i = i + 1;
    }
    best
}

fn all_hex_from(s: &Vec<char>, from: usize) -> (r: bool)
    requires
        from <= s@.len(),
    ensures
        r == all_hex_digits(s@.subrange(from as int, s@.len() as int)),
{
    let mut i: usize = from;
    while i < s.len()
        invariant
            from <= i <= s@.len(),
            forall|j: int| from <= j < i ==> crate::text::is_hex_digit(#[trigger] s@[j]),
        decreases s.len() - i,
    {
        if !is_ascii_hexdigit(s[i]) {
            assert(s@.subrange(from as int, s@.len() as int)[i - from] == s@[i as int]);
            return false;
        }
        i = i + 1;
    }
    assert forall|j: int| 0 <= j < s@.len() - from implies crate::text::is_hex_digit(
        #[trigger] s@.subrange(from as int, s@.len() as int)[j],
    ) by {
        assert(s@.subrange(from as int, s@.len() as int)[j] == s@[from + j]);
    }
    true
}

fn all_dec(s: &Vec<char>) -> (r: bool)
    ensures
        r == all_digits(s@),
{
    let mut i: usize = 0;
    while i < s.len()
        invariant
            i <= s@.len(),
            forall|j: int| 0 <= j < i ==> crate::text::is_digit(#[trigger] s@[j]),
        decreases s.len() - i,
    {
        if !is_ascii_digit(s[i]) {
            return false;
        }
        i = i + 1;
    }
    true
}

fn parse_event(t: &Vec<char>, rest: &Vec<char>) -> (r: Result<Expr, String>)
    ensures
        result_view(r) == spec_parse_event(t@, rest@),
{
    let close = match find_char(rest, ']') {
        None => return Err(err_msg("unclosed bracket in: ", t)),
        Some(c) => c,
    };
    proof {
        lemma_find(rest@, ']');
    }
    let idx_str = trimmed(&slice_chars(rest, 0, close));
    let index = match parse_u64(&idx_str) {
        None => return Err(err_msg("invalid event index: ", &idx_str)),
        Some(v) => v,
    };
    let rn = rest.len();
    let tail = trimmed(&slice_chars(rest, close + 1, rn));
    if tail.len() == 0 {
        return Ok(Expr::EventAccess { index, field_index: None });
    }
    if tail[0] == '[' {
        let tail2 = slice_chars(&tail, 1, tail.len());
        assert(tail2@ =~= tail@.drop_first());
        let close2 = match find_char(&tail2, ']') {
            None => return Err(err_msg("unclosed bracket in: ", t)),
            Some(c) => c,
        };
        proof {
            lemma_find(tail2@, ']');
        }
        let field_str = trimmed(&slice_chars(&tail2, 0, close2));
        let field_index = match parse_u64(&field_str) {
            None => return Err(err_msg("invalid event field index: ", &field_str)),
            Some(v) => v,
        };
        let extra = trimmed(&slice_chars(&tail2, close2 + 1, tail2.len()));
        if extra.len() != 0 {
            return Err(err_msg("unexpected trailing characters: ", &extra));
        }
        return Ok(Expr::EventAccess { index, field_index: Some(field_index) });
    }
    if tail[0] == '.' {
        let field = trimmed(&slice_chars(&tail, 1, tail.len()));
        assert(slice_chars_view_drop_first(tail@));
        if !is_valid_ident_part(&field) {
            return Err(err_msg("invalid event field: ", &field));
        }
        return Ok(Expr::EventField { index, field: chars_to_string(&field) });
    }
    Err(err_msg("unexpected trailing characters: ", &tail))
}

spec fn slice_chars_view_drop_first(s: Seq<char>) -> bool {
    s.len() > 0 ==> s.subrange(1, s.len() as int) == s.drop_first()
}

fn parse_memory(inner: &Vec<char>) -> (r: Result<Expr, String>)
    ensures
        result_view(r) == spec_parse_memory(inner@),
{
    match find_char(inner, ':') {
        Some(p) => {
            proof {
                lemma_find(inner@, ':');
            }
            let off_s = slice_chars(inner, 0, p);
            let inn = inner.len();
            let len_s = slice_chars(inner, p + 1, inn);
            let offset = match parse_u64(&trimmed(&off_s)) {
                None => return Err(err_msg("invalid memory offset: ", &off_s)),
                Some(v) => v,
            };
            let length = match parse_u64(&trimmed(&len_s)) {
                None => return Err(err_msg("invalid memory length: ", &len_s)),
                Some(v) => v,
            };
            Ok(Expr::MemoryAccess { offset, length: Some(length) })
        },
        None => match parse_u64(inner) {
            None => Err(err_msg("invalid memory offset: ", inner)),
            Some(offset) => Ok(Expr::MemoryAccess { offset, length: None }),
        },
    }
}

/// Parse an atomic expression (no binary operators at the top level).
fn parse_atom(input: &Vec<char>) -> (r: Result<Expr, String>)
    ensures
        result_view(r) == spec_parse_atom(input@),
    decreases input@.len(), 1int,
{
    let t = trimmed(input);
    let n = t.len();
    proof {
        lemma_trim_len(input@);
        reveal_strlit("stack[");
        reveal_strlit("log[");
        reveal_strlit("event[");
        reveal_strlit("memory[");
    }
    // Hex literal: 0x...
    if n > 2 && t[0] == '0' && (t[1] == 'x' || t[1] == 'X') && all_hex_from(&t, 2) {
        return Ok(Expr::HexLiteral(chars_to_string(&t)));
    }
    // Decimal literal
    if n > 0 && all_dec(&t) {
        return Ok(Expr::DecLiteral(chars_to_string(&t)));
    }
    // stack[N]
    if starts_with_lit(&t, "stack[") && n >= 7 && t[n - 1] == ']' {
        let inner = trimmed(&slice_chars(&t, 6, n - 1));
        return match parse_u64(&inner) {
            Some(idx) => Ok(Expr::StackIndex(idx)),
            None => Err(err_msg("invalid stack index: ", &inner)),
        };
    }
    // log[N]
    if starts_with_lit(&t, "log[") && n >= 5 && t[n - 1] == ']' {
        let inner = trimmed(&slice_chars(&t, 4, n - 1));
        return match parse_u64(&inner) {
            Some(idx) => Ok(Expr::LogAccess(idx)),
            None => Err(err_msg("invalid log index: ", &inner)),
        };
    }
    // event[N], event[N][M], event[N].name
    if starts_with_lit(&t, "event[") {
        let rest = slice_chars(&t, 6, n);
        return parse_event(&t, &rest);
    }
    // memory[offset] or memory[offset:length]
    if starts_with_lit(&t, "memory[") && n >= 8 && t[n - 1] == ']' {
        let inner = trimmed(&slice_chars(&t, 7, n - 1));
        return parse_memory(&inner);
    }
    // name[key] or name[key1][key2] — mapping lookup
    if let Some(bp) = find_char(&t, '[') {
        proof {
            lemma_find(t@, '[');
        }
        let name = trimmed(&slice_chars(&t, 0, bp));
        if name.len() == 0 {
            return Err(err_msg("missing name before '[' in: ", &t));
        }
        if !is_valid_ident(&name) {
            return Err(err_msg("invalid identifier: ", &name));
        }
        let rest = slice_chars(&t, bp, n);
        assert(find(t@, '[') == Some(bp as int));
        assert(n <= input@.len());
        return match parse_keys(&t, &rest) {
            Err(e) => {
                assert(spec_parse_keys(t@, rest@) == Err::<Seq<SpecExpr>, Seq<char>>(e@));
                assert(spec_parse_atom(input@) == Err::<SpecExpr, Seq<char>>(e@));
                Err(e)
            },
            Ok(keys) => {
                let ghost kv = keys@;
                let e = Expr::MappingLookup { name: chars_to_string(&name), keys };
                proof {
                    match expr_view(e) {
                        SpecExpr::MappingLookup { name: en, keys: ek } => {
                            assert(ek.len() == kv.len());
                            assert forall|i: int| 0 <= i < kv.len() implies ek[i] == views(
                                kv,
                            )[i] by {}
                            assert(ek =~= views(kv));
                        },
                        _ => {},
                    }
                }
                Ok(e)
            },
        };
    }
    // Keyword check (must come after bracket-based checks)
    if is_keyword_chars(&t) {
        return Ok(Expr::Keyword(chars_to_string(&t)));
    }
    // Identifier (storage variable name, calldata param, etc.)
    if is_valid_ident(&t) {
        return Ok(Expr::Ident(chars_to_string(&t)));
    }
    let m = concat(&lit_then("cannot parse expression: '", &t), &str_chars("'"));
    Err(chars_to_string(&m))
}

/// Parses the `[key]` segments of a mapping lookup.
fn parse_keys(t: &Vec<char>, rest: &Vec<char>) -> (r: Result<Vec<Expr>, String>)
    ensures
        keys_result_view(r) == spec_parse_keys(t@, rest@),
    decreases rest@.len(), 0int,
{
    if rest.len() > 0 && rest[0] == '[' {
        let close = match find_matching_bracket(rest) {
            None => return Err(err_msg("unclosed bracket in: ", t)),
            Some(c) => c,
        };
        proof {
            lemma_matching_bracket(rest@);
        }
        let key_str = trimmed(&slice_chars(rest, 1, close));
        proof {
            lemma_trim_len(rest@.subrange(1, close as int));
        }
        let k = match parse_atom(&key_str) {
            Err(e) => return Err(e),
            Ok(k) => k,
        };
        let rest2 = slice_chars(rest, close + 1, rest.len());
        let mut ks = match parse_keys(t, &rest2) {
            Err(e) => return Err(e),
            Ok(ks) => ks,
        };
        let ghost ksv = ks@;
        let ghost kv = k;
        let mut v: Vec<Expr> = Vec::new();
        v.push(k);
        v.append(&mut ks);
        assert(views(v@) =~= seq![expr_view(kv)] + views(ksv));
        Ok(v)
    } else if trimmed(rest).len() != 0 {
        Err(err_msg("unexpected trailing characters: ", rest))
    } else {
        assert(views(Seq::<Expr>::empty()) =~= Seq::<SpecExpr>::empty());
        Ok(Vec::new())
    }
}

/// Try to parse a binary expression: `<expr> <op> <expr>`.
/// Scans for an operator outside of brackets (lowest precedence first).
/// If no operator is found, falls through to `parse_atom`.
fn parse_binary(s: &Vec<char>) -> (r: Result<Expr, String>)
    ensures
        result_view(r) == spec_parse_binary(s@),
    decreases s@.len(), 7int,
{
    let mut g: usize = 0;
    while g < 6
        invariant
            g <= 6,
            spec_try_groups(s@, g as int) == spec_parse_binary(s@),
        decreases 6 - g,
    {
        let ops = group_ops(g);
        match find_rightmost_op(s, &ops) {
            None => {},
            Some((pos, op)) => {
                proof {
                    lemma_rightmost_op(s@, ops@, s@.len() as int);
                }
                let t = op_chars(op);
                let sn = s.len();
                let lhs = trimmed(&slice_chars(s, 0, pos));
                let rhs = trimmed(&slice_chars(s, pos + t.len(), sn));
                proof {
                    lemma_trim_len(s@.subrange(0, pos as int));
                    lemma_trim_len(s@.subrange(pos + t@.len(), s@.len() as int));
                }
                if lhs.len() != 0 && rhs.len() != 0 {
                    let l = match parse_binary(&lhs) {
                        Err(e) => return Err(e),
                        Ok(l) => l,
                    };
                    let r = match parse_binary(&rhs) {
                        Err(e) => return Err(e),
                        Ok(r) => r,
                    };
                    return Ok(Expr::BinaryOp { lhs: Box::new(l), op, rhs: Box::new(r) });
                }
            },
        }
        g = g + 1;
    }
    parse_atom(s)
}

/// Parse an expression string into an AST.
pub fn parse(input: &str) -> (r: Result<Expr, String>)
    ensures
        result_view(r) == spec_parse(input@),
{
    let chars = str_chars(input);
    let t = trimmed(&chars);
    if t.len() == 0 {
        return Err(String::from_str("empty expression"));
    }
    parse_binary(&t)
}

} // verus!
