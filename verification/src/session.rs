//! A debug session: a position in a recorded trace, and the moves through it.
//!
//! The trace is a sequence of call frames, each a sequence of steps. Laid
//! end to end, the positions (a frame and a step in it, a frame with no
//! steps counting as one position) form a timeline; `step_opcode` moves one
//! position forward on it and `step_back_opcode` one position back. The
//! source-level moves (step over, in, out, continue) are searches forward on
//! that timeline, each stated by a spec function of this module.

use vstd::prelude::*;
use crate::config::LaunchConfig;
use crate::launch::{DebuggerContext, EventInfo, StorageLayout};
use crate::source_map::{normal_path, normalize_path, SourceLocation};
use crate::trace::{Address, TraceNode, TraceStep};

verus! {

/// Why `continue_to_breakpoint` stopped.
#[derive(Debug, Clone, Copy, PartialEq, Eq, Structural)]
pub enum StopReason {
    Breakpoint,
    End,
}

pub struct DebugSession {
    pub debug_arena: Vec<TraceNode>,
    /// Address → contract name.
    pub identified_contracts: Vec<(Address, String)>,
    pub current_node: usize,
    pub current_step: usize,
    /// Source breakpoints: file → line numbers.
    pub source_breakpoints: Vec<(String, Vec<i64>)>,
    pub launch_config: LaunchConfig,
    /// Contract name → storage layout for variable name resolution.
    pub storage_layouts: Vec<(String, StorageLayout)>,
    /// Function selector → signature for frame name resolution.
    pub method_identifiers: Vec<(String, String)>,
    /// Function selector → parameter names/types for stack labeling.
    pub function_params: Vec<(String, Vec<(String, String)>)>,
    /// Event topic 0 → event, for decoding emitted logs.
    pub event_signatures: Vec<(String, EventInfo)>,
}

// ===================== Positions on the timeline =====================

pub open spec fn step_count(nodes: Seq<TraceNode>, i: int) -> int {
    nodes[i].steps@.len() as int
}

/// Number of positions of frame `i`: its steps, or one when it has none.
pub open spec fn width(nodes: Seq<TraceNode>, i: int) -> int {
    if step_count(nodes, i) == 0 {
        1
    } else {
        step_count(nodes, i)
    }
}

/// Number of positions before frame `k`.
pub open spec fn offset(nodes: Seq<TraceNode>, k: int) -> int
    decreases k,
{
    if k <= 0 {
        0
    } else {
        offset(nodes, k - 1) + width(nodes, k - 1)
    }
}

/// Number of positions of the whole trace.
pub open spec fn total(nodes: Seq<TraceNode>) -> int {
    offset(nodes, nodes.len() as int)
}

pub open spec fn valid_pos(nodes: Seq<TraceNode>, n: int, s: int) -> bool {
    0 <= n < nodes.len() && 0 <= s < width(nodes, n)
}

/// Index of a position on the timeline.
pub open spec fn pos(nodes: Seq<TraceNode>, n: int, s: int) -> int {
    offset(nodes, n) + s
}

pub open spec fn sat_dec(x: int) -> int {
    if x > 0 {
        x - 1
    } else {
        0
    }
}

/// The last position of the trace is reached (or there is none).
pub open spec fn at_end(nodes: Seq<TraceNode>, n: int, s: int) -> bool {
    nodes.len() == 0 || (n >= nodes.len() - 1 && s >= sat_dec(step_count(nodes, n)))
}

/// Where `step_opcode` moves from frame `n`, step `s`.
pub open spec fn forward(nodes: Seq<TraceNode>, n: int, s: int) -> (int, int) {
    if nodes.len() == 0 || at_end(nodes, n, s) {
        (n, s)
    } else if step_count(nodes, n) == 0 {
        if n + 1 < nodes.len() {
            (n + 1, 0)
        } else {
            (n, s)
        }
    } else if s + 1 < step_count(nodes, n) {
        (n, s + 1)
    } else if n + 1 < nodes.len() {
        (n + 1, 0)
    } else {
        (n, s)
    }
}

/// Where `step_back_opcode` moves from frame `n`, step `s`.
pub open spec fn backward(nodes: Seq<TraceNode>, n: int, s: int) -> (int, int) {
    if nodes.len() == 0 || (n == 0 && s == 0) {
        (n, s)
    } else if s > 0 {
        (n, s - 1)
    } else if n > 0 {
        (n - 1, sat_dec(step_count(nodes, n - 1)))
    } else {
        (n, s)
    }
}

/// The source location of frame `n`, step `s`.
pub open spec fn loc_at(nodes: Seq<TraceNode>, n: int, s: int) -> Option<SourceLocation> {
    if 0 <= n < nodes.len() && 0 <= s < step_count(nodes, n) {
        nodes[n].steps@[s].location
    } else {
        None
    }
}

/// First index at or after `i` whose address is `a`.
pub open spec fn contract_index_from(ids: Seq<(Address, String)>, a: Address, i: int) -> Option<
    int,
>
    decreases ids.len() - i,
{
    if i >= ids.len() {
        None
    } else if ids[i].0 == a {
        Some(i)
    } else {
        contract_index_from(ids, a, i + 1)
    }
}

/// The name under which the contract at `a` is identified.
pub open spec fn contract_name_of(ids: Seq<(Address, String)>, a: Address) -> Option<Seq<char>> {
    match contract_index_from(ids, a, 0) {
        Some(k) => Some(ids[k].1@),
        None => None,
    }
}

/// `loc` is the line that the first step of frame `n` maps to: the
/// dispatcher preamble, which solc maps to the `contract X {` line.
pub open spec fn is_contract_def_line(
    nodes: Seq<TraceNode>,
    ids: Seq<(Address, String)>,
    n: int,
    loc: SourceLocation,
) -> bool {
    &&& 0 <= n < nodes.len()
    &&& step_count(nodes, n) > 0
    &&& contract_name_of(ids, nodes[n].address) is Some
    &&& match nodes[n].steps@[0].location {
        Some(first) => first.path@ == loc.path@ && first.line == loc.line,
        None => false,
    }
}

/// At frame `n`, step `s`, the source line differs from the start line
/// `start` and is not the contract definition line.
pub open spec fn at_new_line(
    nodes: Seq<TraceNode>,
    ids: Seq<(Address, String)>,
    start: Option<SourceLocation>,
    n: int,
    s: int,
) -> bool {
    match loc_at(nodes, n, s) {
        None => false,
        Some(b) => match start {
            None => !is_contract_def_line(nodes, ids, n, b),
            Some(a) => (a.path@ != b.path@ || a.line != b.line) && !is_contract_def_line(
                nodes,
                ids,
                n,
                b,
            ),
        },
    }
}

/// Where stepping forward from frame `n`, step `s`, first lands in a frame
/// after `parent` that runs at `parent`'s address (the parent resumed), or
/// the end.
pub open spec fn skip_from(nodes: Seq<TraceNode>, parent: int, n: int, s: int) -> (int, int)
    decreases total(nodes) - pos(nodes, n, s),
{
    if !valid_pos(nodes, n, s) || at_end(nodes, n, s) || !(0 <= parent < nodes.len()) {
        (n, s)
    } else {
        let p = forward(nodes, n, s);
        proof {
            lemma_forward(nodes, n, s);
            lemma_pos_bounds(nodes, p.0, p.1);
        }
        if p.0 > parent && nodes[p.0].address == nodes[parent].address {
            p
        } else {
            skip_from(nodes, parent, p.0, p.1)
        }
    }
}

/// Step over: from frame `n`, step `s`, with start frame `sn` and start line
/// `sl`, the position where the search stops.
pub open spec fn over_from(
    nodes: Seq<TraceNode>,
    ids: Seq<(Address, String)>,
    sn: int,
    sl: Option<SourceLocation>,
    n: int,
    s: int,
) -> (int, int)
    decreases total(nodes) - pos(nodes, n, s),
{
    if !valid_pos(nodes, n, s) || at_end(nodes, n, s) || !(0 <= sn < nodes.len()) {
        (n, s)
    } else {
        let p = forward(nodes, n, s);
        proof {
            lemma_forward(nodes, n, s);
            lemma_skip_from(nodes, sn, p.0, p.1);
        }
        if p.0 > sn {
            let q = skip_from(nodes, sn, p.0, p.1);
            proof {
                lemma_pos_bounds(nodes, q.0, q.1);
            }
            if at_end(nodes, q.0, q.1) || at_new_line(nodes, ids, sl, q.0, q.1) {
                q
            } else {
                over_from(nodes, ids, sn, sl, q.0, q.1)
            }
        } else {
            proof {
                lemma_pos_bounds(nodes, p.0, p.1);
            }
            if at_new_line(nodes, ids, sl, p.0, p.1) {
                p
            } else {
                over_from(nodes, ids, sn, sl, p.0, p.1)
            }
        }
    }
}

/// Step into: from frame `n`, step `s`, with start frame `sn` and start line
/// `sl`, the position where the search stops.
pub open spec fn into_from(
    nodes: Seq<TraceNode>,
    ids: Seq<(Address, String)>,
    sn: int,
    sl: Option<SourceLocation>,
    n: int,
    s: int,
) -> (int, int)
    decreases total(nodes) - pos(nodes, n, s),
{
    if !valid_pos(nodes, n, s) || at_end(nodes, n, s) {
        (n, s)
    } else {
        let p = forward(nodes, n, s);
        proof {
            lemma_forward(nodes, n, s);
            lemma_pos_bounds(nodes, p.0, p.1);
        }
        if p.0 != sn {
            match loc_at(nodes, p.0, p.1) {
                Some(l) => if is_contract_def_line(nodes, ids, p.0, l) {
                    into_from(nodes, ids, sn, sl, p.0, p.1)
                } else {
                    p
                },
                None => p,
            }
        } else if at_new_line(nodes, ids, sl, p.0, p.1) {
            p
        } else {
            into_from(nodes, ids, sn, sl, p.0, p.1)
        }
    }
}

/// The address that an external call from frame `sn` returns to: the
/// caller's, that of the frame before it (for the first frame, its own).
pub open spec fn return_address(nodes: Seq<TraceNode>, sn: int) -> Address {
    if sn > 0 {
        nodes[sn - 1].address
    } else {
        nodes[sn].address
    }
}

/// Step out of an external call: the first position in a later frame at the
/// caller's address that is not on the contract definition line.
pub open spec fn out_external_from(
    nodes: Seq<TraceNode>,
    ids: Seq<(Address, String)>,
    sn: int,
    n: int,
    s: int,
) -> (int, int)
    decreases total(nodes) - pos(nodes, n, s),
{
    if !valid_pos(nodes, n, s) || at_end(nodes, n, s) || !(0 <= sn < nodes.len()) {
        (n, s)
    } else {
        let p = forward(nodes, n, s);
        proof {
            lemma_forward(nodes, n, s);
            lemma_pos_bounds(nodes, p.0, p.1);
        }
        if p.0 > sn && nodes[p.0].address == return_address(nodes, sn) {
            match loc_at(nodes, p.0, p.1) {
                Some(l) => if !is_contract_def_line(nodes, ids, p.0, l) {
                    p
                } else {
                    out_external_from(nodes, ids, sn, p.0, p.1)
                },
                None => p,
            }
        } else {
            out_external_from(nodes, ids, sn, p.0, p.1)
        }
    }
}

pub open spec fn within_30(a: i64, b: i64) -> bool {
    -30 <= a - b <= 30
}

/// The lines of the function being stepped out of: scanning back from step
/// `si` down to step `lo` of frame `sn`, the lines in file `file` that are
/// already known or within 30 lines of `start_line`, stopping at the first
/// other line or file.
pub open spec fn scan_function_lines(
    nodes: Seq<TraceNode>,
    sn: int,
    file: Option<Seq<char>>,
    start_line: i64,
    si: int,
    lo: int,
    seen: Set<i64>,
) -> Set<i64>
    decreases si - lo + 1,
{
    if si < lo || si < 0 {
        seen
    } else {
        match loc_at(nodes, sn, si) {
            None => scan_function_lines(nodes, sn, file, start_line, si - 1, lo, seen),
            Some(l) => if file == Some(l.path@) {
                if seen.contains(l.line) || within_30(l.line, start_line) {
                    scan_function_lines(nodes, sn, file, start_line, si - 1, lo, seen.insert(l.line))
                } else {
                    seen
                }
            } else {
                seen
            },
        }
    }
}

/// Step out of an internal call: the first position of the start frame on a
/// line of `file` outside `seen`; once the start frame is left, the end.
pub open spec fn out_internal_from(
    nodes: Seq<TraceNode>,
    ids: Seq<(Address, String)>,
    sn: int,
    file: Option<Seq<char>>,
    seen: Set<i64>,
    n: int,
    s: int,
) -> (int, int)
    decreases total(nodes) - pos(nodes, n, s),
{
    if !valid_pos(nodes, n, s) || at_end(nodes, n, s) || !(0 <= sn < nodes.len()) {
        (n, s)
    } else {
        let p = forward(nodes, n, s);
        proof {
            lemma_forward(nodes, n, s);
            lemma_skip_from(nodes, sn, p.0, p.1);
        }
        if p.0 != sn {
            let q = skip_from(nodes, sn, p.0, p.1);
            proof {
                lemma_pos_bounds(nodes, q.0, q.1);
            }
            if at_end(nodes, q.0, q.1) {
                q
            } else {
                out_internal_from(nodes, ids, sn, file, seen, q.0, q.1)
            }
        } else {
            proof {
                lemma_pos_bounds(nodes, p.0, p.1);
            }
            match loc_at(nodes, p.0, p.1) {
                Some(l) => if file == Some(l.path@) && !seen.contains(l.line)
                    && !is_contract_def_line(nodes, ids, p.0, l) {
                    p
                } else {
                    out_internal_from(nodes, ids, sn, file, seen, p.0, p.1)
                },
                None => out_internal_from(nodes, ids, sn, file, seen, p.0, p.1),
            }
        }
    }
}

/// Whether the frame at `sn` was entered by an external call (its caller
/// frame runs elsewhere).
pub open spec fn is_external_frame(nodes: Seq<TraceNode>, sn: int) -> bool {
    sn == 0 || nodes[sn - 1].address != nodes[sn].address
}

/// Where `step_out` moves from frame `sn`, step `ss`.
pub open spec fn out_target(nodes: Seq<TraceNode>, ids: Seq<(Address, String)>, sn: int, ss: int) -> (
    int,
    int,
) {
    if nodes.len() == 0 {
        (sn, ss)
    } else if is_external_frame(nodes, sn) {
        out_external_from(nodes, ids, sn, sn, ss)
    } else {
        let sl = loc_at(nodes, sn, ss);
        let file = match sl {
            Some(l) => Some(l.path@),
            None => None,
        };
        let line: i64 = match sl {
            Some(l) => l.line,
            None => 0,
        };
        let lo = if ss - 200 > 0 {
            ss - 200
        } else {
            0
        };
        let seen = scan_function_lines(nodes, sn, file, line, ss - 1, lo, set![line]);
        out_internal_from(nodes, ids, sn, file, seen, sn, ss)
    }
}

/// First index at or after `i` of the breakpoints of the file whose normal
/// path is `key`.
pub open spec fn breakpoint_index_from(bps: Seq<(String, Vec<i64>)>, key: Seq<char>, i: int) -> Option<
    int,
>
    decreases bps.len() - i,
{
    if i >= bps.len() {
        None
    } else if normal_path(bps[i].0@) == key {
        Some(i)
    } else {
        breakpoint_index_from(bps, key, i + 1)
    }
}

/// The breakpoint lines set for file `path`, whichever spelling of the same
/// path they were set under.
pub open spec fn breakpoint_lines(bps: Seq<(String, Vec<i64>)>, path: Seq<char>) -> Option<Seq<i64>> {
    match breakpoint_index_from(bps, normal_path(path), 0) {
        Some(k) => Some(bps[k].1@),
        None => None,
    }
}

/// No two entries of the breakpoints are for the same file.
pub open spec fn distinct_files(bps: Seq<(String, Vec<i64>)>) -> bool {
    forall|i: int, j: int|
        0 <= i < j < bps.len() ==> normal_path(#[trigger] bps[i].0@) != normal_path(#[trigger] bps[j].0@)
}

/// No address is identified twice.
pub open spec fn distinct_addresses(ids: Seq<(Address, String)>) -> bool {
    forall|i: int, j: int| 0 <= i < j < ids.len() ==> (#[trigger] ids[i]).0 != (#[trigger] ids[j]).0
}

/// A breakpoint is set at `loc`.
pub open spec fn hits_breakpoint(bps: Seq<(String, Vec<i64>)>, loc: Option<SourceLocation>) -> bool {
    match loc {
        Some(l) => match breakpoint_lines(bps, l.path@) {
            Some(lines) => lines.contains(l.line),
            None => false,
        },
        None => false,
    }
}

/// Continue: from frame `n`, step `s`, the first later position at a
/// breakpoint, or the end.
pub open spec fn continue_from(
    nodes: Seq<TraceNode>,
    bps: Seq<(String, Vec<i64>)>,
    n: int,
    s: int,
) -> (int, int, StopReason)
    decreases total(nodes) - pos(nodes, n, s),
{
    if !valid_pos(nodes, n, s) || at_end(nodes, n, s) {
        (n, s, StopReason::End)
    } else {
        let p = forward(nodes, n, s);
        proof {
            lemma_forward(nodes, n, s);
            lemma_pos_bounds(nodes, p.0, p.1);
        }
        if hits_breakpoint(bps, loc_at(nodes, p.0, p.1)) {
            (p.0, p.1, StopReason::Breakpoint)
        } else {
            continue_from(nodes, bps, p.0, p.1)
        }
    }
}

// ===================== Lemmas on positions =====================

pub proof fn lemma_offset_mono(nodes: Seq<TraceNode>, a: int, b: int)
    requires
        0 <= a <= b,
    ensures
        offset(nodes, a) <= offset(nodes, b),
        a < b ==> offset(nodes, a) + width(nodes, a) <= offset(nodes, b),
        offset(nodes, a) >= 0,
    decreases b,
{
    if a < b {
        lemma_offset_mono(nodes, a, b - 1);
    }
    lemma_offset_nonneg(nodes, a);
}

pub proof fn lemma_offset_nonneg(nodes: Seq<TraceNode>, k: int)
    ensures
        offset(nodes, k) >= 0,
    decreases k,
{
    if k > 0 {
        lemma_offset_nonneg(nodes, k - 1);
    }
}

pub proof fn lemma_pos_bounds(nodes: Seq<TraceNode>, n: int, s: int)
    ensures
        valid_pos(nodes, n, s) ==> 0 <= pos(nodes, n, s) < total(nodes),
{
    if valid_pos(nodes, n, s) {
        lemma_offset_mono(nodes, n, nodes.len() as int);
        if n + 1 < nodes.len() {
            lemma_offset_mono(nodes, n + 1, nodes.len() as int);
        }
    }
}

/// Distinct positions have distinct indices on the timeline.
pub proof fn lemma_pos_injective(nodes: Seq<TraceNode>, n1: int, s1: int, n2: int, s2: int)
    requires
        valid_pos(nodes, n1, s1),
        valid_pos(nodes, n2, s2),
        pos(nodes, n1, s1) == pos(nodes, n2, s2),
    ensures
        n1 == n2,
        s1 == s2,
{
    if n1 < n2 {
        lemma_offset_mono(nodes, n1, n2);
    } else if n2 < n1 {
        lemma_offset_mono(nodes, n2, n1);
    }
}

/// The end is the last position of the timeline.
pub proof fn lemma_at_end_pos(nodes: Seq<TraceNode>, n: int, s: int)
    requires
        valid_pos(nodes, n, s),
    ensures
        at_end(nodes, n, s) <==> pos(nodes, n, s) == total(nodes) - 1,
{
    let len = nodes.len() as int;
    if n < len - 1 {
        lemma_offset_mono(nodes, n + 1, len - 1);
        lemma_offset_mono(nodes, 0, n);
    }
}

/// Away from the end, `forward` moves to the next position of the timeline.
pub proof fn lemma_forward(nodes: Seq<TraceNode>, n: int, s: int)
    requires
        valid_pos(nodes, n, s),
        !at_end(nodes, n, s),
    ensures
        valid_pos(nodes, forward(nodes, n, s).0, forward(nodes, n, s).1),
        pos(nodes, forward(nodes, n, s).0, forward(nodes, n, s).1) == pos(nodes, n, s) + 1,
{
    lemma_at_end_pos(nodes, n, s);
    lemma_pos_bounds(nodes, n, s);
}

/// Away from the start, `backward` moves to the previous position of the timeline.
pub proof fn lemma_backward(nodes: Seq<TraceNode>, n: int, s: int)
    requires
        valid_pos(nodes, n, s),
        !(n == 0 && s == 0),
    ensures
        valid_pos(nodes, backward(nodes, n, s).0, backward(nodes, n, s).1),
        pos(nodes, backward(nodes, n, s).0, backward(nodes, n, s).1) == pos(nodes, n, s) - 1,
{
}

pub proof fn lemma_skip_from(nodes: Seq<TraceNode>, parent: int, n: int, s: int)
    requires
        valid_pos(nodes, n, s),
    ensures
        valid_pos(nodes, skip_from(nodes, parent, n, s).0, skip_from(nodes, parent, n, s).1),
        pos(nodes, skip_from(nodes, parent, n, s).0, skip_from(nodes, parent, n, s).1) >= pos(
            nodes,
            n,
            s,
        ),
    decreases total(nodes) - pos(nodes, n, s),
{
    if !at_end(nodes, n, s) && 0 <= parent < nodes.len() {
        let p = forward(nodes, n, s);
        lemma_forward(nodes, n, s);
        lemma_pos_bounds(nodes, p.0, p.1);
        if !(p.0 > parent && nodes[p.0].address == nodes[parent].address) {
            lemma_skip_from(nodes, parent, p.0, p.1);
        }
    }
}


/// Skipping a call lands in a frame after `parent` at `parent`'s address, or
/// at the end of the trace.
proof fn lemma_skip_lands(nodes: Seq<TraceNode>, parent: int, n: int, s: int)
    requires
        valid_pos(nodes, n, s),
        0 <= parent < nodes.len(),
    ensures
        ({
            let q = skip_from(nodes, parent, n, s);
            at_end(nodes, q.0, q.1) || (q.0 > parent && nodes[q.0].address
                == nodes[parent].address)
        }),
    decreases total(nodes) - pos(nodes, n, s),
{
    if !at_end(nodes, n, s) {
        let p = forward(nodes, n, s);
        lemma_forward(nodes, n, s);
        lemma_pos_bounds(nodes, p.0, p.1);
        if !(p.0 > parent && nodes[p.0].address == nodes[parent].address) {
            lemma_skip_lands(nodes, parent, p.0, p.1);
        }
    }
}

// ===================== The session =====================

pub open spec fn file_view(f: Option<String>) -> Option<Seq<char>> {
    match f {
        Some(s) => Some(s@),
        None => None,
    }
}

/// The name under which the contract at `a` is identified.
pub fn contract_name_for(ids: &Vec<(Address, String)>, a: Address) -> (r: Option<&String>)
    ensures
        match r {
            Some(x) => contract_name_of(ids@, a) == Some(x@),
            None => contract_name_of(ids@, a) is None,
        },
{
    let mut i: usize = 0;
    while i < ids.len()
        invariant
            i <= ids@.len(),
            contract_index_from(ids@, a, i as int) == contract_index_from(ids@, a, 0),
        decreases ids.len() - i,
    {
        if ids[i].0 == a {
            return Some(&ids[i].1);
        }
        i = i + 1;
    }
    None
}

/// Whether `v` holds `x`.
pub fn contains_i64(v: &Vec<i64>, x: i64) -> (r: bool)
    ensures
        r == v@.contains(x),
{
    let mut i: usize = 0;
    while i < v.len()
        invariant
            i <= v@.len(),
            forall|j: int| 0 <= j < i ==> v@[j] != x,
        decreases v.len() - i,
    {
        if v[i] == x {
            return true;
        }
        i = i + 1;
    }
    false
}

impl DebugSession {
    /// The position is a position of the trace (the first one when the trace is empty).
    /// The position lies in the trace (or is the start of an empty trace),
    /// no file has two breakpoint entries, and no address is identified twice.
    pub open spec fn wf(&self) -> bool {
        &&& if self.debug_arena@.len() == 0 {
            self.current_node == 0 && self.current_step == 0
        } else {
            valid_pos(self.debug_arena@, self.current_node as int, self.current_step as int)
        }
        &&& distinct_files(self.source_breakpoints@)
        &&& distinct_addresses(self.identified_contracts@)
    }

    pub open spec fn position(&self) -> (int, int) {
        (self.current_node as int, self.current_step as int)
    }

    /// Everything but the position is the same in `self` and `other`.
    pub open spec fn same_but_position(&self, other: &DebugSession) -> bool {
        &&& self.debug_arena == other.debug_arena
        &&& self.identified_contracts == other.identified_contracts
        &&& self.source_breakpoints == other.source_breakpoints
        &&& self.launch_config == other.launch_config
        &&& self.storage_layouts == other.storage_layouts
        &&& self.method_identifiers == other.method_identifiers
        &&& self.function_params == other.function_params
        &&& self.event_signatures == other.event_signatures
    }

    pub fn new(ctx: DebuggerContext, config: LaunchConfig) -> (r: Self)
        requires
            distinct_addresses(ctx.identified_contracts@),
        ensures
            r.wf(),
            r.position() == (0int, 0int),
            r.debug_arena == ctx.debug_arena,
            r.identified_contracts == ctx.identified_contracts,
            r.storage_layouts == ctx.storage_layouts,
            r.method_identifiers == ctx.method_identifiers,
            r.function_params == ctx.function_params,
            r.event_signatures == ctx.event_signatures,
            r.source_breakpoints@.len() == 0,
            r.launch_config == config,
    {
        Self {
            debug_arena: ctx.debug_arena,
            identified_contracts: ctx.identified_contracts,
            storage_layouts: ctx.storage_layouts,
            method_identifiers: ctx.method_identifiers,
            function_params: ctx.function_params,
            event_signatures: ctx.event_signatures,
            current_node: 0,
            current_step: 0,
            source_breakpoints: Vec::new(),
            launch_config: config,
        }
    }

    /// The session that restarting `previous` on the newly recorded trace
    /// `ctx` gives: it starts over at the beginning, with the launch
    /// configuration and the breakpoints of `previous`.
    pub fn restarted(ctx: DebuggerContext, previous: DebugSession) -> (r: Self)
        requires
            previous.wf(),
            distinct_addresses(ctx.identified_contracts@),
        ensures
            r.wf(),
            r.position() == (0int, 0int),
            r.debug_arena == ctx.debug_arena,
            r.identified_contracts == ctx.identified_contracts,
            r.storage_layouts == ctx.storage_layouts,
            r.method_identifiers == ctx.method_identifiers,
            r.function_params == ctx.function_params,
            r.event_signatures == ctx.event_signatures,
            r.source_breakpoints == previous.source_breakpoints,
            r.launch_config == previous.launch_config,
    {
        let mut r = Self::new(ctx, previous.launch_config);
        r.source_breakpoints = previous.source_breakpoints;
        r
    }

    pub fn current_debug_node(&self) -> (r: Option<&TraceNode>)
        ensures
            match r {
                Some(x) => self.current_node < self.debug_arena@.len() && *x
                    == self.debug_arena@[self.current_node as int],
                None => self.current_node >= self.debug_arena@.len(),
            },
    {
        if self.current_node < self.debug_arena.len() {
            Some(&self.debug_arena[self.current_node])
        } else {
            None
        }
    }

    pub fn current_trace_step(&self) -> (r: Option<&TraceStep>)
        ensures
            match r {
                Some(x) => self.current_node < self.debug_arena@.len() && self.current_step
                    < step_count(self.debug_arena@, self.current_node as int) && *x
                    == self.debug_arena@[self.current_node as int].steps@[self.current_step as int],
                None => !(self.current_node < self.debug_arena@.len() && self.current_step
                    < step_count(self.debug_arena@, self.current_node as int)),
            },
    {
        match self.current_debug_node() {
            Some(node) => if self.current_step < node.steps.len() {
                Some(&node.steps[self.current_step])
            } else {
                None
            },
            None => None,
        }
    }

    pub fn current_address(&self) -> (r: Option<Address>)
        ensures
            match r {
                Some(a) => self.current_node < self.debug_arena@.len() && a
                    == self.debug_arena@[self.current_node as int].address,
                None => self.current_node >= self.debug_arena@.len(),
            },
    {
        match self.current_debug_node() {
            Some(node) => Some(node.address),
            None => None,
        }
    }

    pub fn current_contract_name(&self) -> (r: Option<&str>)
        ensures
            match r {
                Some(x) => self.current_node < self.debug_arena@.len() && contract_name_of(
                    self.identified_contracts@,
                    self.debug_arena@[self.current_node as int].address,
                ) == Some(x@),
                None => self.current_node >= self.debug_arena@.len() || contract_name_of(
                    self.identified_contracts@,
                    self.debug_arena@[self.current_node as int].address,
                ) is None,
            },
    {
        match self.current_address() {
            Some(a) => match contract_name_for(&self.identified_contracts, a) {
                Some(name) => Some(name.as_str()),
                None => None,
            },
            None => None,
        }
    }

    pub fn total_nodes(&self) -> (r: usize)
        ensures
            r == self.debug_arena@.len(),
    {
        self.debug_arena.len()
    }

    pub fn current_node_step_count(&self) -> (r: usize)
        ensures
            r == if self.current_node < self.debug_arena@.len() {
                step_count(self.debug_arena@, self.current_node as int)
            } else {
                0
            },
    {
        match self.current_debug_node() {
            Some(n) => n.steps.len(),
            None => 0,
        }
    }

    pub fn is_at_end(&self) -> (r: bool)
        requires
            self.wf(),
        ensures
            r == at_end(self.debug_arena@, self.current_node as int, self.current_step as int),
    {
        if self.debug_arena.len() == 0 {
            return true;
        }
        let count = self.current_node_step_count();
        let last = if count > 0 {
            count - 1
        } else {
            0
        };
        self.current_node >= self.debug_arena.len() - 1 && self.current_step >= last
    }

    /// Advance one instruction; at the end of the trace, stay.
    pub fn step_opcode(&mut self)
        requires
            old(self).wf(),
        ensures
            final(self).wf(),
            final(self).same_but_position(old(self)),
            final(self).position() == forward(
                old(self).debug_arena@,
                old(self).current_node as int,
                old(self).current_step as int,
            ),
    {
        if self.debug_arena.len() == 0 {
            return;
        }
        if self.is_at_end() {
            return;
        }
        proof {
            lemma_forward(self.debug_arena@, self.current_node as int, self.current_step as int);
        }
        let node_steps = self.current_node_step_count();
        if node_steps == 0 {
            if self.current_node + 1 < self.total_nodes() {
                self.current_node = self.current_node + 1;
                self.current_step = 0;
            }
            return;
        }
        if self.current_step + 1 < node_steps {
            self.current_step = self.current_step + 1;
            return;
        }
        if self.current_node + 1 < self.total_nodes() {
            self.current_node = self.current_node + 1;
            self.current_step = 0;
        }
    }

    /// Go back one instruction; at the start of the trace, stay.
    pub fn step_back_opcode(&mut self)
        requires
            old(self).wf(),
        ensures
            final(self).wf(),
            final(self).same_but_position(old(self)),
            final(self).position() == backward(
                old(self).debug_arena@,
                old(self).current_node as int,
                old(self).current_step as int,
            ),
    {
        if self.debug_arena.len() == 0 {
            return;
        }
        if self.current_node == 0 && self.current_step == 0 {
            return;
        }
        proof {
            lemma_backward(self.debug_arena@, self.current_node as int, self.current_step as int);
        }
        if self.current_step > 0 {
            self.current_step = self.current_step - 1;
            return;
        }
        if self.current_node > 0 {
            self.current_node = self.current_node - 1;
            let prev_steps = self.current_node_step_count();
            self.current_step = if prev_steps > 0 {
                prev_steps - 1
            } else {
                0
            };
        }
    }

    fn current_location(&self) -> (r: Option<&SourceLocation>)
        ensures
            match r {
                Some(l) => loc_at(
                    self.debug_arena@,
                    self.current_node as int,
                    self.current_step as int,
                ) == Some(*l),
                None => loc_at(
                    self.debug_arena@,
                    self.current_node as int,
                    self.current_step as int,
                ) is None,
            },
    {
        match self.current_trace_step() {
            Some(step) => match &step.location {
                Some(l) => Some(l),
                None => None,
            },
            None => None,
        }
    }

    pub fn current_source_location(&self) -> (r: Option<SourceLocation>)
        ensures
            r == loc_at(self.debug_arena@, self.current_node as int, self.current_step as int),
    {
        match self.current_location() {
            Some(l) => Some(l.duplicate()),
            None => None,
        }
    }

    /// Check if a source location points to a contract definition line.
    /// The solc source map maps the dispatcher preamble to the `contract X {` line.
    fn is_contract_definition_line(&self, loc: &SourceLocation) -> (r: bool)
        ensures
            r == is_contract_def_line(
                self.debug_arena@,
                self.identified_contracts@,
                self.current_node as int,
                *loc,
            ),
    {
        let node = match self.current_debug_node() {
            Some(n) => n,
            None => return false,
        };
        if node.steps.len() == 0 {
            return false;
        }
        let first_step = &node.steps[0];
        if self.current_contract_name().is_none() {
            return false;
        }
        match &first_step.location {
            Some(first_loc) => first_loc.path == loc.path && first_loc.line == loc.line,
            None => false,
        }
    }

    fn at_new_line_now(&self, start: &Option<SourceLocation>) -> (r: bool)
        ensures
            r == at_new_line(
                self.debug_arena@,
                self.identified_contracts@,
                *start,
                self.current_node as int,
                self.current_step as int,
            ),
    {
        match self.current_location() {
            None => false,
            Some(b) => match start {
                None => !self.is_contract_definition_line(b),
                Some(a) => (!(a.path == b.path) || a.line != b.line)
                    && !self.is_contract_definition_line(b),
            },
        }
    }

    /// Skip forward until we return from a child call back to the parent:
    /// the first later frame that runs at the parent's address.
    fn skip_to_node_return(&mut self, parent_node_idx: usize)
        requires
            old(self).wf(),
            parent_node_idx < old(self).debug_arena@.len(),
        ensures
            final(self).wf(),
            final(self).same_but_position(old(self)),
            final(self).position() == skip_from(
                old(self).debug_arena@,
                parent_node_idx as int,
                old(self).current_node as int,
                old(self).current_step as int,
            ),
    {
        let ghost nodes = self.debug_arena@;
        let ghost target = skip_from(
            nodes,
            parent_node_idx as int,
            self.current_node as int,
            self.current_step as int,
        );
        let parent_address = self.debug_arena[parent_node_idx].address;
        loop
            invariant_except_break
                skip_from(nodes, parent_node_idx as int, self.current_node as int, self.current_step as int) == target,
            invariant
                self.wf(),
                self.same_but_position(old(self)),
                nodes == self.debug_arena@,
                parent_node_idx < nodes.len(),
                parent_address == nodes[parent_node_idx as int].address,
            ensures
                self.wf(),
                self.same_but_position(old(self)),
                self.position() == target,
            decreases total(nodes) - pos(nodes, self.current_node as int, self.current_step as int),
        {
            if self.is_at_end() {
                break;
            }
            proof {
                lemma_forward(nodes, self.current_node as int, self.current_step as int);
                lemma_pos_bounds(nodes, self.current_node as int, self.current_step as int);
            }
            self.step_opcode();
            if self.current_node > parent_node_idx && self.debug_arena[self.current_node].address
                == parent_address {
                break;
            }
        }
    }

    /// Step Over: advance to the next source line WITHOUT entering child calls.
    /// If the current line triggers a CALL, skip over the entire child execution
    /// and stop when we return to the same (or higher) call depth.
    pub fn step_next(&mut self)
        requires
            old(self).wf(),
        ensures
            final(self).wf(),
            final(self).same_but_position(old(self)),
            final(self).position() == over_from(
                old(self).debug_arena@,
                old(self).identified_contracts@,
                old(self).current_node as int,
                loc_at(
                    old(self).debug_arena@,
                    old(self).current_node as int,
                    old(self).current_step as int,
                ),
                old(self).current_node as int,
                old(self).current_step as int,
            ),
    {
        let ghost nodes = self.debug_arena@;
        let ghost ids = self.identified_contracts@;
        let start_node = self.current_node;
        let start_loc = self.current_source_location();
        let ghost target = over_from(
            nodes,
            ids,
            start_node as int,
            start_loc,
            self.current_node as int,
            self.current_step as int,
        );
        loop
            invariant_except_break
                over_from(nodes, ids, start_node as int, start_loc, self.current_node as int, self.current_step as int) == target,
            invariant
                self.wf(),
                self.same_but_position(old(self)),
                nodes == self.debug_arena@,
                ids == self.identified_contracts@,
                nodes.len() > 0 ==> start_node < nodes.len(),
            ensures
                self.wf(),
                self.same_but_position(old(self)),
                self.position() == target,
            decreases total(nodes) - pos(nodes, self.current_node as int, self.current_step as int),
        {
            if self.is_at_end() {
                break;
            }
            let ghost prev = self.position();
            proof {
                lemma_forward(nodes, prev.0, prev.1);
                lemma_pos_bounds(nodes, prev.0, prev.1);
            }
            self.step_opcode();
            proof {
                lemma_pos_bounds(nodes, self.current_node as int, self.current_step as int);
            }
            if self.current_node > start_node {
                proof {
                    lemma_skip_from(nodes, start_node as int, self.current_node as int, self.current_step as int);
                }
                self.skip_to_node_return(start_node);
                proof {
                    lemma_pos_bounds(nodes, self.current_node as int, self.current_step as int);
                }
                if self.is_at_end() {
                    break;
                }
            }
            if self.at_new_line_now(&start_loc) {
                break;
            }
        }
    }

    /// Step Into: advance until entering a new frame (child call).
    /// If the current line doesn't have a CALL, behaves like `step_next`.
    pub fn step_in(&mut self)
        requires
            old(self).wf(),
        ensures
            final(self).wf(),
            final(self).same_but_position(old(self)),
            final(self).position() == into_from(
                old(self).debug_arena@,
                old(self).identified_contracts@,
                old(self).current_node as int,
                loc_at(
                    old(self).debug_arena@,
                    old(self).current_node as int,
                    old(self).current_step as int,
                ),
                old(self).current_node as int,
                old(self).current_step as int,
            ),
    {
        let ghost nodes = self.debug_arena@;
        let ghost ids = self.identified_contracts@;
        let start_node = self.current_node;
        let start_loc = self.current_source_location();
        let ghost target = into_from(
            nodes,
            ids,
            start_node as int,
            start_loc,
            self.current_node as int,
            self.current_step as int,
        );
        loop
            invariant_except_break
                into_from(nodes, ids, start_node as int, start_loc, self.current_node as int, self.current_step as int) == target,
            invariant
                self.wf(),
                self.same_but_position(old(self)),
                nodes == self.debug_arena@,
                ids == self.identified_contracts@,
            ensures
                self.wf(),
                self.same_but_position(old(self)),
                self.position() == target,
            decreases total(nodes) - pos(nodes, self.current_node as int, self.current_step as int),
        {
            if self.is_at_end() {
                break;
            }
            let ghost prev = self.position();
            proof {
                lemma_forward(nodes, prev.0, prev.1);
                lemma_pos_bounds(nodes, prev.0, prev.1);
            }
            self.step_opcode();
            if self.current_node != start_node {
                match self.current_location() {
                    Some(loc) => {
                        if self.is_contract_definition_line(loc) {
                            continue;
                        }
                    },
                    None => {},
                }
                break;
            }
            if self.at_new_line_now(&start_loc) {
                break;
            }
        }
    }


    fn file_matches(file: &Option<String>, loc: &SourceLocation) -> (r: bool)
        ensures
            r == (file_view(*file) == Some(loc.path@)),
    {
        match file {
            Some(f) => *f == loc.path,
            None => false,
        }
    }

    /// The lines of the function containing the current step: see
    /// `scan_function_lines`.
    fn function_lines(&self, file: &Option<String>, start_line: i64) -> (r: Vec<i64>)
        requires
            self.wf(),
            self.debug_arena@.len() > 0,
        ensures
            forall|x: i64|
                r@.contains(x) <==> scan_function_lines(
                    self.debug_arena@,
                    self.current_node as int,
                    file_view(*file),
                    start_line,
                    self.current_step - 1,
                    if self.current_step - 200 > 0 {
                        self.current_step - 200
                    } else {
                        0
                    },
                    set![start_line],
                ).contains(x),
    {
        let ghost nodes = self.debug_arena@;
        let ghost fv = file_view(*file);
        let start_node = self.current_node;
        let start_step = self.current_step;
        let lo: usize = if start_step > 200 {
            start_step - 200
        } else {
            0
        };
        let ghost target = scan_function_lines(
            nodes,
            start_node as int,
            fv,
            start_line,
            start_step - 1,
            lo as int,
            set![start_line],
        );
        let mut seen: Vec<i64> = Vec::new();
        seen.push(start_line);
        let ghost mut gset: Set<i64> = set![start_line];
        assert forall|x: i64| seen@.contains(x) <==> gset.contains(x) by {
            if x == start_line {
                assert(seen@[0] == x);
            }
        }
        let node = &self.debug_arena[start_node];
        let mut i: usize = start_step;
        while i > lo
            invariant_except_break
                scan_function_lines(nodes, start_node as int, fv, start_line, i - 1, lo as int, gset)
                    == target,
            invariant
                nodes == self.debug_arena@,
                fv == file_view(*file),
                start_node < nodes.len(),
                *node == nodes[start_node as int],
                lo <= i <= start_step,
                start_step < width(nodes, start_node as int),
                forall|x: i64| seen@.contains(x) <==> gset.contains(x),
            ensures
                gset == target,
            decreases i,
        {
            let si = i - 1;
            if si < node.steps.len() {
                assert(loc_at(nodes, start_node as int, si as int) == node.steps@[si as int].location);
                match &node.steps[si].location {
                    None => {},
                    Some(l) => {
                        if Self::file_matches(file, l) {
                            let d = l.line as i128 - start_line as i128;
                            if contains_i64(&seen, l.line) || (-30 <= d && d <= 30) {
                                let ghost old_seen = seen@;
                                seen.push(l.line);
                                proof {
                                    let line = l.line;
                                    assert forall|x: i64| seen@.contains(x) <==> gset.insert(
                                        line,
                                    ).contains(x) by {
                                        if x == line {
                                            assert(seen@[old_seen.len() as int] == x);
                                        }
                                        if old_seen.contains(x) {
                                            let j = choose|j: int|
                                                0 <= j < old_seen.len() && old_seen[j] == x;
                                            assert(seen@[j] == x);
                                        }
                                        if seen@.contains(x) && x != line {
                                            let j = choose|j: int|
                                                0 <= j < seen@.len() && seen@[j] == x;
                                            assert(old_seen[j] == x);
                                        }
                                    }
                                    gset = gset.insert(line);
                                }
                            } else {
                                break;
                            }
                        } else {
                            break;
                        }
                    },
                }
            }
            i = i - 1;
        }
        seen
    }

    /// Step Out: return to the caller.
    /// For external calls (CALL/STATICCALL): advance until we return to the caller's frame.
    /// For internal calls (JUMP within same contract): advance until the source location
    /// changes to a line outside the current function.
    pub fn step_out(&mut self)
        requires
            old(self).wf(),
        ensures
            final(self).wf(),
            final(self).same_but_position(old(self)),
            final(self).position() == out_target(
                old(self).debug_arena@,
                old(self).identified_contracts@,
                old(self).current_node as int,
                old(self).current_step as int,
            ),
    {
        if self.debug_arena.len() == 0 {
            return;
        }
        let ghost nodes = self.debug_arena@;
        let ghost ids = self.identified_contracts@;
        let start_node = self.current_node;
        let start_step = self.current_step;
        let start_address = self.debug_arena[start_node].address;
        let start_loc = self.current_source_location();
        let is_external_call = start_node == 0 || self.debug_arena[start_node - 1].address
            != start_address;
        let return_addr = if start_node > 0 {
            self.debug_arena[start_node - 1].address
        } else {
            start_address
        };
        if is_external_call {
            let ghost target = out_external_from(
                nodes,
                ids,
                start_node as int,
                start_node as int,
                start_step as int,
            );
            loop
                invariant_except_break
                    out_external_from(nodes, ids, start_node as int, self.current_node as int, self.current_step as int) == target,
                invariant
                    self.wf(),
                    self.same_but_position(old(self)),
                    nodes == self.debug_arena@,
                    ids == self.identified_contracts@,
                    start_node < nodes.len(),
                    return_addr == return_address(nodes, start_node as int),
                ensures
                    self.wf(),
                    self.same_but_position(old(self)),
                    self.position() == target,
                decreases total(nodes) - pos(nodes, self.current_node as int, self.current_step as int),
            {
                if self.is_at_end() {
                    break;
                }
                let ghost prev = self.position();
                proof {
                    lemma_forward(nodes, prev.0, prev.1);
                    lemma_pos_bounds(nodes, prev.0, prev.1);
                }
                self.step_opcode();
                proof {
                    lemma_pos_bounds(nodes, self.current_node as int, self.current_step as int);
                }
                if self.current_node > start_node {
                    if self.debug_arena[self.current_node].address != return_addr {
                        continue;
                    }
                    match self.current_location() {
                        Some(loc) => {
                            if !self.is_contract_definition_line(loc) {
                                break;
                            }
                        },
                        None => {
                            break;
                        },
                    }
                }
            }
        } else {
            let start_file: Option<String> = match &start_loc {
                Some(l) => Some(l.path.clone()),
                None => None,
            };
            let start_line: i64 = match &start_loc {
                Some(l) => l.line,
                None => 0,
            };
            let ghost fv = file_view(start_file);
            let seen_lines = self.function_lines(&start_file, start_line);
            let ghost seen = scan_function_lines(
                nodes,
                start_node as int,
                fv,
                start_line,
                start_step - 1,
                if start_step - 200 > 0 {
                    start_step - 200
                } else {
                    0
                },
                set![start_line],
            );
            let ghost target = out_internal_from(
                nodes,
                ids,
                start_node as int,
                fv,
                seen,
                start_node as int,
                start_step as int,
            );
            loop
                invariant_except_break
                    out_internal_from(nodes, ids, start_node as int, fv, seen, self.current_node as int, self.current_step as int) == target,
                invariant
                    self.wf(),
                    self.same_but_position(old(self)),
                    nodes == self.debug_arena@,
                    ids == self.identified_contracts@,
                    start_node < nodes.len(),
                    fv == file_view(start_file),
                    forall|x: i64| seen_lines@.contains(x) <==> seen.contains(x),
                ensures
                    self.wf(),
                    self.same_but_position(old(self)),
                    self.position() == target,
                decreases total(nodes) - pos(nodes, self.current_node as int, self.current_step as int),
            {
                if self.is_at_end() {
                    break;
                }
                let ghost prev = self.position();
                proof {
                    lemma_forward(nodes, prev.0, prev.1);
                    lemma_pos_bounds(nodes, prev.0, prev.1);
                }
                self.step_opcode();
                proof {
                    lemma_pos_bounds(nodes, self.current_node as int, self.current_step as int);
                }
                if self.current_node != start_node {
                    proof {
                        lemma_skip_from(
                            nodes,
                            start_node as int,
                            self.current_node as int,
                            self.current_step as int,
                        );
                    }
                    self.skip_to_node_return(start_node);
                    proof {
                        lemma_pos_bounds(nodes, self.current_node as int, self.current_step as int);
                    }
                    if self.is_at_end() {
                        break;
                    }
                    continue;
                }
                let stop = match self.current_location() {
                    Some(loc) => Self::file_matches(&start_file, loc) && !contains_i64(
                        &seen_lines,
                        loc.line,
                    ) && !self.is_contract_definition_line(loc),
                    None => false,
                };
                if stop {
                    break;
                }
            }
        }
    }

    pub fn continue_to_breakpoint(&mut self) -> (r: StopReason)
        requires
            old(self).wf(),
        ensures
            final(self).wf(),
            final(self).same_but_position(old(self)),
            (final(self).current_node as int, final(self).current_step as int, r) == continue_from(
                old(self).debug_arena@,
                old(self).source_breakpoints@,
                old(self).current_node as int,
                old(self).current_step as int,
            ),
    {
        let ghost nodes = self.debug_arena@;
        let ghost bps = self.source_breakpoints@;
        let ghost target = continue_from(
            nodes,
            bps,
            self.current_node as int,
            self.current_step as int,
        );
        loop
            invariant
                self.wf(),
                self.same_but_position(old(self)),
                nodes == self.debug_arena@,
                bps == self.source_breakpoints@,
                continue_from(nodes, bps, self.current_node as int, self.current_step as int) == target,
                target == continue_from(
                    old(self).debug_arena@,
                    old(self).source_breakpoints@,
                    old(self).current_node as int,
                    old(self).current_step as int,
                ),
            decreases total(nodes) - pos(nodes, self.current_node as int, self.current_step as int),
        {
            if self.is_at_end() {
                return StopReason::End;
            }
            let ghost prev = self.position();
            proof {
                lemma_forward(nodes, prev.0, prev.1);
                lemma_pos_bounds(nodes, prev.0, prev.1);
            }
            self.step_opcode();
            if self.location_hits_breakpoint() {
                return StopReason::Breakpoint;
            }
        }
    }

    /// The breakpoint lines set for file `path`.
    pub fn breakpoint_lines_for(&self, path: &String) -> (r: Option<&Vec<i64>>)
        ensures
            match r {
                Some(lines) => breakpoint_lines(self.source_breakpoints@, path@) == Some(lines@),
                None => breakpoint_lines(self.source_breakpoints@, path@) is None,
            },
    {
        let key = normalize_path(path.as_str());
        let mut i: usize = 0;
        while i < self.source_breakpoints.len()
            invariant
                i <= self.source_breakpoints@.len(),
                key@ == normal_path(path@),
                breakpoint_index_from(self.source_breakpoints@, key@, i as int)
                    == breakpoint_index_from(self.source_breakpoints@, key@, 0),
            decreases self.source_breakpoints.len() - i,
        {
            let k = normalize_path(self.source_breakpoints[i].0.as_str());
            if k == key {
                return Some(&self.source_breakpoints[i].1);
            }
            i = i + 1;
        }
        None
    }

    fn location_hits_breakpoint(&self) -> (r: bool)
        ensures
            r == hits_breakpoint(
                self.source_breakpoints@,
                loc_at(self.debug_arena@, self.current_node as int, self.current_step as int),
            ),
    {
        match self.current_location() {
            Some(loc) => match self.breakpoint_lines_for(&loc.path) {
                Some(lines) => contains_i64(lines, loc.line),
                None => false,
            },
            None => false,
        }
    }

    /// Replace the breakpoints of file `path` by `lines`.
    pub fn set_source_breakpoints(&mut self, path: String, lines: Vec<i64>)
        requires
            old(self).wf(),
        ensures
            final(self).wf(),
            final(self).position() == old(self).position(),
            final(self).debug_arena == old(self).debug_arena,
            final(self).identified_contracts == old(self).identified_contracts,
            final(self).launch_config == old(self).launch_config,
            final(self).storage_layouts == old(self).storage_layouts,
            final(self).method_identifiers == old(self).method_identifiers,
            final(self).function_params == old(self).function_params,
            final(self).event_signatures == old(self).event_signatures,
            breakpoint_lines(final(self).source_breakpoints@, path@) == Some(lines@),
            forall|p: Seq<char>|
                normal_path(p) != normal_path(path@) ==> breakpoint_lines(
                    final(self).source_breakpoints@,
                    p,
                ) == breakpoint_lines(old(self).source_breakpoints@, p),
    {
        let ghost old_bps = self.source_breakpoints@;
        let key = normalize_path(path.as_str());
        let mut i: usize = 0;
        let mut found = false;
        while i < self.source_breakpoints.len()
            invariant_except_break
                !found,
            invariant
                self.source_breakpoints@ == old_bps,
                key@ == normal_path(path@),
                i <= old_bps.len(),
                breakpoint_index_from(old_bps, key@, i as int) == breakpoint_index_from(
                    old_bps,
                    key@,
                    0,
                ),
            ensures
                found ==> i < old_bps.len() && breakpoint_index_from(old_bps, key@, 0) == Some(
                    i as int,
                ),
                !found ==> breakpoint_index_from(old_bps, key@, 0) is None,
            decreases self.source_breakpoints.len() - i,
        {
            let k = normalize_path(self.source_breakpoints[i].0.as_str());
            if k == key {
                found = true;
                break;
            }
            i = i + 1;
        }
        let ghost entry = (path, lines);
        let ghost kv = key@;
        if found {
            self.source_breakpoints.set(i, (path, lines));
            proof {
                let nb = self.source_breakpoints@;
                assert(nb == old_bps.update(i as int, entry));
                lemma_bp_index(old_bps, kv, 0);
                assert forall|j: int| 0 <= j < old_bps.len() implies normal_path(
                    #[trigger] old_bps[j].0@,
                ) == normal_path(nb[j].0@) by {
                    if j == i as int {
                        assert(nb[j] == entry);
                    }
                }
                lemma_bp_same_keys(old_bps, nb, kv, 0);
                assert forall|p: Seq<char>| normal_path(p) != kv implies breakpoint_lines(nb, p)
                    == breakpoint_lines(old_bps, p) by {
                    lemma_bp_same_keys(old_bps, nb, normal_path(p), 0);
                    lemma_bp_index(old_bps, normal_path(p), 0);
                }
                assert forall|a: int, b: int| 0 <= a < b < nb.len() implies normal_path(
                    #[trigger] nb[a].0@,
                ) != normal_path(#[trigger] nb[b].0@) by {
                    assert(normal_path(nb[a].0@) == normal_path(old_bps[a].0@));
                    assert(normal_path(nb[b].0@) == normal_path(old_bps[b].0@));
                    assert(normal_path(old_bps[a].0@) != normal_path(old_bps[b].0@));
                }
            }
        } else {
            self.source_breakpoints.push((path, lines));
            proof {
                let nb = self.source_breakpoints@;
                lemma_bp_index(old_bps, kv, 0);
                lemma_bp_push(old_bps, entry, kv, 0);
                assert forall|p: Seq<char>| normal_path(p) != kv implies breakpoint_lines(nb, p)
                    == breakpoint_lines(old_bps, p) by {
                    lemma_bp_push(old_bps, entry, normal_path(p), 0);
                    lemma_bp_index(old_bps, normal_path(p), 0);
                    match breakpoint_index_from(old_bps, normal_path(p), 0) {
                        Some(k) => {
                            assert(nb[k] == old_bps[k]);
                        },
                        None => {},
                    }
                }
                assert forall|a: int, b: int| 0 <= a < b < nb.len() implies normal_path(
                    #[trigger] nb[a].0@,
                ) != normal_path(#[trigger] nb[b].0@) by {
                    if b == old_bps.len() {
                        assert(nb[b] == entry);
                        assert(nb[a] == old_bps[a]);
                    } else {
                        assert(nb[a] == old_bps[a]);
                        assert(nb[b] == old_bps[b]);
                    }
                }
            }
        }
    }
}

proof fn lemma_bp_index(a: Seq<(String, Vec<i64>)>, p: Seq<char>, i: int)
    requires
        0 <= i,
    ensures
        match breakpoint_index_from(a, p, i) {
            Some(k) => i <= k < a.len() && normal_path(a[k].0@) == p,
            None => forall|j: int| i <= j < a.len() ==> normal_path(#[trigger] a[j].0@) != p,
        },
    decreases a.len() - i,
{
    if i < a.len() && normal_path(a[i].0@) != p {
        lemma_bp_index(a, p, i + 1);
    }
}

proof fn lemma_bp_same_keys(a: Seq<(String, Vec<i64>)>, b: Seq<(String, Vec<i64>)>, p: Seq<char>, i: int)
    requires
        0 <= i,
        a.len() == b.len(),
        forall|j: int| 0 <= j < a.len() ==> normal_path(#[trigger] a[j].0@) == normal_path(b[j].0@),
    ensures
        breakpoint_index_from(a, p, i) == breakpoint_index_from(b, p, i),
    decreases a.len() - i,
{
    if i < a.len() {
        assert(normal_path(a[i].0@) == normal_path(b[i].0@));
        lemma_bp_same_keys(a, b, p, i + 1);
    }
}

proof fn lemma_bp_push(a: Seq<(String, Vec<i64>)>, e: (String, Vec<i64>), p: Seq<char>, i: int)
    requires
        0 <= i <= a.len(),
    ensures
        breakpoint_index_from(a.push(e), p, i) == match breakpoint_index_from(a, p, i) {
            Some(k) => Some(k),
            None => if normal_path(e.0@) == p {
                Some(a.len() as int)
            } else {
                None
            },
        },
    decreases a.len() - i,
{
    if i < a.len() {
        assert(a.push(e)[i] == a[i]);
        lemma_bp_push(a, e, p, i + 1);
    } else {
        assert(a.push(e)[i] == e);
        assert(breakpoint_index_from(a.push(e), p, i + 1) is None);
    }
}

// ===================== Laws =====================

/// Stepping back one instruction undoes stepping forward one instruction,
/// wherever the trace is not at its end.
pub proof fn law_step_back_undoes_step(nodes: Seq<TraceNode>, n: int, s: int)
    requires
        valid_pos(nodes, n, s),
        !at_end(nodes, n, s),
    ensures
        backward(nodes, forward(nodes, n, s).0, forward(nodes, n, s).1) == (n, s),
{
    lemma_forward(nodes, n, s);
    let p = forward(nodes, n, s);
    lemma_pos_bounds(nodes, n, s);
    assert(!(p.0 == 0 && p.1 == 0)) by {
        lemma_offset_mono(nodes, 0, p.0);
    }
    lemma_backward(nodes, p.0, p.1);
    let q = backward(nodes, p.0, p.1);
    lemma_pos_injective(nodes, q.0, q.1, n, s);
}

/// Stepping forward one instruction undoes stepping back one instruction,
/// wherever the trace is not at its start.
pub proof fn law_step_undoes_step_back(nodes: Seq<TraceNode>, n: int, s: int)
    requires
        valid_pos(nodes, n, s),
        !(n == 0 && s == 0),
    ensures
        forward(nodes, backward(nodes, n, s).0, backward(nodes, n, s).1) == (n, s),
{
    lemma_backward(nodes, n, s);
    let q = backward(nodes, n, s);
    lemma_pos_bounds(nodes, n, s);
    lemma_at_end_pos(nodes, q.0, q.1);
    lemma_forward(nodes, q.0, q.1);
    let p = forward(nodes, q.0, q.1);
    lemma_pos_injective(nodes, p.0, p.1, n, s);
}

/// Continuing never moves back, and stops either at a later position whose
/// source line carries a breakpoint, or at the end of the trace.
pub proof fn law_continue_stops_at_breakpoint_or_end(
    nodes: Seq<TraceNode>,
    bps: Seq<(String, Vec<i64>)>,
    n: int,
    s: int,
)
    requires
        valid_pos(nodes, n, s),
    ensures
        ({
            let (n2, s2, r) = continue_from(nodes, bps, n, s);
            &&& valid_pos(nodes, n2, s2)
            &&& pos(nodes, n2, s2) >= pos(nodes, n, s)
            &&& (r is Breakpoint ==> pos(nodes, n2, s2) > pos(nodes, n, s) && hits_breakpoint(
                bps,
                loc_at(nodes, n2, s2),
            ))
            &&& (r is End ==> at_end(nodes, n2, s2))
        }),
    decreases total(nodes) - pos(nodes, n, s),
{
    if !at_end(nodes, n, s) {
        lemma_forward(nodes, n, s);
        let p = forward(nodes, n, s);
        lemma_pos_bounds(nodes, p.0, p.1);
        lemma_pos_bounds(nodes, n, s);
        if !hits_breakpoint(bps, loc_at(nodes, p.0, p.1)) {
            law_continue_stops_at_breakpoint_or_end(nodes, bps, p.0, p.1);
        }
    }
}

/// Stepping over from frame `sn` ends on a source line other than the start
/// line `sl`, in frame `sn`, an earlier frame or a frame of the same
/// contract that `sn`'s calls returned to, never inside a call it made to
/// another contract; or at the end of the trace. It never moves back.
pub proof fn law_step_over_reaches_new_line(
    nodes: Seq<TraceNode>,
    ids: Seq<(Address, String)>,
    sn: int,
    sl: Option<SourceLocation>,
    n: int,
    s: int,
)
    requires
        valid_pos(nodes, n, s),
        0 <= sn < nodes.len(),
    ensures
        ({
            let q = over_from(nodes, ids, sn, sl, n, s);
            &&& valid_pos(nodes, q.0, q.1)
            &&& pos(nodes, q.0, q.1) >= pos(nodes, n, s)
            &&& (at_end(nodes, q.0, q.1) || at_new_line(nodes, ids, sl, q.0, q.1))
            &&& (at_end(nodes, q.0, q.1) || q.0 <= sn || nodes[q.0].address
                == nodes[sn].address)
        }),
    decreases total(nodes) - pos(nodes, n, s),
{
    lemma_pos_bounds(nodes, n, s);
    if !at_end(nodes, n, s) {
        let p = forward(nodes, n, s);
        lemma_forward(nodes, n, s);
        lemma_pos_bounds(nodes, p.0, p.1);
        if p.0 > sn {
            let q = skip_from(nodes, sn, p.0, p.1);
            lemma_skip_from(nodes, sn, p.0, p.1);
            lemma_skip_lands(nodes, sn, p.0, p.1);
            lemma_pos_bounds(nodes, q.0, q.1);
            if !(at_end(nodes, q.0, q.1) || at_new_line(nodes, ids, sl, q.0, q.1)) {
                law_step_over_reaches_new_line(nodes, ids, sn, sl, q.0, q.1);
            }
        } else if !at_new_line(nodes, ids, sl, p.0, p.1) {
            law_step_over_reaches_new_line(nodes, ids, sn, sl, p.0, p.1);
        }
    }
}

/// Stepping into from frame `sn` ends on a source line other than the start
/// line `sl` in frame `sn`, or at the first position of another frame that
/// is not its contract's definition line (such as the first line of a
/// called function), or at the end of the trace. It never moves back.
pub proof fn law_step_in_stops_at_new_line_or_call(
    nodes: Seq<TraceNode>,
    ids: Seq<(Address, String)>,
    sn: int,
    sl: Option<SourceLocation>,
    n: int,
    s: int,
)
    requires
        valid_pos(nodes, n, s),
    ensures
        ({
            let q = into_from(nodes, ids, sn, sl, n, s);
            &&& valid_pos(nodes, q.0, q.1)
            &&& pos(nodes, q.0, q.1) >= pos(nodes, n, s)
            &&& (at_end(nodes, q.0, q.1) || (q.0 == sn && at_new_line(nodes, ids, sl, q.0, q.1))
                || (q.0 != sn && match loc_at(nodes, q.0, q.1) {
                Some(l) => !is_contract_def_line(nodes, ids, q.0, l),
                None => true,
            }))
        }),
    decreases total(nodes) - pos(nodes, n, s),
{
    lemma_pos_bounds(nodes, n, s);
    if !at_end(nodes, n, s) {
        let p = forward(nodes, n, s);
        lemma_forward(nodes, n, s);
        lemma_pos_bounds(nodes, p.0, p.1);
        if p.0 != sn {
            match loc_at(nodes, p.0, p.1) {
                Some(l) => if is_contract_def_line(nodes, ids, p.0, l) {
                    law_step_in_stops_at_new_line_or_call(nodes, ids, sn, sl, p.0, p.1);
                },
                None => {},
            }
        } else if !at_new_line(nodes, ids, sl, p.0, p.1) {
            law_step_in_stops_at_new_line_or_call(nodes, ids, sn, sl, p.0, p.1);
        }
    }
}

/// The scan of a function's lines keeps the lines already known.
proof fn lemma_scan_keeps(
    nodes: Seq<TraceNode>,
    sn: int,
    file: Option<Seq<char>>,
    start_line: i64,
    si: int,
    lo: int,
    seen: Set<i64>,
)
    ensures
        seen.subset_of(scan_function_lines(nodes, sn, file, start_line, si, lo, seen)),
    decreases si - lo + 1,
{
    if !(si < lo || si < 0) {
        match loc_at(nodes, sn, si) {
            None => lemma_scan_keeps(nodes, sn, file, start_line, si - 1, lo, seen),
            Some(l) => if file == Some(l.path@) && (seen.contains(l.line) || within_30(
                l.line,
                start_line,
            )) {
                lemma_scan_keeps(nodes, sn, file, start_line, si - 1, lo, seen.insert(l.line));
            },
        }
    }
}

/// Stepping out of an external call stops in a later frame at the caller's
/// address, off its contract definition line, or at the end.
proof fn lemma_out_external(
    nodes: Seq<TraceNode>,
    ids: Seq<(Address, String)>,
    sn: int,
    n: int,
    s: int,
)
    requires
        valid_pos(nodes, n, s),
        0 <= sn < nodes.len(),
    ensures
        ({
            let q = out_external_from(nodes, ids, sn, n, s);
            &&& valid_pos(nodes, q.0, q.1)
            &&& pos(nodes, q.0, q.1) >= pos(nodes, n, s)
            &&& (at_end(nodes, q.0, q.1) || (q.0 > sn && nodes[q.0].address
                == return_address(nodes, sn)))
        }),
    decreases total(nodes) - pos(nodes, n, s),
{
    lemma_pos_bounds(nodes, n, s);
    if !at_end(nodes, n, s) {
        let p = forward(nodes, n, s);
        lemma_forward(nodes, n, s);
        lemma_pos_bounds(nodes, p.0, p.1);
        if p.0 > sn && nodes[p.0].address == return_address(nodes, sn) {
            match loc_at(nodes, p.0, p.1) {
                Some(l) => if is_contract_def_line(nodes, ids, p.0, l) {
                    lemma_out_external(nodes, ids, sn, p.0, p.1);
                },
                None => {},
            }
        } else {
            lemma_out_external(nodes, ids, sn, p.0, p.1);
        }
    }
}

/// Stepping out of an internal call stops in the start frame on a line of
/// `file` outside `seen`, or at the end.
proof fn lemma_out_internal(
    nodes: Seq<TraceNode>,
    ids: Seq<(Address, String)>,
    sn: int,
    file: Option<Seq<char>>,
    seen: Set<i64>,
    n: int,
    s: int,
)
    requires
        valid_pos(nodes, n, s),
        0 <= sn < nodes.len(),
    ensures
        ({
            let q = out_internal_from(nodes, ids, sn, file, seen, n, s);
            &&& valid_pos(nodes, q.0, q.1)
            &&& pos(nodes, q.0, q.1) >= pos(nodes, n, s)
            &&& (at_end(nodes, q.0, q.1) || (q.0 == sn && match loc_at(nodes, q.0, q.1) {
                Some(l) => file == Some(l.path@) && !seen.contains(l.line),
                None => false,
            }))
        }),
    decreases total(nodes) - pos(nodes, n, s),
{
    lemma_pos_bounds(nodes, n, s);
    if !at_end(nodes, n, s) {
        let p = forward(nodes, n, s);
        lemma_forward(nodes, n, s);
        lemma_pos_bounds(nodes, p.0, p.1);
        if p.0 != sn {
            let q = skip_from(nodes, sn, p.0, p.1);
            lemma_skip_from(nodes, sn, p.0, p.1);
            lemma_pos_bounds(nodes, q.0, q.1);
            if !at_end(nodes, q.0, q.1) {
                lemma_out_internal(nodes, ids, sn, file, seen, q.0, q.1);
            }
        } else {
            match loc_at(nodes, p.0, p.1) {
                Some(l) => if !(file == Some(l.path@) && !seen.contains(l.line)
                    && !is_contract_def_line(nodes, ids, p.0, l)) {
                    lemma_out_internal(nodes, ids, sn, file, seen, p.0, p.1);
                },
                None => lemma_out_internal(nodes, ids, sn, file, seen, p.0, p.1),
            }
        }
    }
}

/// Stepping out never moves back. Out of a frame entered by an external
/// call, it stops in a later frame of the caller's address; out of an
/// internal call, it stops in the same frame on another line of the same
/// source file; or it stops at the end of the trace.
pub proof fn law_step_out_leaves_the_function(
    nodes: Seq<TraceNode>,
    ids: Seq<(Address, String)>,
    sn: int,
    ss: int,
)
    requires
        valid_pos(nodes, sn, ss),
    ensures
        ({
            let q = out_target(nodes, ids, sn, ss);
            &&& valid_pos(nodes, q.0, q.1)
            &&& pos(nodes, q.0, q.1) >= pos(nodes, sn, ss)
            &&& (at_end(nodes, q.0, q.1) || if is_external_frame(nodes, sn) {
                q.0 > sn && nodes[q.0].address == return_address(nodes, sn)
            } else {
                q.0 == sn && match (loc_at(nodes, sn, ss), loc_at(nodes, q.0, q.1)) {
                    (Some(start), Some(l)) => l.path@ == start.path@ && l.line != start.line,
                    _ => false,
                }
            })
        }),
{
    if is_external_frame(nodes, sn) {
        lemma_out_external(nodes, ids, sn, sn, ss);
    } else {
        let sl = loc_at(nodes, sn, ss);
        let file = match sl {
            Some(l) => Some(l.path@),
            None => None,
        };
        let line: i64 = match sl {
            Some(l) => l.line,
            None => 0,
        };
        let lo = if ss - 200 > 0 {
            ss - 200
        } else {
            0
        };
        let seen = scan_function_lines(nodes, sn, file, line, ss - 1, lo, set![line]);
        lemma_scan_keeps(nodes, sn, file, line, ss - 1, lo, set![line]);
        assert(seen.contains(line));
        lemma_out_internal(nodes, ids, sn, file, seen, sn, ss);
    }
}

/// A position in an earlier frame comes earlier on the timeline.
proof fn lemma_earlier_frame(nodes: Seq<TraceNode>, m: int, t: int, n: int, s: int)
    requires
        valid_pos(nodes, m, t),
        valid_pos(nodes, n, s),
        m < n,
    ensures
        pos(nodes, m, t) < pos(nodes, n, s),
{
    lemma_offset_mono(nodes, m, n);
}

/// Continuing stops at the first later position whose source line carries a
/// breakpoint, in whatever frame: no position strictly between the start
/// and the stop carries one, nor does the end when it stops there.
pub proof fn law_continue_stops_at_first_breakpoint(
    nodes: Seq<TraceNode>,
    bps: Seq<(String, Vec<i64>)>,
    n: int,
    s: int,
)
    requires
        valid_pos(nodes, n, s),
    ensures
        ({
            let (n2, s2, r) = continue_from(nodes, bps, n, s);
            &&& forall|m: int, t: int|
                valid_pos(nodes, m, t) && pos(nodes, n, s) < pos(nodes, m, t) < pos(nodes, n2, s2)
                    ==> !hits_breakpoint(bps, #[trigger] loc_at(nodes, m, t))
            &&& (r is End && pos(nodes, n2, s2) > pos(nodes, n, s) ==> !hits_breakpoint(
                bps,
                loc_at(nodes, n2, s2),
            ))
        }),
    decreases total(nodes) - pos(nodes, n, s),
{
    lemma_pos_bounds(nodes, n, s);
    if !at_end(nodes, n, s) {
        let p = forward(nodes, n, s);
        lemma_forward(nodes, n, s);
        lemma_pos_bounds(nodes, p.0, p.1);
        if !hits_breakpoint(bps, loc_at(nodes, p.0, p.1)) {
            law_continue_stops_at_first_breakpoint(nodes, bps, p.0, p.1);
            law_continue_stops_at_breakpoint_or_end(nodes, bps, p.0, p.1);
            let (n2, s2, r) = continue_from(nodes, bps, p.0, p.1);
            assert forall|m: int, t: int|
                valid_pos(nodes, m, t) && pos(nodes, n, s) < pos(nodes, m, t) < pos(nodes, n2, s2)
                    implies !hits_breakpoint(bps, #[trigger] loc_at(nodes, m, t)) by {
                if pos(nodes, m, t) == pos(nodes, p.0, p.1) {
                    lemma_pos_injective(nodes, m, t, p.0, p.1);
                }
            }
            if r is End && pos(nodes, n2, s2) == pos(nodes, p.0, p.1) {
                lemma_pos_injective(nodes, n2, s2, p.0, p.1);
            }
        }
    }
}

/// Stepping in stops at the first position after the start that is on a
/// new line of the start frame, or that lies in another frame off its
/// contract's definition line: every position passed over is either in the
/// start frame on the start line (or the definition line), or in another
/// frame on that frame's definition line.
pub proof fn law_step_in_stops_at_first_new_line(
    nodes: Seq<TraceNode>,
    ids: Seq<(Address, String)>,
    sn: int,
    sl: Option<SourceLocation>,
    n: int,
    s: int,
)
    requires
        valid_pos(nodes, n, s),
    ensures
        ({
            let q = into_from(nodes, ids, sn, sl, n, s);
            forall|m: int, t: int|
                valid_pos(nodes, m, t) && pos(nodes, n, s) < pos(nodes, m, t) < pos(nodes, q.0, q.1)
                    ==> if m == sn {
                    !at_new_line(nodes, ids, sl, m, t)
                } else {
                    match #[trigger] loc_at(nodes, m, t) {
                        Some(l) => is_contract_def_line(nodes, ids, m, l),
                        None => false,
                    }
                }
        }),
    decreases total(nodes) - pos(nodes, n, s),
{
    lemma_pos_bounds(nodes, n, s);
    if !at_end(nodes, n, s) {
        let p = forward(nodes, n, s);
        lemma_forward(nodes, n, s);
        lemma_pos_bounds(nodes, p.0, p.1);
        let recurse = if p.0 != sn {
            match loc_at(nodes, p.0, p.1) {
                Some(l) => is_contract_def_line(nodes, ids, p.0, l),
                None => false,
            }
        } else {
            !at_new_line(nodes, ids, sl, p.0, p.1)
        };
        if recurse {
            law_step_in_stops_at_first_new_line(nodes, ids, sn, sl, p.0, p.1);
            let q = into_from(nodes, ids, sn, sl, p.0, p.1);
            assert forall|m: int, t: int|
                valid_pos(nodes, m, t) && pos(nodes, n, s) < pos(nodes, m, t) < pos(nodes, q.0, q.1)
                    implies (if m == sn {
                    !at_new_line(nodes, ids, sl, m, t)
                } else {
                    match #[trigger] loc_at(nodes, m, t) {
                        Some(l) => is_contract_def_line(nodes, ids, m, l),
                        None => false,
                    }
                }) by {
                if pos(nodes, m, t) == pos(nodes, p.0, p.1) {
                    lemma_pos_injective(nodes, m, t, p.0, p.1);
                }
            }
        }
    }
}

/// Stepping over stops at the first position after the start, in the start
/// frame or an earlier one, that is on a new line: no position of those
/// frames passed over is on a new line. (Positions in the calls it makes
/// are skipped.)
pub proof fn law_step_over_stops_at_first_new_line(
    nodes: Seq<TraceNode>,
    ids: Seq<(Address, String)>,
    sn: int,
    sl: Option<SourceLocation>,
    n: int,
    s: int,
)
    requires
        valid_pos(nodes, n, s),
        0 <= sn < nodes.len(),
    ensures
        ({
            let q = over_from(nodes, ids, sn, sl, n, s);
            forall|m: int, t: int|
                valid_pos(nodes, m, t) && m <= sn && pos(nodes, n, s) < pos(nodes, m, t) < pos(
                    nodes,
                    q.0,
                    q.1,
                ) ==> !#[trigger] at_new_line(nodes, ids, sl, m, t)
        }),
    decreases total(nodes) - pos(nodes, n, s),
{
    lemma_pos_bounds(nodes, n, s);
    if !at_end(nodes, n, s) {
        let p = forward(nodes, n, s);
        lemma_forward(nodes, n, s);
        lemma_pos_bounds(nodes, p.0, p.1);
        if p.0 > sn {
            let q = over_from(nodes, ids, sn, sl, n, s);
            assert forall|m: int, t: int|
                valid_pos(nodes, m, t) && m <= sn && pos(nodes, n, s) < pos(nodes, m, t) < pos(
                    nodes,
                    q.0,
                    q.1,
                ) implies !#[trigger] at_new_line(nodes, ids, sl, m, t) by {
                lemma_earlier_frame(nodes, m, t, p.0, p.1);
            }
        } else if !at_new_line(nodes, ids, sl, p.0, p.1) {
            law_step_over_stops_at_first_new_line(nodes, ids, sn, sl, p.0, p.1);
            let q = over_from(nodes, ids, sn, sl, p.0, p.1);
            assert forall|m: int, t: int|
                valid_pos(nodes, m, t) && m <= sn && pos(nodes, n, s) < pos(nodes, m, t) < pos(
                    nodes,
                    q.0,
                    q.1,
                ) implies !#[trigger] at_new_line(nodes, ids, sl, m, t) by {
                if pos(nodes, m, t) == pos(nodes, p.0, p.1) {
                    lemma_pos_injective(nodes, m, t, p.0, p.1);
                }
            }
        }
    }
}

/// Steps `j..ss` of frame `sn` that have a location are all in the file of
/// `start` and within 30 lines of its line.
pub open spec fn recent_near_lines(
    nodes: Seq<TraceNode>,
    sn: int,
    start: Option<SourceLocation>,
    j: int,
    ss: int,
) -> bool {
    match start {
        Some(st) => forall|k: int|
            j <= k < ss ==> match #[trigger] loc_at(nodes, sn, k) {
                Some(l) => l.path@ == st.path@ && -30 <= l.line - st.line <= 30,
                None => true,
            },
        None => false,
    }
}

/// The lines that the scan of the function being left collects include
/// every line run since step `j`, when all steps since then lie in the
/// file and within 30 lines of the start line.
proof fn lemma_scan_collects(
    nodes: Seq<TraceNode>,
    sn: int,
    file: Option<Seq<char>>,
    start_line: i64,
    si: int,
    lo: int,
    seen: Set<i64>,
)
    ensures
        forall|j: int|
            0 <= lo <= j <= si && (forall|k: int|
                j <= k <= si ==> match #[trigger] loc_at(nodes, sn, k) {
                    Some(l) => file == Some(l.path@) && -30 <= l.line - start_line <= 30,
                    None => true,
                }) && loc_at(nodes, sn, j) is Some ==> scan_function_lines(
                nodes,
                sn,
                file,
                start_line,
                si,
                lo,
                seen,
            ).contains(loc_at(nodes, sn, j)->0.line),
    decreases si - lo + 1,
{
    if !(si < lo || si < 0) {
        match loc_at(nodes, sn, si) {
            None => lemma_scan_collects(nodes, sn, file, start_line, si - 1, lo, seen),
            Some(l) => if file == Some(l.path@) && (seen.contains(l.line) || within_30(
                l.line,
                start_line,
            )) {
                let seen2 = seen.insert(l.line);
                lemma_scan_collects(nodes, sn, file, start_line, si - 1, lo, seen2);
                lemma_scan_keeps(nodes, sn, file, start_line, si - 1, lo, seen2);
                let res = scan_function_lines(nodes, sn, file, start_line, si, lo, seen);
                assert(res == scan_function_lines(nodes, sn, file, start_line, si - 1, lo, seen2));
                assert forall|j: int|
                    0 <= lo <= j <= si && (forall|k: int|
                        j <= k <= si ==> match #[trigger] loc_at(nodes, sn, k) {
                            Some(l2) => file == Some(l2.path@) && -30 <= l2.line - start_line <= 30,
                            None => true,
                        }) && loc_at(nodes, sn, j) is Some implies res.contains(
                    loc_at(nodes, sn, j)->0.line,
                ) by {
                    if j == si {
                        assert(seen2.contains(l.line));
                    }
                }
            } else {
                let res = scan_function_lines(nodes, sn, file, start_line, si, lo, seen);
                assert forall|j: int|
                    0 <= lo <= j <= si && (forall|k: int|
                        j <= k <= si ==> match #[trigger] loc_at(nodes, sn, k) {
                            Some(l2) => file == Some(l2.path@) && -30 <= l2.line - start_line <= 30,
                            None => true,
                        }) && loc_at(nodes, sn, j) is Some implies res.contains(
                    loc_at(nodes, sn, j)->0.line,
                ) by {
                    assert(match loc_at(nodes, sn, si) {
                        Some(l2) => file == Some(l2.path@) && -30 <= l2.line - start_line <= 30,
                        None => true,
                    });
                }
            },
        }
    }
}

/// Stepping out of an internal call never stops on a line of the function
/// being left: a line that the frame ran in the last 200 steps, when every
/// step since then lies in the start file within 30 lines of the start
/// line. It stops on another line of that file in the same frame, or at the
/// end of the trace.
pub proof fn law_step_out_passes_the_function_lines(
    nodes: Seq<TraceNode>,
    ids: Seq<(Address, String)>,
    sn: int,
    ss: int,
)
    requires
        valid_pos(nodes, sn, ss),
        !is_external_frame(nodes, sn),
    ensures
        ({
            let q = out_target(nodes, ids, sn, ss);
            let lo = if ss - 200 > 0 {
                ss - 200
            } else {
                0
            };
            at_end(nodes, q.0, q.1) || forall|j: int|
                lo <= j < ss && recent_near_lines(nodes, sn, loc_at(nodes, sn, ss), j, ss) ==> match (
                    #[trigger] loc_at(nodes, sn, j),
                    loc_at(nodes, q.0, q.1),
                ) {
                    (Some(a), Some(b)) => b.line != a.line,
                    _ => true,
                }
        }),
{
    let sl = loc_at(nodes, sn, ss);
    let file = match sl {
        Some(l) => Some(l.path@),
        None => None,
    };
    let line: i64 = match sl {
        Some(l) => l.line,
        None => 0,
    };
    let lo = if ss - 200 > 0 {
        ss - 200
    } else {
        0
    };
    let seen = scan_function_lines(nodes, sn, file, line, ss - 1, lo, set![line]);
    lemma_scan_collects(nodes, sn, file, line, ss - 1, lo, set![line]);
    lemma_out_internal(nodes, ids, sn, file, seen, sn, ss);
    let q = out_target(nodes, ids, sn, ss);
    assert(q == out_internal_from(nodes, ids, sn, file, seen, sn, ss));
    if !at_end(nodes, q.0, q.1) {
        assert forall|j: int|
            lo <= j < ss && recent_near_lines(nodes, sn, sl, j, ss) implies match (
                #[trigger] loc_at(nodes, sn, j),
                loc_at(nodes, q.0, q.1),
            ) {
                (Some(a), Some(b)) => b.line != a.line,
                _ => true,
            } by {
            if loc_at(nodes, sn, j) is Some {
                assert forall|k: int| j <= k <= ss - 1 implies match #[trigger] loc_at(nodes, sn, k) {
                    Some(l) => file == Some(l.path@) && -30 <= l.line - line <= 30,
                    None => true,
                } by {}
                assert(seen.contains(loc_at(nodes, sn, j)->0.line));
            }
        }
    }
}

} // verus!
