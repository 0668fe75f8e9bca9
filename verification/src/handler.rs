//! What the debug adapter answers to the requests of the Debug Adapter
//! Protocol: the call stack, the scopes and variables of a frame, and the
//! contents of memory. Sending and receiving the protocol messages is left
//! to the program around the library.

use vstd::prelude::*;
use crate::fmt::{hex_u64_chars, lit_chars, push_chars, push_lit, push_string, string_of};
use crate::launch::StorageLayout;
use crate::locals::{declared_locals, local_value, local_variables, stack_opt_view};
use crate::session::{contract_name_for, contract_name_of, DebugSession};
use crate::source_map::SourceLocation;
use crate::trace::{TraceNode, TraceStep};
use crate::variables::{
    bytes0x, bytes0x_chars, calldata_variables, calldata_vars, chunk, chunk_count,
    context_variables, context_vars, find_key, gas_info_variables, key_index, leaf,
    memory_var, memory_variables, params_view, returndata_var, returndata_variables, stack_var,
    stack_variables, storage_var, storage_variables, trace_writes, vars_view, Variable,
    event_variables, events_upto, event_text, frames_run, index_name,
};
use crate::word::hex_text;

verus! {

// ===================== Stack frames =====================

/// A frame of the call stack as shown to the client.
#[derive(Debug)]
pub struct StackFrame {
    pub id: i64,
    pub name: String,
    /// Absolute path of the frame's source file.
    pub source_path: Option<String>,
    /// The path shown, relative to the project root when it is under it.
    pub source_name: Option<String>,
    pub line: i64,
    pub column: i64,
}

/// The path `path` relative to `root`, as `Path::strip_prefix` computes it.
pub uninterp spec fn relative_path(path: Seq<char>, root: Seq<char>) -> Option<Seq<char>>;

/// `std::path::Path::strip_prefix`: `path` with the leading components of
/// `root` removed, when it lies under `root`.
#[verifier::external_body]
pub(crate) fn strip_path_prefix(path: &str, root: &str) -> (r: Option<String>)
    ensures
        match r {
            Some(p) => relative_path(path@, root@) == Some(p@),
            None => relative_path(path@, root@) is None,
        },
{
    match std::path::Path::new(path).strip_prefix(root) {
        Ok(p) => Some(p.to_string_lossy().to_string()),
        Err(_) => None,
    }
}

/// The location of a step, as path and line.
pub open spec fn path_line(loc: Option<SourceLocation>) -> Option<(Seq<char>, i64)> {
    match loc {
        Some(l) => Some((l.path@, l.line)),
        None => None,
    }
}

/// The first step from `i` on whose source line differs from the line of
/// the first step (or which is mapped at all, when the first is not),
/// looking no further than step 101; 0 when there is none.
pub open spec fn meaningful_from(steps: Seq<TraceStep>, first: Option<(Seq<char>, i64)>, i: int) -> int
    decreases steps.len() - i,
{
    if i < 0 || i >= steps.len() {
        0
    } else {
        let here = match steps[i].location {
            Some(loc) => match first {
                Some(f) => loc.path@ != f.0 || loc.line != f.1,
                None => true,
            },
            None => false,
        };
        if here {
            i
        } else if i > 100 {
            0
        } else {
            meaningful_from(steps, first, i + 1)
        }
    }
}

/// The step of a calling frame that the stack shows: the first one past
/// the dispatcher preamble, which the compiler maps to the contract's
/// definition line.
pub open spec fn meaningful_step(node: TraceNode) -> int {
    meaningful_from(
        node.steps@,
        if node.steps@.len() > 0 {
            path_line(node.steps@[0].location)
        } else {
            None
        },
        1,
    )
}

/// The step of `node` that the call stack shows for it: see
/// `meaningful_step`.
pub fn find_meaningful_step(node: &TraceNode) -> (r: usize)
    ensures
        r as int == meaningful_step(*node),
{
    let ghost first = if node.steps@.len() > 0 {
        path_line(node.steps@[0].location)
    } else {
        None
    };
    let first_loc: Option<&SourceLocation> = if node.steps.len() > 0 {
        match &node.steps[0].location {
            Some(l) => Some(l),
            None => None,
        }
    } else {
        None
    };
    assert(path_line(
        match first_loc {
            Some(l) => Some(*l),
            None => None,
        },
    ) == first);
    let mut i: usize = 1;
    while i < node.steps.len()
        invariant
            1 <= i,
            first == path_line(
                match first_loc {
                    Some(l) => Some(*l),
                    None => None,
                },
            ),
            meaningful_from(node.steps@, first, i as int) == meaningful_step(*node),
            i <= 102,
        decreases node.steps.len() - i,
    {
        match &node.steps[i].location {
            Some(loc) => match first_loc {
                Some(f) => {
                    if loc.path != f.path || loc.line != f.line {
                        return i;
                    }
                },
                None => {
                    return i;
                },
            },
            None => {},
        }
        if i > 100 {
            return 0;
        }
        i = i + 1;
    }
    0
}

/// The view of a frame: id, name, source path and shown name, line, column.
pub open spec fn frame_view(f: StackFrame) -> (
    i64,
    Seq<char>,
    Option<Seq<char>>,
    Option<Seq<char>>,
    i64,
    i64,
) {
    (
        f.id,
        f.name@,
        match f.source_path {
            Some(p) => Some(p@),
            None => None,
        },
        match f.source_name {
            Some(p) => Some(p@),
            None => None,
        },
        f.line,
        f.column,
    )
}

/// The shown step of frame `i`: the current step for the current frame,
/// else the first meaningful one.
pub open spec fn shown_step(s: DebugSession, i: int) -> int {
    if i == s.current_node {
        s.current_step as int
    } else {
        meaningful_step(s.debug_arena@[i])
    }
}

/// The function signature that the call data of a frame selects.
pub open spec fn frame_signature(s: DebugSession, node: TraceNode) -> Option<Seq<char>> {
    if node.calldata@.len() >= 4 {
        match key_index(s.method_identifiers@, bytes0x(node.calldata@.subrange(0, 4)), 0) {
            Some(j) => Some(s.method_identifiers@[j].1@),
            None => None,
        }
    } else {
        None
    }
}

/// Frame `i` as shown, when its shown step exists: `Contract::signature`
/// (or `Contract::KIND`), at the source position of the shown step.
pub open spec fn frame_at(s: DebugSession, i: int) -> Option<
    (i64, Seq<char>, Option<Seq<char>>, Option<Seq<char>>, i64, i64),
> {
    let node = s.debug_arena@[i];
    let k = shown_step(s, i);
    if 0 <= k < node.steps@.len() {
        let contract = match contract_name_of(s.identified_contracts@, node.address) {
            Some(x) => x,
            None => "Unknown"@,
        };
        let name = contract + "::"@ + match frame_signature(s, node) {
            Some(sig) => sig,
            None => node.kind@,
        };
        match node.steps@[k].location {
            Some(loc) => Some(
                (
                    i as i64,
                    name,
                    Some(loc.path@),
                    Some(
                        match relative_path(loc.path@, s.launch_config.project_root@) {
                            Some(p) => p,
                            None => loc.path@,
                        },
                    ),
                    loc.line,
                    loc.column,
                ),
            ),
            None => Some((i as i64, name, None, None, 0, 0)),
        }
    } else {
        None
    }
}

/// The frames among `lo..hi` that are shown, innermost first.
pub open spec fn frames_desc(s: DebugSession, lo: int, hi: int) -> Seq<
    (i64, Seq<char>, Option<Seq<char>>, Option<Seq<char>>, i64, i64),
>
    decreases hi - lo,
{
    if hi <= lo {
        seq![]
    } else {
        (match frame_at(s, hi - 1) {
            Some(f) => seq![f],
            None => seq![],
        }) + frames_desc(s, lo, hi - 1)
    }
}

proof fn lemma_frames_desc_extend(s: DebugSession, lo: int, hi: int)
    requires
        lo < hi,
    ensures
        frames_desc(s, lo, hi) == frames_desc(s, lo + 1, hi) + match frame_at(s, lo) {
            Some(f) => seq![f],
            None => seq![],
        },
    decreases hi - lo,
{
    if lo + 1 < hi {
        lemma_frames_desc_extend(s, lo, hi - 1);
        assert(frames_desc(s, lo, hi) =~= frames_desc(s, lo + 1, hi) + match frame_at(s, lo) {
            Some(f) => seq![f],
            None => seq![],
        });
    } else {
        assert(frames_desc(s, lo + 1, hi) =~= seq![]);
        assert(frames_desc(s, lo, hi - 1) =~= seq![]);
    }
}

/// `count` items of `v` from `start`; all from `start` when `count` is not
/// positive.
pub open spec fn page<T>(v: Seq<T>, start: int, count: int) -> Seq<T> {
    if start >= v.len() {
        seq![]
    } else if count <= 0 || start + count >= v.len() {
        v.skip(start)
    } else {
        v.subrange(start, start + count)
    }
}

/// The items of `v` at positions `start..start + count` (to the end when
/// `count` is not positive).
pub open spec fn window<T>(v: Seq<T>, start: int, count: int) -> Seq<T> {
    let lo = if start < v.len() {
        start
    } else {
        v.len() as int
    };
    let hi = if count <= 0 || start + count >= v.len() {
        v.len() as int
    } else {
        start + count
    };
    v.subrange(lo, if hi < lo { lo } else { hi })
}

/// The number of frames the stack reaches: up to the current one.
pub open spec fn frames_shown(s: DebugSession) -> int {
    if s.current_node + 1 < s.debug_arena@.len() {
        s.current_node + 1
    } else {
        s.debug_arena@.len() as int
    }
}

pub open spec fn start_of(start_frame: Option<i64>) -> int {
    match start_frame {
        Some(x) => if x > 0 {
            x as usize as int
        } else {
            0
        },
        None => 0,
    }
}

/// The call stack: the frames up to the current one, innermost first,
/// paged from `start_frame` (`levels` of them, or all when not positive).
pub open spec fn stack_trace_spec(s: DebugSession, start_frame: Option<i64>, levels: Option<i64>) -> Seq<
    (i64, Seq<char>, Option<Seq<char>>, Option<Seq<char>>, i64, i64),
> {
    page(
        frames_desc(s, 0, frames_shown(s)),
        start_of(start_frame),
        match levels {
            Some(x) => x as int,
            None => 0,
        },
    )
}

/// Frame `i` of the trace, when its shown step exists.
fn frame_of(session: &DebugSession, i: usize) -> (r: Option<StackFrame>)
    requires
        i < session.debug_arena@.len(),
        i <= i64::MAX,
    ensures
        match r {
            Some(f) => frame_at(*session, i as int) == Some(frame_view(f)),
            None => frame_at(*session, i as int) is None,
        },
{
    let node = &session.debug_arena[i];
    let k = if i == session.current_node {
        session.current_step
    } else {
        find_meaningful_step(node)
    };
    if k >= node.steps.len() {
        return None;
    }
    let mut name = match contract_name_for(&session.identified_contracts, node.address) {
        Some(x) => crate::text::str_chars(x.as_str()),
        None => lit_chars("Unknown"),
    };
    push_lit(&mut name, "::");
    let mut sig: Option<&String> = None;
    if node.calldata.len() >= 4 {
        let sel = bytes0x_chars(vstd::slice::slice_subrange(node.calldata.as_slice(), 0, 4));
        let sel_string = string_of(&sel);
        match find_key(&session.method_identifiers, &sel_string) {
            Some(j) => {
                sig = Some(&session.method_identifiers[j].1);
            },
            None => {},
        }
    }
    match sig {
        Some(x) => push_string(&mut name, x),
        None => push_string(&mut name, &node.kind),
    }
    let step = &node.steps[k];
    let frame = match &step.location {
        Some(loc) => {
            let shown = match strip_path_prefix(
                loc.path.as_str(),
                session.launch_config.project_root.as_str(),
            ) {
                Some(p) => p,
                None => loc.path.clone(),
            };
            StackFrame {
                id: i as i64,
                name: string_of(&name),
                source_path: Some(loc.path.clone()),
                source_name: Some(shown),
                line: loc.line,
                column: loc.column,
            }
        },
        None => StackFrame {
            id: i as i64,
            name: string_of(&name),
            source_path: None,
            source_name: None,
            line: 0,
            column: 0,
        },
    };
    Some(frame)
}

/// The call stack shown for a `stackTrace` request.
pub fn stack_trace(session: &DebugSession, start_frame: Option<i64>, levels: Option<i64>) -> (r: Vec<
    StackFrame,
>)
    requires
        session.debug_arena@.len() <= i64::MAX,
    ensures
        r@.map_values(|f: StackFrame| frame_view(f)) == stack_trace_spec(*session, start_frame, levels),
{
    let m = if session.current_node < session.debug_arena.len() {
        session.current_node + 1
    } else {
        session.debug_arena.len()
    };
    let start: usize = match start_frame {
        Some(x) => if x > 0 {
            x as usize
        } else {
            0
        },
        None => 0,
    };
    let lv: i64 = match levels {
        Some(x) => x,
        None => 0,
    };
    let mut out: Vec<StackFrame> = Vec::new();
    let mut p: usize = 0;
    let mut i: usize = m;
    assert(frames_desc(*session, m as int, m as int) =~= seq![]);
    while i > 0
        invariant
            m == frames_shown(*session),
            m <= session.debug_arena@.len(),
            session.debug_arena@.len() <= i64::MAX,
            i <= m,
            p == frames_desc(*session, i as int, m as int).len(),
            p <= m - i,
            out@.map_values(|f: StackFrame| frame_view(f)) == window(
                frames_desc(*session, i as int, m as int),
                start as int,
                lv as int,
            ),
        decreases i,
    {
        proof {
            lemma_frames_desc_extend(*session, i - 1, m as int);
        }
        let ghost before = frames_desc(*session, i as int, m as int);
        let ghost ob = out@.map_values(|f: StackFrame| frame_view(f));
        match frame_of(session, i - 1) {
            Some(f) => {
                let inside = start <= p && (lv <= 0 || ((p - start) as u64) < (lv as u64));
                assert(inside == (start <= p && (lv <= 0 || p - start < lv)));
                assert(frames_desc(*session, i - 1, m as int) == before.push(frame_view(f)));
                if inside {
                    out.push(f);
                    assert(out@.map_values(|f: StackFrame| frame_view(f)) =~= ob.push(frame_view(out@.last())));
                }
                p = p + 1;
                assert(out@.map_values(|f: StackFrame| frame_view(f)) =~= window(
                    frames_desc(*session, i - 1, m as int),
                    start as int,
                    lv as int,
                ));
            },
            None => {
                assert(frames_desc(*session, i - 1, m as int) =~= before);
            },
        }
        i = i - 1;
    }
    let ghost all = frames_desc(*session, 0, m as int);
    assert(window(all, start as int, lv as int) =~= page(all, start as int, lv as int));
    out
}

// ===================== Scopes and variables =====================

/// A scope of variables of a frame.
#[derive(Debug)]
pub struct Scope {
    pub name: String,
    pub variables_reference: i64,
}

pub open spec fn scope_view(sc: Scope) -> (Seq<char>, i64) {
    (sc.name@, sc.variables_reference)
}

/// The scopes of frame `frame_id`: each kind of variable under a handle
/// whose thousands name the kind and whose units name the frame.
pub open spec fn scopes_spec(frame_id: i64) -> Seq<(Seq<char>, i64)> {
    seq![
        ("Locals"@, (8000 + frame_id) as i64),
        ("Stack"@, (1000 + frame_id) as i64),
        ("Memory"@, (2000 + frame_id) as i64),
        ("Calldata"@, (3000 + frame_id) as i64),
        ("Return Data"@, (4000 + frame_id) as i64),
        ("Gas Info"@, (5000 + frame_id) as i64),
        ("Storage Variables"@, (6000 + frame_id) as i64),
        ("Context"@, (7000 + frame_id) as i64),
        ("Emitted Events"@, (9000 + frame_id) as i64),
    ]
}

fn scope(name: &str, reference: i64) -> (r: Scope)
    ensures
        scope_view(r) == (name@, reference),
{
    let c = lit_chars(name);
    Scope { name: string_of(&c), variables_reference: reference }
}

/// The scopes shown for a `scopes` request on frame `frame_id`.
pub fn scopes(frame_id: i64) -> (r: Vec<Scope>)
    requires
        frame_id <= i64::MAX - 9000,
    ensures
        r@.map_values(|sc: Scope| scope_view(sc)) == scopes_spec(frame_id),
{
    let mut out: Vec<Scope> = Vec::new();
    out.push(scope("Locals", 8000 + frame_id));
    out.push(scope("Stack", 1000 + frame_id));
    out.push(scope("Memory", 2000 + frame_id));
    out.push(scope("Calldata", 3000 + frame_id));
    out.push(scope("Return Data", 4000 + frame_id));
    out.push(scope("Gas Info", 5000 + frame_id));
    out.push(scope("Storage Variables", 6000 + frame_id));
    out.push(scope("Context", 7000 + frame_id));
    out.push(scope("Emitted Events", 9000 + frame_id));
    assert(out@.map_values(|sc: Scope| scope_view(sc)) =~= scopes_spec(frame_id));
    out
}

/// The frame a variables handle names, when it exists.
pub open spec fn handle_node(s: DebugSession, var_ref: i64) -> Option<TraceNode> {
    let fi = var_ref % 1000;
    if 0 <= fi < s.debug_arena@.len() {
        Some(s.debug_arena@[fi as int])
    } else {
        None
    }
}

/// The step shown for that frame: the current one in the current frame,
/// else the first.
pub open spec fn handle_step(s: DebugSession, var_ref: i64) -> Option<TraceStep> {
    let fi = (var_ref % 1000) as int;
    match handle_node(s, var_ref) {
        Some(n) => {
            let k = if fi == s.current_node {
                s.current_step as int
            } else {
                0
            };
            if k < n.steps@.len() {
                Some(n.steps@[k])
            } else {
                None
            }
        },
        None => None,
    }
}

/// The storage layout of the contract identified at the address of `node`.
pub open spec fn node_layout(s: DebugSession, node: TraceNode) -> Option<StorageLayout> {
    let name = match contract_name_of(s.identified_contracts@, node.address) {
        Some(x) => x,
        None => ""@,
    };
    match key_index(s.storage_layouts@, name, 0) {
        Some(j) => Some(s.storage_layouts@[j].1),
        None => None,
    }
}

/// The variables of the scope a handle names. The locals need the text of
/// the source file of the shown step, `source`.
pub open spec fn scope_vars(s: DebugSession, var_ref: i64, source: Option<Seq<char>>) -> Seq<
    (Seq<char>, Seq<char>, Option<Seq<char>>, i64),
> {
    if var_ref <= 0 {
        seq![]
    } else {
        let kind = var_ref / 1000;
        let node = handle_node(s, var_ref);
        let step = handle_step(s, var_ref);
        if kind == 1 && step is Some {
            match step->0.stack {
                Some(st) => Seq::new(st@.len(), |i: int| stack_var(st@, i)),
                None => seq![],
            }
        } else if kind == 2 && step is Some {
            match step->0.memory {
                Some(m) => Seq::new(chunk_count(m@.len()), |i: int| memory_var(m@, i)),
                None => seq![],
            }
        } else if kind == 3 && node is Some {
            let n = node->0;
            let sel = if n.calldata@.len() >= 4 {
                Some(bytes0x(n.calldata@.subrange(0, 4)))
            } else {
                None
            };
            calldata_vars(
                n.calldata@,
                match sel {
                    Some(k) => match key_index(s.function_params@, k, 0) {
                        Some(j) => Some(params_view(s.function_params@[j].1@)),
                        None => None,
                    },
                    None => None,
                },
                match sel {
                    Some(k) => match key_index(s.method_identifiers@, k, 0) {
                        Some(j) => Some(s.method_identifiers@[j].1@),
                        None => None,
                    },
                    None => None,
                },
            )
        } else if kind == 4 && step is Some {
            let d = step->0.returndata@;
            Seq::new(chunk_count(d.len()), |i: int| returndata_var(d, i))
        } else if kind == 5 && step is Some {
            let st = step->0;
            seq![
                leaf("gas_remaining"@, crate::word::dec_text(st.gas_remaining as nat), "uint64"@),
                leaf("gas_cost"@, crate::word::dec_text(st.gas_cost as nat), "uint64"@),
            ]
        } else if kind == 6 && node is Some {
            match node_layout(s, node->0) {
                Some(layout) => Seq::new(
                    layout.storage@.len(),
                    |i: int|
                        storage_var(
                            layout,
                            trace_writes(
                                s.debug_arena@,
                                set![node->0.address],
                                s.current_node as int,
                                s.debug_arena@.len() as int,
                            ),
                            i,
                        ),
                ),
                None => seq![],
            }
        } else if kind == 7 && node is Some {
            context_vars(node->0, s.debug_arena@, step)
        } else if kind == 8 && step is Some {
            match (step->0.location, source) {
                (Some(loc), Some(src)) => {
                    let ls = declared_locals(src, loc.line);
                    Seq::new(
                        ls.len(),
                        |j: int|
                            leaf(ls[j].0, local_value(ls, stack_opt_view(step->0.stack), j), ls[j].2),
                    )
                },
                _ => seq![],
            }
        } else if kind == 9 {
            event_scope_vars(s)
        } else {
            seq![]
        }
    }
}

/// The events emitted up to the current position, one variable each.
pub open spec fn event_scope_vars(s: DebugSession) -> Seq<(Seq<char>, Seq<char>, Option<Seq<char>>, i64)> {
    let evs = events_upto(
        s.debug_arena@,
        s.current_node as int,
        s.current_step as int,
        s.event_signatures@,
        s.identified_contracts@,
        frames_run(s.debug_arena@, s.current_node as int),
    );
    Seq::new(evs.len(), |i: int| leaf("event"@ + index_name(i as nat), event_text(evs[i], true), "event"@))
}

/// The variables of the scope that handle `var_ref` names.
pub fn scope_variables(session: &DebugSession, var_ref: i64, source: Option<&str>) -> (r: Vec<
    Variable,
>)
    requires
        source matches Some(t) ==> 0 < t@.len() < 0x4000_0000_0000_0000,
    ensures
        vars_view(r@) == scope_vars(
            *session,
            var_ref,
            match source {
                Some(t) => Some(t@),
                None => None,
            },
        ),
{
    let empty: Vec<Variable> = Vec::new();
    assert(vars_view(empty@) =~= seq![]);
    if var_ref <= 0 {
        return empty;
    }
    let kind = var_ref / 1000;
    let fi = (var_ref % 1000) as usize;
    let node: Option<&TraceNode> = if fi < session.debug_arena.len() {
        Some(&session.debug_arena[fi])
    } else {
        None
    };
    let step: Option<&TraceStep> = match node {
        Some(n) => {
            let k = if fi == session.current_node {
                session.current_step
            } else {
                0
            };
            if k < n.steps.len() {
                Some(&n.steps[k])
            } else {
                None
            }
        },
        None => None,
    };
    let ghost sn = match node {
        Some(n) => Some(*n),
        None => None,
    };
    let ghost ss = match step {
        Some(x) => Some(*x),
        None => None,
    };
    assert(sn == handle_node(*session, var_ref));
    assert(ss == handle_step(*session, var_ref));
    if kind == 1 && step.is_some() {
        let r = stack_variables(step.unwrap());
        assert(vars_view(r@) =~= scope_vars(*session, var_ref, match source {
            Some(t) => Some(t@),
            None => None,
        }));
        return r;
    }
    if kind == 2 && step.is_some() {
        let r = memory_variables(step.unwrap());
        assert(vars_view(r@) =~= scope_vars(*session, var_ref, match source {
            Some(t) => Some(t@),
            None => None,
        }));
        return r;
    }
    if kind == 3 && node.is_some() {
        let n = node.unwrap();
        let mut params: Option<&Vec<(String, String)>> = None;
        let mut sig: Option<&String> = None;
        if n.calldata.len() >= 4 {
            let sel = bytes0x_chars(vstd::slice::slice_subrange(n.calldata.as_slice(), 0, 4));
            let sel_string = string_of(&sel);
            match find_key(&session.function_params, &sel_string) {
                Some(j) => {
                    params = Some(&session.function_params[j].1);
                },
                None => {},
            }
            match find_key(&session.method_identifiers, &sel_string) {
                Some(j) => {
                    sig = Some(&session.method_identifiers[j].1);
                },
                None => {},
            }
        }
        return calldata_variables(n, params, sig);
    }
    if kind == 4 && step.is_some() {
        let r = returndata_variables(step.unwrap());
        assert(vars_view(r@) =~= scope_vars(*session, var_ref, match source {
            Some(t) => Some(t@),
            None => None,
        }));
        return r;
    }
    if kind == 5 && step.is_some() {
        let r = gas_info_variables(step.unwrap());
        assert(vars_view(r@) =~= scope_vars(*session, var_ref, match source {
            Some(t) => Some(t@),
            None => None,
        }));
        return r;
    }
    if kind == 6 && node.is_some() {
        let n = node.unwrap();
        let name: String = match contract_name_for(&session.identified_contracts, n.address) {
            Some(x) => x.clone(),
            None => String::from_str(""),
        };
        match find_key(&session.storage_layouts, &name) {
            Some(j) => {
                let r = storage_variables(
                    &session.debug_arena,
                    session.current_node,
                    session.current_step,
                    &n.address,
                    &session.storage_layouts[j].1,
                );
                assert(vars_view(r@) =~= scope_vars(*session, var_ref, match source {
                    Some(t) => Some(t@),
                    None => None,
                }));
                return r;
            },
            None => {
                return empty;
            },
        }
    }
    if kind == 7 && node.is_some() {
        return context_variables(node.unwrap(), fi, &session.debug_arena, step);
    }
    if kind == 8 && step.is_some() {
        let st = step.unwrap();
        match (&st.location, source) {
            (Some(loc), Some(src)) => {
                let r = local_variables(src, loc.line, st);
                assert(vars_view(r@) =~= scope_vars(*session, var_ref, match source {
                    Some(t) => Some(t@),
                    None => None,
                }));
                return r;
            },
            _ => {
                return empty;
            },
        }
    }
    if kind == 9 {
        let r = event_variables(
            &session.debug_arena,
            session.current_node,
            session.current_step,
            &session.event_signatures,
            &session.identified_contracts,
        );
        assert(vars_view(r@) =~= scope_vars(*session, var_ref, match source {
            Some(t) => Some(t@),
            None => None,
        }));
        return r;
    }
    empty
}

/// The items of a `variables` response that the client asks for: from
/// `start` (0 when absent or negative), `count` of them when positive,
/// else all the rest.
pub open spec fn variables_page<T>(v: Seq<T>, start: Option<i64>, count: Option<i64>) -> Seq<T> {
    page(
        v,
        start_of(start),
        match count {
            Some(c) => if c > 0 {
                c as usize as int
            } else {
                0
            },
            None => 0,
        },
    )
}

/// The page of `vars` that a `variables` request asks for.
pub fn page_variables(vars: Vec<Variable>, start: Option<i64>, count: Option<i64>) -> (r: Vec<
    Variable,
>)
    ensures
        vars_view(r@) == variables_page(vars_view(vars@), start, count),
{
    let ghost all = vars_view(vars@);
    let from: usize = match start {
        Some(x) => if x > 0 {
            x as usize
        } else {
            0
        },
        None => 0,
    };
    let take: usize = match count {
        Some(c) => if c > 0 {
            c as usize
        } else {
            0
        },
        None => 0,
    };
    let mut rest = vars;
    let mut out: Vec<Variable> = Vec::new();
    let mut j: usize = 0;
    let total = rest.len();
    while rest.len() > 0
        invariant
            rest@.len() + j == total,
            total == all.len(),
            forall|x: int| 0 <= x < rest@.len() ==> (#[trigger] rest@[x])@ == all[j + x],
            vars_view(out@) == window(all.subrange(0, j as int), from as int, take as int),
        decreases rest.len(),
    {
        let v = rest.remove(0);
        let ghost ob = vars_view(out@);
        let inside = from <= j && (take == 0 || j - from < take);
        if inside {
            out.push(v);
            assert(vars_view(out@) =~= ob.push(all[j as int]));
        }
        assert(all.subrange(0, j + 1) =~= all.subrange(0, j as int).push(all[j as int]));
        j = j + 1;
        assert(vars_view(out@) =~= window(all.subrange(0, j as int), from as int, take as int));
    }
    assert(all.subrange(0, total as int) =~= all);
    assert(window(all, from as int, take as int) =~= variables_page(all, start, count));
    out
}

/// The variables that a `variables` request on handle `var_ref` answers.
pub fn variables_for(
    session: &DebugSession,
    var_ref: i64,
    start: Option<i64>,
    count: Option<i64>,
    source: Option<&str>,
) -> (r: Vec<Variable>)
    requires
        source matches Some(t) ==> 0 < t@.len() < 0x4000_0000_0000_0000,
    ensures
        vars_view(r@) == variables_page(
            scope_vars(
                *session,
                var_ref,
                match source {
                    Some(t) => Some(t@),
                    None => None,
                },
            ),
            start,
            count,
        ),
{
    let all = scope_variables(session, var_ref, source);
    page_variables(all, start, count)
}

/// The source location whose file the locals of handle `var_ref` are read
/// from.
pub fn locals_location(session: &DebugSession, var_ref: i64) -> (r: Option<&SourceLocation>)
    ensures
        match r {
            Some(loc) => var_ref > 0 && var_ref / 1000 == 8 && handle_step(*session, var_ref) is Some
                && handle_step(*session, var_ref)->0.location == Some(*loc),
            None => !(var_ref > 0 && var_ref / 1000 == 8 && handle_step(*session, var_ref) is Some
                && handle_step(*session, var_ref)->0.location is Some),
        },
{
    if var_ref <= 0 || var_ref / 1000 != 8 {
        return None;
    }
    let fi = (var_ref % 1000) as usize;
    if fi >= session.debug_arena.len() {
        return None;
    }
    let n = &session.debug_arena[fi];
    let k = if fi == session.current_node {
        session.current_step
    } else {
        0
    };
    if k >= n.steps.len() {
        return None;
    }
    match &n.steps[k].location {
        Some(loc) => Some(loc),
        None => None,
    }
}

// ===================== Memory =====================

/// The base64 digit for `n` < 64.
pub open spec fn b64_digit(n: nat) -> char {
    if n < 26 {
        ((n + 65) as u32) as char
    } else if n < 52 {
        ((n - 26 + 97) as u32) as char
    } else if n < 62 {
        ((n - 52 + 48) as u32) as char
    } else if n == 62 {
        '+'
    } else {
        '/'
    }
}

/// The four characters that encode a group of one to three bytes; a
/// shorter group is padded with `=`.
pub open spec fn b64_group(g: Seq<u8>) -> Seq<char> {
    let b0 = g[0] as nat;
    let b1 = if g.len() > 1 {
        g[1] as nat
    } else {
        0
    };
    let b2 = if g.len() > 2 {
        g[2] as nat
    } else {
        0
    };
    let t = b0 * 65536 + b1 * 256 + b2;
    seq![
        b64_digit((t / 262144) % 64),
        b64_digit((t / 4096) % 64),
        if g.len() > 1 {
            b64_digit((t / 64) % 64)
        } else {
            '='
        },
        if g.len() > 2 {
            b64_digit(t % 64)
        } else {
            '='
        },
    ]
}

/// Group `i` of `d`: bytes `3i .. min(3i + 3, len)`.
pub open spec fn b64_chunk(d: Seq<u8>, i: int) -> Seq<u8> {
    d.subrange(3 * i, if 3 * i + 3 <= d.len() { 3 * i + 3 } else { d.len() as int })
}

/// The base64 text of the first `k` groups of `d`.
pub open spec fn b64_upto(d: Seq<u8>, k: int) -> Seq<char>
    decreases k,
{
    if k <= 0 {
        seq![]
    } else {
        b64_upto(d, k - 1) + b64_group(b64_chunk(d, k - 1))
    }
}

/// Standard base64 (RFC 4648, with padding) of `d`.
pub open spec fn base64(d: Seq<u8>) -> Seq<char> {
    b64_upto(d, ((d.len() + 2) / 3) as int)
}

fn b64_digit_exec(n: u32) -> (r: char)
    requires
        n < 64,
    ensures
        r == b64_digit(n as nat),
{
    if n < 26 {
        ((n + 65) as u8) as char
    } else if n < 52 {
        ((n - 26 + 97) as u8) as char
    } else if n < 62 {
        ((n - 52 + 48) as u8) as char
    } else if n == 62 {
        '+'
    } else {
        '/'
    }
}

/// Base64-encodes `data`.
pub fn base64_encode(data: &[u8]) -> (r: String)
    ensures
        r@ == base64(data@),
{
    let n = data.len();
    let groups = n / 3 + if n % 3 != 0 {
        1
    } else {
        0
    };
    assert(groups == (n + 2) / 3);
    let mut out: Vec<char> = Vec::new();
    let mut i: usize = 0;
    while i < groups
        invariant
            n == data@.len(),
            groups == (n + 2) / 3,
            i <= groups,
            out@ == b64_upto(data@, i as int),
        decreases groups - i,
    {
        assert(3 * i < n) by (nonlinear_arith)
            requires
                i < (n + 2) / 3,
        ;
        let start = 3 * i;
        let len = if n - start >= 3 {
            3
        } else {
            n - start
        };
        let g = vstd::slice::slice_subrange(data, start, start + len);
        assert(g@ == b64_chunk(data@, i as int));
        let b0 = g[0] as u32;
        let b1 = if len > 1 {
            g[1] as u32
        } else {
            0
        };
        let b2 = if len > 2 {
            g[2] as u32
        } else {
            0
        };
        let t = b0 * 65536 + b1 * 256 + b2;
        out.push(b64_digit_exec((t / 262144) % 64));
        out.push(b64_digit_exec((t / 4096) % 64));
        if len > 1 {
            out.push(b64_digit_exec((t / 64) % 64));
        } else {
            out.push('=');
        }
        if len > 2 {
            out.push(b64_digit_exec(t % 64));
        } else {
            out.push('=');
        }
        i = i + 1;
        assert(out@ =~= b64_upto(data@, i as int));
    }
    string_of(&out)
}

/// What a `readMemory` request answers.
#[derive(Debug)]
pub struct MemoryRead {
    /// The start, `0x` and hexadecimal digits.
    pub address: String,
    /// How many of the requested bytes lie past the end of memory.
    pub unreadable_bytes: Option<i64>,
    /// The bytes read, in base64; none when nothing could be read.
    pub data: Option<String>,
}

/// The answer to reading `count` bytes of memory from `offset` at the
/// current step: the range is clipped to the memory; the bytes past its end
/// are counted as unreadable.
pub open spec fn read_memory_spec(s: DebugSession, offset: Option<i64>, count: i64) -> (
    Seq<char>,
    Option<i64>,
    Option<Seq<char>>,
) {
    let cn = s.current_node as int;
    if cn < s.debug_arena@.len() && s.current_step < s.debug_arena@[cn].steps@.len() {
        let st = s.debug_arena@[cn].steps@[s.current_step as int];
        let mem = match st.memory {
            Some(m) => m@,
            None => seq![],
        };
        let off = match offset {
            Some(x) => if x > 0 {
                x as usize as int
            } else {
                0
            },
            None => 0,
        };
        let cnt = if count > 0 {
            count as usize as int
        } else {
            0
        };
        let end = if off + cnt < mem.len() {
            off + cnt
        } else {
            mem.len() as int
        };
        let slice = if off < mem.len() {
            mem.subrange(off, end)
        } else {
            seq![]
        };
        (
            "0x"@ + hex_text(off as nat),
            if end < off + cnt {
                Some((off + cnt - end) as i64)
            } else {
                None
            },
            if slice.len() == 0 {
                None
            } else {
                Some(base64(slice))
            },
        )
    } else {
        ("0x0"@, None, None)
    }
}

/// Reading `count` bytes of memory from `offset` at the current step.
pub fn read_memory(session: &DebugSession, offset: Option<i64>, count: i64) -> (r: MemoryRead)
    requires
        (match offset {
            Some(x) => if x > 0 {
                x as usize as int
            } else {
                0
            },
            None => 0,
        }) + (if count > 0 {
            count as usize as int
        } else {
            0
        }) <= usize::MAX,
    ensures
        (r.address@, r.unreadable_bytes, match r.data {
            Some(d) => Some(d@),
            None => None,
        }) == read_memory_spec(*session, offset, count),
{
    let step = match session.current_trace_step() {
        Some(s) => s,
        None => {
            return MemoryRead { address: String::from_str("0x0"), unreadable_bytes: None, data: None };
        },
    };
    let empty: Vec<u8> = Vec::new();
    let memory: &[u8] = match &step.memory {
        Some(m) => m.as_slice(),
        None => empty.as_slice(),
    };
    let off: usize = match offset {
        Some(x) => if x > 0 {
            x as usize
        } else {
            0
        },
        None => 0,
    };
    let cnt: usize = if count > 0 {
        count as usize
    } else {
        0
    };
    let end = if off + cnt < memory.len() {
        off + cnt
    } else {
        memory.len()
    };
    let data = if off < memory.len() && off < end {
        Some(base64_encode(vstd::slice::slice_subrange(memory, off, end)))
    } else {
        None
    };
    let mut address = lit_chars("0x");
    let h = hex_u64_chars(off as u64);
    push_chars(&mut address, &h);
    let unreadable = if end < off + cnt {
        Some((off + cnt - end) as i64)
    } else {
        None
    };
    MemoryRead { address: string_of(&address), unreadable_bytes: unreadable, data }
}

// ===================== Console output =====================

/// The `console.log` output of the trace, echoed to the client one message
/// each time the debugger stops on a source line that logs.
#[derive(Debug)]
pub struct ConsoleEcho {
    pub logs: Vec<String>,
    /// The next message to echo.
    pub next: usize,
    /// The position of the last echo.
    pub last_position: Option<(String, i64)>,
}

pub open spec fn position_view(p: Option<(String, i64)>) -> Option<(Seq<char>, i64)> {
    match p {
        Some(x) => Some((x.0@, x.1)),
        None => None,
    }
}

/// Stopping at `loc`, whose source line reads `line`, echoes the next
/// message, unless the location is in `forge-std` or the console library,
/// is the one last echoed, or its line does not call `console.log` or
/// `console2.log`; or all messages were echoed.
pub open spec fn echoes(
    next: nat,
    count: nat,
    last: Option<(Seq<char>, i64)>,
    loc: Option<(Seq<char>, i64)>,
    line: Option<Seq<char>>,
) -> bool {
    match (loc, line) {
        (Some(pos), Some(l)) => !crate::text::contains(pos.0, "forge-std"@) && !crate::text::contains(
            pos.0,
            "console.sol"@,
        ) && last != Some(pos) && (crate::text::contains(l, "console.log"@)
            || crate::text::contains(l, "console2.log"@)) && next < count,
        _ => false,
    }
}

/// Line `line` (1-based) of `source`.
pub fn source_line(source: &str, line: i64) -> (r: Option<String>)
    ensures
        match r {
            Some(t) => 0 <= crate::locals::line_index(line) < crate::locals::lines_of(source@).len()
                && t@ == crate::locals::lines_of(source@)[crate::locals::line_index(line)],
            None => !(0 <= crate::locals::line_index(line) < crate::locals::lines_of(source@).len()),
        },
{
    let chars = crate::text::str_chars(source);
    let lines = crate::locals::split_lines(&chars);
    let k: usize = if (line as usize) >= 1 {
        (line as usize) - 1
    } else {
        0
    };
    assert(k == crate::locals::line_index(line));
    if k < lines.len() {
        Some(string_of(&lines[k]))
    } else {
        None
    }
}

impl ConsoleEcho {
    pub fn new(logs: Vec<String>) -> (r: Self)
        ensures
            r.logs@ == logs@,
            r.next == 0,
            r.last_position is None,
    {
        ConsoleEcho { logs, next: 0, last_position: None }
    }

    /// What to echo on stopping at `loc`, whose source line is `line`: the
    /// next message and a line break, as `echoes` decides.
    pub fn on_stop(&mut self, loc: Option<&SourceLocation>, line: Option<&str>) -> (r: Option<String>)
        ensures
            final(self).logs == old(self).logs,
            ({
                let pos = match loc {
                    Some(l) => Some((l.path@, l.line)),
                    None => None,
                };
                let e = echoes(
                    old(self).next as nat,
                    old(self).logs@.len(),
                    position_view(old(self).last_position),
                    pos,
                    match line {
                        Some(t) => Some(t@),
                        None => None,
                    },
                );
                if e {
                    &&& r matches Some(t) && t@ == old(self).logs@[old(self).next as int]@ + "\n"@
                    &&& final(self).next == old(self).next + 1
                    &&& position_view(final(self).last_position) == pos
                } else {
                    &&& r is None
                    &&& final(self).next == old(self).next
                    &&& final(self).last_position == old(self).last_position
                }
            }),
    {
        let l = match loc {
            Some(l) => l,
            None => {
                return None;
            },
        };
        let text = match line {
            Some(t) => t,
            None => {
                return None;
            },
        };
        let path = crate::text::str_chars(l.path.as_str());
        if crate::text::contains_lit(&path, "forge-std") || crate::text::contains_lit(&path, "console.sol") {
            return None;
        }
        match &self.last_position {
            Some(p) => {
                if p.0 == l.path && p.1 == l.line {
                    return None;
                }
            },
            None => {},
        }
        let t = crate::text::str_chars(text);
        if !crate::text::contains_lit(&t, "console.log") && !crate::text::contains_lit(&t, "console2.log") {
            return None;
        }
        if self.next >= self.logs.len() {
            return None;
        }
        let mut msg = crate::text::str_chars(self.logs[self.next].as_str());
        push_lit(&mut msg, "\n");
        self.next = self.next + 1;
        self.last_position = Some((l.path.clone(), l.line));
        Some(string_of(&msg))
    }
}

proof fn lemma_b64_upto_len(d: Seq<u8>, k: int)
    requires
        0 <= k,
    ensures
        b64_upto(d, k).len() == 4 * k,
    decreases k,
{
    if k > 0 {
        lemma_b64_upto_len(d, k - 1);
    }
}

/// Base64 takes four characters for every three bytes or part of three.
pub proof fn law_base64_length(d: Seq<u8>)
    ensures
        base64(d).len() == 4 * ((d.len() + 2) / 3),
{
    lemma_b64_upto_len(d, ((d.len() + 2) / 3) as int);
}

} // verus!
