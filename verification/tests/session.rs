//! Moving through a recorded trace.

use sol_dap::config::{ConfigError, LaunchConfig};
use sol_dap::launch::DebuggerContext;
use sol_dap::session::{DebugSession, StopReason};
use sol_dap::source_map::SourceLocation;
use sol_dap::trace::{Address, TraceNode, TraceStep};
use sol_dap::word::Word;

fn step(line: Option<i64>) -> TraceStep {
    TraceStep {
        pc: 0,
        op: 0x01,
        stack: None,
        memory: None,
        returndata: vec![],
        gas_remaining: 0,
        gas_cost: 0,
        location: line.map(|l| SourceLocation { path: "/p/T.sol".to_string(), line: l, column: 1, length: 1 }),
    }
}

fn node(addr: u64, lines: &[Option<i64>]) -> TraceNode {
    TraceNode {
        address: Address { value: Word::from_u64(addr) },
        kind: "CALL".to_string(),
        is_create: false,
        calldata: vec![],
        steps: lines.iter().map(|l| step(*l)).collect(),
    }
}

fn config(test: Option<&str>, script: Option<&str>) -> LaunchConfig {
    LaunchConfig {
        project_root: "/p".to_string(),
        test: test.map(|s| s.to_string()),
        contract: None,
        script: script.map(|s| s.to_string()),
        sig: None,
        profile: None,
        fork_url: None,
        fork_block_number: None,
        verbosity: None,
    }
}

fn session() -> DebugSession {
    let ctx = DebuggerContext {
        debug_arena: vec![node(1, &[Some(3), Some(4)]), node(2, &[]), node(1, &[Some(5), Some(6), None])],
        identified_contracts: vec![(Address { value: Word::from_u64(1) }, "T".to_string())],
        storage_layouts: vec![],
        method_identifiers: vec![],
        function_params: vec![],
        event_signatures: vec![],
    };
    DebugSession::new(ctx, config(Some("testX"), None))
}

#[test]
fn stepping_forward_then_back_returns() {
    let mut s = session();
    let mut seen = vec![(s.current_node, s.current_step)];
    while !s.is_at_end() {
        s.step_opcode();
        seen.push((s.current_node, s.current_step));
    }
    assert_eq!(seen, vec![(0, 0), (0, 1), (1, 0), (2, 0), (2, 1), (2, 2)]);
    s.step_opcode();
    assert_eq!((s.current_node, s.current_step), (2, 2));
    for expected in seen.iter().rev().skip(1) {
        s.step_back_opcode();
        assert_eq!((s.current_node, s.current_step), *expected);
    }
    s.step_back_opcode();
    assert_eq!((s.current_node, s.current_step), (0, 0));
}

#[test]
fn continue_stops_at_breakpoints_then_at_the_end() {
    let mut s = session();
    s.set_source_breakpoints("/p/T.sol".to_string(), vec![5]);
    assert_eq!(s.breakpoint_lines_for(&"/p/T.sol".to_string()), Some(&vec![5]));
    assert_eq!(s.continue_to_breakpoint(), StopReason::Breakpoint);
    assert_eq!((s.current_node, s.current_step), (2, 0));
    assert_eq!(s.current_source_location().unwrap().line, 5);
    assert_eq!(s.continue_to_breakpoint(), StopReason::End);
    assert!(s.is_at_end());
}

#[test]
fn breakpoints_replace_those_of_the_same_file_only() {
    let mut s = session();
    s.set_source_breakpoints("/p/A.sol".to_string(), vec![1, 2]);
    s.set_source_breakpoints("/p/B.sol".to_string(), vec![3]);
    s.set_source_breakpoints("/p/A.sol".to_string(), vec![7]);
    assert_eq!(s.breakpoint_lines_for(&"/p/A.sol".to_string()), Some(&vec![7]));
    assert_eq!(s.breakpoint_lines_for(&"/p/B.sol".to_string()), Some(&vec![3]));
    assert_eq!(s.breakpoint_lines_for(&"/p/C.sol".to_string()), None);
}

#[test]
fn session_accessors() {
    let s = session();
    assert_eq!(s.total_nodes(), 3);
    assert_eq!(s.current_node_step_count(), 2);
    assert_eq!(s.current_contract_name(), Some("T"));
    assert_eq!(s.current_address(), Some(Address { value: Word::from_u64(1) }));
    assert_eq!(s.current_trace_step().unwrap().location.as_ref().unwrap().line, 3);
}

#[test]
fn launch_config_needs_a_test_or_a_script() {
    assert!(config(Some("t"), None).validate().is_ok());
    assert!(config(None, Some("script/Deploy.s.sol")).validate().is_ok());
    assert_eq!(config(None, None).validate(), Err(ConfigError::MissingTestOrScript));
    assert_eq!(
        ConfigError::MissingTestOrScript.message(),
        "Launch config must specify either 'test' or 'script'"
    );
}

fn calls_session() -> DebugSession {
    let ctx = DebuggerContext {
        debug_arena: vec![
            node(1, &[Some(1), Some(5), Some(6)]),
            node(2, &[Some(20), Some(21)]),
            node(1, &[Some(6), Some(7)]),
        ],
        identified_contracts: vec![
            (Address { value: Word::from_u64(1) }, "T".to_string()),
            (Address { value: Word::from_u64(2) }, "U".to_string()),
        ],
        storage_layouts: vec![],
        method_identifiers: vec![],
        function_params: vec![],
        event_signatures: vec![],
    };
    DebugSession::new(ctx, config(Some("testX"), None))
}

#[test]
fn step_over_moves_to_the_next_line_and_skips_calls() {
    let mut s = calls_session();
    s.step_next();
    assert_eq!((s.current_node, s.current_step), (0, 1));
    s.step_next();
    assert_eq!((s.current_node, s.current_step), (0, 2));
    // Line 6 calls contract U; stepping over never stops inside it.
    s.step_next();
    assert_eq!((s.current_node, s.current_step), (2, 1));
    assert_eq!(s.current_source_location().unwrap().line, 7);
}

#[test]
fn step_in_enters_the_called_contract_past_its_dispatcher() {
    let mut s = calls_session();
    s.step_next();
    s.step_next();
    s.step_in();
    assert_eq!((s.current_node, s.current_step), (1, 1));
    assert_eq!(s.current_source_location().unwrap().line, 21);
    // Out of an external call: back in the caller's contract, past the line of its dispatcher.
    s.step_out();
    assert_eq!((s.current_node, s.current_step), (2, 1));
    assert!(s.is_at_end());
}

#[test]
fn step_out_of_an_external_call_returns_to_the_caller() {
    let ctx = DebuggerContext {
        debug_arena: vec![
            node(1, &[Some(1), Some(5), Some(6)]),
            node(2, &[Some(20), Some(21)]),
            node(1, &[Some(6), Some(7), Some(8)]),
            node(2, &[Some(20), Some(30)]),
        ],
        identified_contracts: vec![
            (Address { value: Word::from_u64(1) }, "T".to_string()),
            (Address { value: Word::from_u64(2) }, "U".to_string()),
        ],
        storage_layouts: vec![],
        method_identifiers: vec![],
        function_params: vec![],
        event_signatures: vec![],
    };
    let mut s = DebugSession::new(ctx, config(Some("testX"), None));
    for _ in 0..4 {
        s.step_opcode();
    }
    assert_eq!((s.current_node, s.current_step), (1, 1));
    s.step_out();
    assert_eq!((s.current_node, s.current_step), (2, 1));
    assert_eq!(s.current_source_location().unwrap().line, 7);
}

#[test]
fn stepping_out_of_an_internal_function() {
    let ctx = DebuggerContext {
        debug_arena: vec![node(1, &[Some(1), Some(2)]), node(1, &[Some(30), Some(31), Some(40), Some(5)])],
        identified_contracts: vec![(Address { value: Word::from_u64(1) }, "T".to_string())],
        storage_layouts: vec![],
        method_identifiers: vec![],
        function_params: vec![],
        event_signatures: vec![],
    };
    let mut s = DebugSession::new(ctx, config(Some("testX"), None));
    for _ in 0..3 {
        s.step_opcode();
    }
    assert_eq!((s.current_node, s.current_step), (1, 1));
    // Lines 30 and 31 belong to the function; line 40 is outside it.
    s.step_out();
    assert_eq!((s.current_node, s.current_step), (1, 2));
    assert_eq!(s.current_source_location().unwrap().line, 40);
}

#[test]
fn breakpoints_match_the_same_path_however_spelled() {
    let mut s = session();
    s.set_source_breakpoints("/p/./T.sol".to_string(), vec![5]);
    assert_eq!(s.breakpoint_lines_for(&"/p/T.sol".to_string()), Some(&vec![5]));
    assert_eq!(s.breakpoint_lines_for(&"/p//T.sol".to_string()), Some(&vec![5]));
    assert_eq!(s.continue_to_breakpoint(), StopReason::Breakpoint);
    assert_eq!(s.current_source_location().unwrap().line, 5);
    s.set_source_breakpoints("/p/T.sol".to_string(), vec![6]);
    assert_eq!(s.breakpoint_lines_for(&"/p/./T.sol".to_string()), Some(&vec![6]));
    assert_eq!(s.breakpoint_lines_for(&"/q/T.sol".to_string()), None);
}

#[test]
fn restarting_keeps_breakpoints_and_starts_over() {
    let mut s = session();
    s.set_source_breakpoints("/p/T.sol".to_string(), vec![6]);
    s.step_opcode();
    s.step_opcode();
    let ctx = DebuggerContext {
        debug_arena: vec![node(1, &[Some(5), Some(6)])],
        identified_contracts: vec![(Address { value: Word::from_u64(1) }, "T".to_string())],
        storage_layouts: vec![],
        method_identifiers: vec![],
        function_params: vec![],
        event_signatures: vec![],
    };
    let mut r = DebugSession::restarted(ctx, s);
    assert_eq!((r.current_node, r.current_step), (0, 0));
    assert_eq!(r.breakpoint_lines_for(&"/p/T.sol".to_string()), Some(&vec![6]));
    assert_eq!(r.launch_config.test.as_deref(), Some("testX"));
    assert_eq!(r.total_nodes(), 1);
    assert_eq!(r.continue_to_breakpoint(), StopReason::Breakpoint);
    assert_eq!((r.current_node, r.current_step), (0, 1));
}
