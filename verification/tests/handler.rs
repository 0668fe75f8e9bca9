//! Answers to the protocol's requests: stack, scopes, variables, memory.

use sol_dap::config::LaunchConfig;
use sol_dap::handler::{
    base64_encode, find_meaningful_step, page_variables, read_memory, scopes, source_line,
    stack_trace, variables_for, ConsoleEcho,
};
use sol_dap::launch::DebuggerContext;
use sol_dap::session::DebugSession;
use sol_dap::source_map::SourceLocation;
use sol_dap::trace::{Address, TraceNode, TraceStep};
use sol_dap::variables::Variable;
use sol_dap::word::Word;

fn loc(path: &str, line: i64) -> Option<SourceLocation> {
    Some(SourceLocation { path: path.to_string(), line, column: 5, length: 3 })
}

fn step(location: Option<SourceLocation>) -> TraceStep {
    TraceStep {
        pc: 1,
        op: 0x01,
        stack: Some(vec![Word::from_u64(3)]),
        memory: Some(b"Many hands".to_vec()),
        returndata: vec![],
        gas_remaining: 9,
        gas_cost: 1,
        location,
    }
}

fn session() -> DebugSession {
    let test = TraceNode {
        address: Address { value: Word::from_u64(0x7e) },
        kind: "CALL".to_string(),
        is_create: false,
        calldata: vec![0xd0, 0x9d, 0xe0, 0x8a],
        steps: vec![
            step(loc("/proj/test/Counter.t.sol", 5)),
            step(loc("/proj/test/Counter.t.sol", 5)),
            step(None),
            step(loc("/proj/test/Counter.t.sol", 12)),
        ],
    };
    let counter = TraceNode {
        address: Address { value: Word::from_u64(0xc0) },
        kind: "CALL".to_string(),
        is_create: false,
        calldata: vec![1, 2, 3, 4],
        steps: vec![step(loc("/proj/src/Counter.sol", 3)), step(loc("/proj/src/Counter.sol", 9))],
    };
    let ctx = DebuggerContext {
        debug_arena: vec![test, counter],
        identified_contracts: vec![(Address { value: Word::from_u64(0x7e) }, "CounterTest".to_string())],
        storage_layouts: vec![],
        method_identifiers: vec![("0xd09de08a".to_string(), "increment()".to_string())],
        function_params: vec![],
        event_signatures: vec![],
    };
    let config = LaunchConfig {
        project_root: "/proj".to_string(),
        test: Some("testIncrement".to_string()),
        contract: None,
        script: None,
        sig: None,
        profile: None,
        fork_url: None,
        fork_block_number: None,
        verbosity: None,
    };
    let mut s = DebugSession::new(ctx, config);
    s.current_node = 1;
    s.current_step = 1;
    s
}

#[test]
fn meaningful_step_skips_the_dispatcher_line() {
    let s = session();
    assert_eq!(find_meaningful_step(&s.debug_arena[0]), 3);
    assert_eq!(find_meaningful_step(&s.debug_arena[1]), 1);
    let empty = TraceNode {
        address: Address { value: Word::zero() },
        kind: "CALL".to_string(),
        is_create: false,
        calldata: vec![],
        steps: vec![],
    };
    assert_eq!(find_meaningful_step(&empty), 0);
}

#[test]
fn stack_trace_is_innermost_first_and_paged() {
    let s = session();
    let frames = stack_trace(&s, None, None);
    assert_eq!(frames.len(), 2);
    assert_eq!(frames[0].id, 1);
    assert_eq!(frames[0].name, "Unknown::CALL");
    assert_eq!(frames[0].line, 9);
    assert_eq!(frames[0].source_path.as_deref(), Some("/proj/src/Counter.sol"));
    assert_eq!(frames[0].source_name.as_deref(), Some("src/Counter.sol"));
    assert_eq!(frames[1].id, 0);
    assert_eq!(frames[1].name, "CounterTest::increment()");
    assert_eq!(frames[1].line, 12);
    let paged = stack_trace(&s, Some(1), Some(5));
    assert_eq!(paged.len(), 1);
    assert_eq!(paged[0].id, 0);
    assert!(stack_trace(&s, Some(2), None).is_empty());
    assert_eq!(stack_trace(&s, Some(-3), Some(1)).len(), 1);
}

#[test]
fn scopes_name_kind_and_frame() {
    let sc = scopes(1);
    let v: Vec<_> = sc.iter().map(|x| (x.name.clone(), x.variables_reference)).collect();
    assert_eq!(v[0], ("Locals".to_string(), 8001));
    assert_eq!(v[1], ("Stack".to_string(), 1001));
    assert_eq!(v[7], ("Context".to_string(), 7001));
    assert_eq!(v[8], ("Emitted Events".to_string(), 9001));
    assert_eq!(v.len(), 9);
}

fn names(v: &[Variable]) -> Vec<String> {
    v.iter().map(|x| x.name.clone()).collect()
}

#[test]
fn variables_dispatch_by_handle() {
    let s = session();
    assert_eq!(names(&variables_for(&s, 1001, None, None, None)), vec!["[0]"]);
    assert_eq!(names(&variables_for(&s, 2001, None, None, None)), vec!["0x0000"]);
    assert_eq!(names(&variables_for(&s, 3000, None, None, None)), vec!["function"]);
    assert_eq!(names(&variables_for(&s, 5001, None, None, None)), vec!["gas_remaining", "gas_cost"]);
    assert_eq!(names(&variables_for(&s, 7001, None, None, None)), vec!["pc", "opcode", "this", "msg.sender"]);
    assert!(variables_for(&s, 0, None, None, None).is_empty());
    assert!(variables_for(&s, 9001, None, None, None).is_empty());
    assert!(variables_for(&s, 10001, None, None, None).is_empty());
    assert!(variables_for(&s, 1005, None, None, None).is_empty());
    let src = "contract C {\n  function f() public {\n    uint256 a = 1;\n  }\n}\n";
    let locals = variables_for(&s, 8001, None, None, Some(src));
    assert_eq!(names(&locals), vec!["a"]);
    assert_eq!(locals[0].value, "3");
}

#[test]
fn variables_are_paged() {
    let make = |n: usize| -> Vec<Variable> {
        (0..n)
            .map(|i| Variable { name: format!("v{i}"), value: String::new(), type_field: None, variables_reference: 0 })
            .collect()
    };
    assert_eq!(names(&page_variables(make(5), Some(1), Some(2))), vec!["v1", "v2"]);
    assert_eq!(names(&page_variables(make(5), Some(3), None)), vec!["v3", "v4"]);
    assert_eq!(names(&page_variables(make(5), Some(-1), Some(0))).len(), 5);
    assert!(page_variables(make(5), Some(5), Some(1)).is_empty());
    assert_eq!(names(&page_variables(make(5), Some(4), Some(10))), vec!["v4"]);
}

#[test]
fn base64_of_known_inputs() {
    assert_eq!(base64_encode(b"Man"), "TWFu");
    assert_eq!(base64_encode(b"Ma"), "TWE=");
    assert_eq!(base64_encode(b"M"), "TQ==");
    assert_eq!(base64_encode(b""), "");
    assert_eq!(base64_encode(&[0xfb, 0xff]), "+/8=");
}

#[test]
fn read_memory_clips_to_the_memory() {
    let s = session();
    let r = read_memory(&s, Some(5), 10);
    assert_eq!(r.address, "0x5");
    assert_eq!(r.data.as_deref(), Some(base64_encode(b"hands").as_str()));
    assert_eq!(r.unreadable_bytes, Some(5));
    let all = read_memory(&s, None, 4);
    assert_eq!(all.data.as_deref(), Some("TWFueQ=="));
    assert_eq!(all.unreadable_bytes, None);
    let past = read_memory(&s, Some(50), 4);
    assert_eq!(past.address, "0x32");
    assert_eq!(past.data, None);
    assert_eq!(past.unreadable_bytes, Some(44));
}

#[test]
fn console_output_is_echoed_once_per_logging_line() {
    let mut echo = ConsoleEcho::new(vec!["first".to_string(), "second".to_string()]);
    let here = loc("/proj/test/T.sol", 4).unwrap();
    assert_eq!(echo.on_stop(Some(&here), Some("    console.log(x);")), Some("first\n".to_string()));
    assert_eq!(echo.on_stop(Some(&here), Some("    console.log(x);")), None);
    let lib = loc("/proj/lib/forge-std/src/console.sol", 4).unwrap();
    assert_eq!(echo.on_stop(Some(&lib), Some("console.log")), None);
    let other = loc("/proj/test/T.sol", 5).unwrap();
    assert_eq!(echo.on_stop(Some(&other), Some("x = 1;")), None);
    assert_eq!(echo.on_stop(Some(&other), Some("console2.log(y);")), Some("second\n".to_string()));
    let third = loc("/proj/test/T.sol", 6).unwrap();
    assert_eq!(echo.on_stop(Some(&third), Some("console.log(z);")), None);
}

#[test]
fn source_lines_are_numbered_from_one() {
    assert_eq!(source_line("a\r\nb\nc", 2).as_deref(), Some("b"));
    assert_eq!(source_line("a\r\nb\nc", 1).as_deref(), Some("a"));
    assert_eq!(source_line("a\nb\n", 3), None);
    assert_eq!(source_line("a\nb", 0).as_deref(), Some("a"));
}

#[test]
fn emitted_events_scope_lists_the_logs_so_far() {
    let mut s = session();
    let mut log = step(None);
    log.op = 0xa1;
    log.stack = Some(vec![Word::from_u64(0x77), Word::from_u64(0), Word::from_u64(0)]);
    s.debug_arena[1].steps[1] = log;
    let v = variables_for(&s, 9001, None, None, None);
    assert_eq!(names(&v), vec!["event[0]"]);
    assert_eq!(v[0].type_field.as_deref(), Some("event"));
    assert!(v[0].value.contains("LOG1(topics=[0x"), "{}", v[0].value);
}
