//! The debug console: numbers, arithmetic, keywords, storage and events.

use sol_dap::config::LaunchConfig;
use sol_dap::evaluate::{
    apply_binop, eval_hex_literal, evaluate_expression, evaluation_would_overflow,
    format_u256_result,
};
use sol_dap::expr_parser::BinOp;
use sol_dap::launch::{DebuggerContext, EventInfo, EventParam, StorageEntry, StorageLayout, StorageType};
use sol_dap::session::DebugSession;
use sol_dap::trace::{Address, TraceNode, TraceStep};
use sol_dap::word::Word;

fn w(x: u64) -> Word {
    Word::from_u64(x)
}

fn word_of_bytes(b: [u8; 32]) -> Word {
    let l = alloy_primitives::U256::from_be_bytes(b).into_limbs();
    Word { l0: l[0], l1: l[1], l2: l[2], l3: l[3] }
}

fn step(op: u8, stack: Vec<Word>) -> TraceStep {
    TraceStep {
        pc: 10,
        op,
        stack: Some(stack),
        memory: Some(vec![0u8; 64]),
        returndata: vec![],
        gas_remaining: 1000,
        gas_cost: 3,
        location: None,
    }
}

fn config() -> LaunchConfig {
    LaunchConfig {
        project_root: "/tmp/proj".to_string(),
        test: Some("testFoo".to_string()),
        contract: None,
        script: None,
        sig: None,
        profile: None,
        fork_url: None,
        fork_block_number: None,
        verbosity: None,
    }
}

fn layout() -> StorageLayout {
    StorageLayout {
        storage: vec![
            StorageEntry {
                label: "number".to_string(),
                slot: "0".to_string(),
                offset: 0,
                type_key: "t_uint256".to_string(),
            },
            StorageEntry {
                label: "deposits".to_string(),
                slot: "1".to_string(),
                offset: 0,
                type_key: "t_mapping(t_address,t_uint256)".to_string(),
            },
        ],
        types: vec![
            (
                "t_uint256".to_string(),
                StorageType {
                    label: "uint256".to_string(),
                    number_of_bytes: "32".to_string(),
                    encoding: Some("inplace".to_string()),
                    value_type: None,
                },
            ),
            (
                "t_mapping(t_address,t_uint256)".to_string(),
                StorageType {
                    label: "mapping(address => uint256)".to_string(),
                    number_of_bytes: "32".to_string(),
                    encoding: Some("mapping".to_string()),
                    value_type: Some("t_uint256".to_string()),
                },
            ),
        ],
    }
}

fn mapping_slot(key: u64, slot: u64) -> Word {
    let mut data = [0u8; 64];
    data[24..32].copy_from_slice(&key.to_be_bytes());
    data[56..64].copy_from_slice(&slot.to_be_bytes());
    let h = alloy_primitives::keccak256(data);
    word_of_bytes(h.0)
}

fn counter_session() -> DebugSession {
    let counter = Address { value: w(0xc0) };
    let test = Address { value: w(0x7e) };
    let deposit_slot = mapping_slot(1, 1);
    let caller_node = TraceNode {
        address: test,
        kind: "CALL".to_string(),
        is_create: false,
        calldata: vec![0xd0, 0x9d, 0xe0, 0x8a],
        steps: vec![step(0x01, vec![])],
    };
    let counter_node = TraceNode {
        address: counter,
        kind: "CALL".to_string(),
        is_create: false,
        calldata: vec![0xd0, 0x9d, 0xe0, 0x8a],
        steps: vec![
            step(0x55, vec![w(1), w(0)]),
            step(0x55, vec![w(5), deposit_slot]),
            step(0xa1, vec![w(7), w(32), w(0)]),
            step(0x01, vec![w(5), w(7)]),
        ],
    };
    let ctx = DebuggerContext {
        debug_arena: vec![caller_node, counter_node],
        identified_contracts: vec![(counter, "Counter".to_string()), (test, "CounterTest".to_string())],
        storage_layouts: vec![("Counter".to_string(), layout())],
        method_identifiers: vec![("0xd09de08a".to_string(), "increment()".to_string())],
        function_params: vec![],
        event_signatures: vec![(
            "0x0000000000000000000000000000000000000000000000000000000000000007".to_string(),
            EventInfo {
                name: "Bumped".to_string(),
                params: vec![EventParam {
                    name: "by".to_string(),
                    type_field: "uint256".to_string(),
                    indexed: false,
                }],
            },
        )],
    };
    let mut s = DebugSession::new(ctx, config());
    s.current_node = 1;
    s.current_step = 3;
    s
}

#[test]
fn hex_literal_conversion() {
    assert_eq!(eval_hex_literal("0xff"), "255 (0xff)");
    assert_eq!(eval_hex_literal("0x0"), "0 (0x0)");
    assert_eq!(eval_hex_literal("0x1"), "1 (0x1)");
    assert_eq!(eval_hex_literal("0x100"), "256 (0x100)");
    assert_eq!(eval_hex_literal("0xdeadbeef"), "3735928559 (0xdeadbeef)");
}

#[test]
fn hex_literal_large_value() {
    let result = eval_hex_literal("0xffffffffffffffffffffffffffffffff");
    assert!(result.starts_with("0x"));
    assert!(result.contains("ffffffffffffffffffffffffffffffff"));
}

#[test]
fn hex_literal_invalid() {
    let result = eval_hex_literal("0xZZZ");
    assert!(result.contains("invalid hex literal"));
}

#[test]
fn format_result_zero() {
    assert_eq!(format_u256_result(Word::zero()), "0 (0x0)");
}

#[test]
fn format_result_small() {
    assert_eq!(format_u256_result(w(255)), "255 (0xff)");
    assert_eq!(format_u256_result(w(1)), "1 (0x1)");
}

#[test]
fn apply_binop_basic() {
    assert_eq!(apply_binop(w(1), BinOp::Add, w(1)).unwrap(), w(2));
    assert_eq!(apply_binop(w(255), BinOp::Sub, w(32)).unwrap(), w(223));
    assert_eq!(apply_binop(w(0xff), BinOp::BitAnd, w(0x0f)).unwrap(), w(0x0f));
    assert_eq!(apply_binop(w(1), BinOp::Shl, w(8)).unwrap(), w(256));
    assert_eq!(apply_binop(w(256), BinOp::Shr, w(4)).unwrap(), w(16));
}

#[test]
fn apply_binop_div_zero() {
    assert!(apply_binop(w(1), BinOp::Div, Word::zero()).is_err());
    assert!(apply_binop(w(1), BinOp::Mod, Word::zero()).is_err());
}

#[test]
fn format_result_above_64_bits_shows_hex_first() {
    let big = Word { l0: 0, l1: 1, l2: 0, l3: 0 };
    assert_eq!(format_u256_result(big), "0x10000000000000000 (18446744073709551616)");
}

#[test]
fn binop_errors_name_the_operation() {
    assert_eq!(apply_binop(w(1), BinOp::Div, Word::zero()).unwrap_err(), "division by zero");
    assert_eq!(apply_binop(w(1), BinOp::Mod, Word::zero()).unwrap_err(), "modulo by zero");
}

#[test]
fn binop_arithmetic_wraps_modulo_2_256() {
    let max = Word { l0: u64::MAX, l1: u64::MAX, l2: u64::MAX, l3: u64::MAX };
    assert_eq!(apply_binop(max, BinOp::Add, w(1)).unwrap(), Word::zero());
    assert_eq!(apply_binop(Word::zero(), BinOp::Sub, w(1)).unwrap(), max);
    assert_eq!(apply_binop(w(7), BinOp::Mod, w(4)).unwrap(), w(3));
    assert_eq!(apply_binop(w(6), BinOp::BitXor, w(3)).unwrap(), w(5));
    assert_eq!(apply_binop(w(6), BinOp::BitOr, w(3)).unwrap(), w(7));
    assert_eq!(apply_binop(w(6), BinOp::Mul, w(7)).unwrap(), w(42));
}

#[test]
fn shifts_are_capped_at_255_bits() {
    let top = Word { l0: 0, l1: 0, l2: 0, l3: 1u64 << 63 };
    assert_eq!(apply_binop(w(1), BinOp::Shl, w(1000)).unwrap(), top);
    assert_eq!(apply_binop(top, BinOp::Shr, w(300)).unwrap(), w(1));
}

#[test]
fn console_arithmetic_and_literals() {
    let s = counter_session();
    let st = s.current_trace_step().unwrap();
    assert_eq!(evaluate_expression("1 + 1", st, &s), "2 (0x2)");
    assert_eq!(evaluate_expression("0xff - 32", st, &s), "223 (0xdf)");
    assert_eq!(evaluate_expression("  42  ", st, &s), "42 (0x2a)");
    assert_eq!(evaluate_expression("2 + 3 * 4", st, &s), "14 (0xe)");
    assert_eq!(evaluate_expression("1 / 0", st, &s), "division by zero");
    assert_eq!(evaluate_expression("   ", st, &s), "parse error: empty expression");
}

#[test]
fn console_keywords_and_stack() {
    let s = counter_session();
    let st = s.current_trace_step().unwrap();
    assert_eq!(evaluate_expression("pc", st, &s), "10 (0xa)");
    assert_eq!(evaluate_expression("gas", st, &s), "1000 (0x3e8)");
    assert_eq!(evaluate_expression("depth", st, &s), "1");
    assert_eq!(evaluate_expression("step", st, &s), "3");
    assert_eq!(evaluate_expression("stack[0]", st, &s), "7 (0x7)");
    assert_eq!(evaluate_expression("stack[1]", st, &s), "5 (0x5)");
    assert_eq!(
        evaluate_expression("stack[9]", st, &s),
        "stack index 9 out of bounds (stack has 2 items)"
    );
    assert_eq!(evaluate_expression("stack[0] << 8", st, &s), "1792 (0x700)");
    assert_eq!(evaluate_expression("stack", st, &s), "Stack (2 items):\n  [1] 7 (0x7)\n  [0] 5 (0x5)");
    assert_eq!(evaluate_expression("memory", st, &s), "64 bytes");
    assert_eq!(evaluate_expression("calldata", st, &s), "0xd09de08a");
    assert_eq!(evaluate_expression("this", st, &s), "0x00000000000000000000000000000000000000c0");
    assert_eq!(evaluate_expression("msg.sender", st, &s), "0x000000000000000000000000000000000000007e");
    assert_eq!(evaluate_expression("opcode", st, &s), "ADD");
    assert!(evaluate_expression("help", st, &s).starts_with("Available expressions:\npc, op"));
    assert_eq!(evaluate_expression("bogus", st, &s), "unknown expression: 'bogus'. Type 'help' for available expressions.");
}

#[test]
fn console_memory_access() {
    let s = counter_session();
    let st = s.current_trace_step().unwrap();
    assert_eq!(evaluate_expression("memory[0:4]", st, &s), "0x00000000");
    assert_eq!(
        evaluate_expression("memory[100]", st, &s),
        "offset 100 out of bounds (memory is 64 bytes)"
    );
    assert!(!evaluation_would_overflow("memory[0:4]", st, &s));
    assert!(evaluation_would_overflow("memory[1:18446744073709551615]", st, &s));
}

#[test]
fn console_storage_variables_and_mappings() {
    let s = counter_session();
    let st = s.current_trace_step().unwrap();
    assert_eq!(evaluate_expression("number", st, &s), "number (uint256) = 1");
    assert_eq!(evaluate_expression("number + 10", st, &s), "11 (0xb)");
    assert_eq!(evaluate_expression("deposits", st, &s), "deposits (mapping(address => uint256))");
    assert_eq!(evaluate_expression("deposits[0x1]", st, &s), "deposits[..] (uint256) = 5");
    assert_eq!(evaluate_expression("deposits[1] * 2", st, &s), "10 (0xa)");
    assert_eq!(evaluate_expression("deposits[0x2]", st, &s), "deposits[..] (uint256) = 0");
    assert_eq!(evaluate_expression("number[1]", st, &s), "'number' is not a storage mapping");
}

#[test]
fn console_events() {
    let s = counter_session();
    let st = s.current_trace_step().unwrap();
    assert_eq!(evaluate_expression("event[0]", st, &s), "Counter.Bumped(by=0)");
    assert_eq!(evaluate_expression("event[0][0]", st, &s), "0");
    assert_eq!(evaluate_expression("event[0].by", st, &s), "0");
    assert_eq!(evaluate_expression("event[0].who", st, &s), "event[0].who not found");
    assert_eq!(evaluate_expression("event[3]", st, &s), "event[3] out of bounds (1 events)");
    assert_eq!(evaluate_expression("log", st, &s), "[] (no console logs)");
    assert_eq!(evaluate_expression("log[0]", st, &s), "log[0] out of range (0 logs)");
}
