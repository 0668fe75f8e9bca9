//! Decoding the EVM state into variables.

use sol_dap::launch::{artifact_events, ArtifactInfo, EventInfo, EventParam, StorageEntry, StorageLayout, StorageType};
use sol_dap::trace::{Address, TraceNode, TraceStep};
use sol_dap::variables::{
    calldata_variables, collect_console_logs, collect_events, console_log_variables,
    context_variables, decode_console_log, decode_short_string, event_variables,
    format_typed_value, gas_info_variables, memory_variables, returndata_variables,
    stack_variables, storage_variables, Variable,
};
use sol_dap::word::Word;

fn w(x: u64) -> Word {
    Word::from_u64(x)
}

fn word_of_bytes(b: [u8; 32]) -> Word {
    let l = alloy_primitives::U256::from_be_bytes(b).into_limbs();
    Word { l0: l[0], l1: l[1], l2: l[2], l3: l[3] }
}

fn step(op: u8, stack: Vec<Word>, memory: Vec<u8>) -> TraceStep {
    TraceStep {
        pc: 7,
        op,
        stack: Some(stack),
        memory: Some(memory),
        returndata: vec![],
        gas_remaining: 500,
        gas_cost: 20,
        location: None,
    }
}

fn node(address: u64, calldata: Vec<u8>, steps: Vec<TraceStep>) -> TraceNode {
    TraceNode { address: Address { value: w(address) }, kind: "CALL".to_string(), is_create: false, calldata, steps }
}

fn shown(v: &Variable) -> (String, String, Option<String>) {
    (v.name.clone(), v.value.clone(), v.type_field.clone())
}

fn var(n: &str, v: &str, t: &str) -> (String, String, Option<String>) {
    (n.to_string(), v.to_string(), Some(t.to_string()))
}

#[test]
fn format_address_value() {
    let val = w(0xdead_beef);
    assert_eq!(format_typed_value(&val, "address"), "0x00000000000000000000000000000000deadbeef");
}

#[test]
fn format_contract_value_same_as_address() {
    let val = w(0xabcd);
    assert_eq!(format_typed_value(&val, "contract Foo"), format_typed_value(&val, "address"),);
}

#[test]
fn format_bool_true_and_false() {
    assert_eq!(format_typed_value(&Word::zero(), "bool"), "false");
    assert_eq!(format_typed_value(&w(1), "bool"), "true");
    assert_eq!(format_typed_value(&w(42), "bool"), "true");
}

#[test]
fn format_uint_decimal() {
    let val = w(12345);
    assert_eq!(format_typed_value(&val, "uint256"), "12345");
    assert_eq!(format_typed_value(&val, "uint8"), "12345");
    assert_eq!(format_typed_value(&val, "int256"), "12345");
}

#[test]
fn format_fixed_bytes_hex() {
    let val = w(0xff);
    let out = format_typed_value(&val, "bytes32");
    assert!(out.starts_with("0x"), "expected hex prefix, got: {out}");
}

#[test]
fn format_unknown_type_hex() {
    let val = w(255);
    let out = format_typed_value(&val, "tuple");
    assert!(out.starts_with("0x"), "expected hex prefix for unknown type, got: {out}");
}

#[test]
fn decode_empty_short_string() {
    let raw = Word::zero();
    assert_eq!(decode_short_string(&raw), "\"\"");
}

#[test]
fn decode_valid_short_string() {
    let mut bytes = [0u8; 32];
    bytes[0] = b'h';
    bytes[1] = b'e';
    bytes[2] = b'l';
    bytes[3] = b'l';
    bytes[4] = b'o';
    bytes[31] = 10;
    let raw = word_of_bytes(bytes);
    assert_eq!(decode_short_string(&raw), "\"hello\"");
}

#[test]
fn decode_long_string_reports_length() {
    let mut bytes = [0u8; 32];
    bytes[31] = 0x41;
    let raw = word_of_bytes(bytes);
    let result = decode_short_string(&raw);
    assert!(result.starts_with("(string,"), "expected long string marker, got: {result}");
}

#[test]
fn test_decode_short_string() {
    let mut bytes = [0u8; 32];
    let text = b"Test Token";
    bytes[..text.len()].copy_from_slice(text);
    bytes[31] = (text.len() * 2) as u8;
    let raw = word_of_bytes(bytes);
    assert_eq!(decode_short_string(&raw), "\"Test Token\"");
    let empty = Word::zero();
    assert_eq!(decode_short_string(&empty), "\"\"");
}

#[test]
fn decode_long_string_length_and_invalid_utf8() {
    let mut bytes = [0u8; 32];
    bytes[31] = 0x41;
    assert_eq!(decode_short_string(&word_of_bytes(bytes)), "(string, 32 bytes)");
    let mut bad = [0u8; 32];
    bad[0] = 0xff;
    bad[1] = 0xfe;
    bad[31] = 4;
    assert_eq!(decode_short_string(&word_of_bytes(bad)), "0xfffe");
}

#[test]
fn format_typed_value_pads_addresses_and_keeps_dynamic_bytes_hex() {
    assert_eq!(format_typed_value(&w(0xff), "bytes32"), "0xff");
    assert_eq!(format_typed_value(&w(0xff), "bytes"), "0xff");
    assert_eq!(format_typed_value(&w(0xff), "string"), "0xff");
}

#[test]
fn stack_memory_returndata_and_gas() {
    let mut st = step(0x01, vec![w(1), w(0x20)], vec![0xab; 40]);
    st.returndata = vec![1, 2, 3];
    let s: Vec<_> = stack_variables(&st).iter().map(shown).collect();
    assert_eq!(s, vec![var("[0]", "0x1", "uint256"), var("[1]", "0x20", "uint256")]);
    let m: Vec<_> = memory_variables(&st).iter().map(shown).collect();
    assert_eq!(m.len(), 2);
    assert_eq!(m[0].0, "0x0000");
    assert_eq!(m[1], var("0x0020", "0xabababababababab", "bytes32"));
    let r: Vec<_> = returndata_variables(&st).iter().map(shown).collect();
    assert_eq!(r, vec![var("[0]", "0x010203", "bytes32")]);
    let g: Vec<_> = gas_info_variables(&st).iter().map(shown).collect();
    assert_eq!(g, vec![var("gas_remaining", "500", "uint64"), var("gas_cost", "20", "uint64")]);
    let mut none = st;
    none.stack = None;
    none.memory = None;
    assert!(stack_variables(&none).is_empty());
    assert!(memory_variables(&none).is_empty());
}

#[test]
fn calldata_decoded_with_abi_and_raw_without() {
    let mut data = vec![0x3f, 0xb5, 0xc1, 0xcb];
    let mut arg = [0u8; 32];
    arg[31] = 42;
    data.extend_from_slice(&arg);
    data.extend_from_slice(&[7u8; 32]);
    let n = node(0xc0, data, vec![]);
    let params = vec![("newNumber".to_string(), "uint256".to_string())];
    let sig = "setNumber(uint256)".to_string();
    let v: Vec<_> = calldata_variables(&n, Some(&params), Some(&sig)).iter().map(shown).collect();
    assert_eq!(v[0], var("function", "0x3fb5c1cb (setNumber(uint256))", "bytes4"));
    assert_eq!(v[1], var("newNumber", "42", "uint256"));
    assert_eq!(v[2], var("arg[1]", &format!("0x{}", "07".repeat(32)), "bytes32"));
    assert_eq!(v.len(), 3);
    let raw: Vec<_> = calldata_variables(&n, None, None).iter().map(shown).collect();
    assert_eq!(raw[0], var("function", "0x3fb5c1cb", "bytes4"));
    assert_eq!(raw[1].0, "arg[0]");
    let missing = vec![
        ("a".to_string(), "uint256".to_string()),
        ("b".to_string(), "uint256".to_string()),
        ("c".to_string(), "bool".to_string()),
    ];
    let m: Vec<_> = calldata_variables(&n, Some(&missing), None).iter().map(shown).collect();
    assert_eq!(m[3], var("c", "(missing)", "bool"));
    assert!(calldata_variables(&node(1, vec![], vec![]), None, None).is_empty());
}

#[test]
fn storage_variables_replay_the_last_write() {
    let layout = StorageLayout {
        storage: vec![
            StorageEntry { label: "number".to_string(), slot: "0".to_string(), offset: 0, type_key: "t_uint256".to_string() },
            StorageEntry { label: "owner".to_string(), slot: "1".to_string(), offset: 0, type_key: "t_address".to_string() },
            StorageEntry { label: "name".to_string(), slot: "2".to_string(), offset: 0, type_key: "t_string".to_string() },
            StorageEntry { label: "flag".to_string(), slot: "3".to_string(), offset: 0, type_key: "t_bool".to_string() },
            StorageEntry { label: "bal".to_string(), slot: "4".to_string(), offset: 0, type_key: "t_map".to_string() },
        ],
        types: vec![
            ("t_uint256".to_string(), StorageType { label: "uint256".to_string(), number_of_bytes: "32".to_string(), encoding: Some("inplace".to_string()), value_type: None }),
            ("t_address".to_string(), StorageType { label: "address".to_string(), number_of_bytes: "20".to_string(), encoding: Some("inplace".to_string()), value_type: None }),
            ("t_string".to_string(), StorageType { label: "string".to_string(), number_of_bytes: "32".to_string(), encoding: Some("bytes".to_string()), value_type: None }),
            ("t_bool".to_string(), StorageType { label: "bool".to_string(), number_of_bytes: "1".to_string(), encoding: Some("inplace".to_string()), value_type: None }),
            ("t_map".to_string(), StorageType { label: "mapping(address => uint256)".to_string(), number_of_bytes: "32".to_string(), encoding: Some("mapping".to_string()), value_type: Some("t_uint256".to_string()) }),
        ],
    };
    let mut name = [0u8; 32];
    name[0] = b'h';
    name[1] = b'i';
    name[31] = 4;
    let arena = vec![
        node(0xc0, vec![], vec![step(0x55, vec![w(1), w(0)], vec![])]),
        node(0x99, vec![], vec![step(0x55, vec![w(9), w(0)], vec![])]),
        node(0xc0, vec![], vec![
            step(0x55, vec![w(2), w(0)], vec![]),
            step(0x55, vec![w(0xbeef), w(1)], vec![]),
            step(0x55, vec![word_of_bytes(name), w(2)], vec![]),
        ]),
        node(0xc0, vec![], vec![step(0x55, vec![w(3), w(0)], vec![])]),
    ];
    let addr = Address { value: w(0xc0) };
    let v: Vec<_> = storage_variables(&arena, 2, 0, &addr, &layout).iter().map(shown).collect();
    assert_eq!(v[0], var("number", "2", "uint256"));
    assert_eq!(v[1], var("owner", "0x000000000000000000000000000000000000beef", "address"));
    assert_eq!(v[2], var("name", "\"hi\"", "string"));
    assert_eq!(v[3], var("flag", "false", "bool"));
    assert_eq!(v[4], var("bal", "(mapping(address => uint256))", "mapping(address => uint256)"));
    let later: Vec<_> = storage_variables(&arena, 3, 0, &addr, &layout).iter().map(shown).collect();
    assert_eq!(later[0], var("number", "3", "uint256"));
}

fn log_arena() -> Vec<TraceNode> {
    let mut mem = vec![0u8; 64];
    mem[31] = 0x2a;
    let log = step(0xa2, vec![w(0x55), w(0x77), w(32), w(0)], mem);
    vec![node(0xc0, vec![], vec![step(0x01, vec![], vec![]), log, step(0x00, vec![], vec![])])]
}

fn transfer_info() -> Vec<(String, EventInfo)> {
    vec![(
        format!("0x{:064x}", 0x77),
        EventInfo {
            name: "Paid".to_string(),
            params: vec![
                EventParam { name: "who".to_string(), type_field: "address".to_string(), indexed: true },
                EventParam { name: "".to_string(), type_field: "uint256".to_string(), indexed: false },
                EventParam { name: "extra".to_string(), type_field: "uint256".to_string(), indexed: false },
            ],
        },
    )]
}

#[test]
fn events_are_collected_up_to_the_current_step() {
    let arena = log_arena();
    let ids = vec![(Address { value: w(0xc0) }, "Vault".to_string())];
    assert!(collect_events(&arena, 0, 0, &transfer_info(), &ids).is_empty());
    let evs = collect_events(&arena, 0, 1, &transfer_info(), &ids);
    assert_eq!(evs.len(), 1);
    assert_eq!(evs[0].contract_name, "Vault");
    assert_eq!(evs[0].topics, vec![w(0x77), w(0x55)]);
    assert_eq!(evs[0].data.len(), 32);
    let names: Vec<_> = evs[0].decoded_params.iter().map(|p| (p.0.clone(), p.2.clone())).collect();
    assert_eq!(
        names,
        vec![
            ("who".to_string(), "0x0000000000000000000000000000000000000055".to_string()),
            ("arg[1]".to_string(), "42".to_string()),
            ("extra".to_string(), "(missing)".to_string()),
        ]
    );
    let v: Vec<_> = event_variables(&arena, 0, 2, &transfer_info(), &ids).iter().map(shown).collect();
    assert_eq!(
        v,
        vec![var(
            "event[0]",
            "Vault(0x00000000000000000000000000000000000000c0).Paid(who=0x0000000000000000000000000000000000000055, arg[1]=42, extra=(missing))",
            "event"
        )]
    );
    let raw: Vec<_> = event_variables(&arena, 0, 2, &vec![], &vec![]).iter().map(shown).collect();
    assert_eq!(
        raw[0].1,
        format!(
            "0x00000000000000000000000000000000000000c0(0x00000000000000000000000000000000000000c0).LOG2(topics=[0x{:064x}, 0x{:064x}], data=0x{}2a)",
            0x77,
            0x55,
            "00".repeat(31)
        )
    );
}

fn console_call(words: &[[u8; 32]]) -> Vec<u8> {
    let mut data = vec![0x41, 0x30, 0x4f, 0xac];
    for wd in words {
        data.extend_from_slice(wd);
    }
    data
}

fn word_bytes(x: u64) -> [u8; 32] {
    let mut b = [0u8; 32];
    b[24..].copy_from_slice(&x.to_be_bytes());
    b
}

#[test]
fn console_log_arguments_are_decoded() {
    let mut text = [0u8; 32];
    text[..5].copy_from_slice(b"hello");
    let call = console_call(&[word_bytes(0x40), word_bytes(1), word_bytes(5), text]);
    assert_eq!(decode_console_log(&call), "hello true");
    assert_eq!(decode_console_log(&console_call(&[word_bytes(1234)])), "1234");
    assert_eq!(decode_console_log(&[1, 2, 3]), "(empty)");
    assert_eq!(decode_console_log(&[1, 2, 3, 4]), "(empty)");
    let mut short = console_call(&[word_bytes(0)]);
    short.extend_from_slice(&[0xaa, 0xbb]);
    assert_eq!(decode_console_log(&short), " 0xaabb");
}

#[test]
fn console_logs_from_calls_to_the_console_address() {
    let console = Word { l0: 0x736f6c652e6c6f67, l1: 0x636f6e, l2: 0, l3: 0 };
    let call = console_call(&[word_bytes(77)]);
    let mut mem = vec![0u8; 8];
    mem.extend_from_slice(&call);
    let staticcall = step(
        0xfa,
        vec![w(0), w(0), w(call.len() as u64), w(8), console, w(100)],
        mem,
    );
    let direct = TraceNode {
        address: Address { value: console },
        kind: "STATICCALL".to_string(),
        is_create: true,
        calldata: console_call(&[word_bytes(5)]),
        steps: vec![],
    };
    let arena = vec![node(0xc0, vec![], vec![staticcall]), direct];
    assert_eq!(collect_console_logs(&arena, 0, 0), vec!["77".to_string()]);
    assert_eq!(collect_console_logs(&arena, 1, 0), vec!["77".to_string(), "5".to_string()]);
    let v: Vec<_> = console_log_variables(&arena, 1, 0).iter().map(shown).collect();
    assert_eq!(v[1], var("log[1]", "5", "string"));
}

#[test]
fn context_names_the_sender_and_the_opcode() {
    let arena = vec![
        node(0x7e, vec![], vec![step(0x01, vec![], vec![])]),
        node(0xc0, vec![], vec![step(0x55, vec![], vec![])]),
        node(0xc0, vec![], vec![]),
    ];
    let v: Vec<_> = context_variables(&arena[2], 2, &arena, Some(&arena[1].steps[0])).iter().map(shown).collect();
    assert_eq!(
        v,
        vec![
            var("pc", "7", "uint"),
            var("opcode", "SSTORE", "string"),
            var("this", "0x00000000000000000000000000000000000000c0", "address"),
            var("msg.sender", "0x000000000000000000000000000000000000007e", "address"),
        ]
    );
    let top: Vec<_> = context_variables(&arena[0], 0, &arena, None).iter().map(shown).collect();
    assert_eq!(top, vec![var("this", "0x000000000000000000000000000000000000007e", "address")]);
}

#[test]
fn logs_are_decoded_with_the_events_of_the_artifacts() {
    let transfer = EventInfo {
        name: "Transfer".to_string(),
        params: vec![
            EventParam { name: "from".to_string(), type_field: "address".to_string(), indexed: true },
            EventParam { name: "to".to_string(), type_field: "address".to_string(), indexed: true },
            EventParam { name: "value".to_string(), type_field: "uint256".to_string(), indexed: false },
        ],
    };
    let token = ArtifactInfo {
        contract_name: "Token".to_string(),
        storage_layout: None,
        method_identifiers: None,
        abi_functions: vec![],
        abi_events: vec![transfer],
    };
    let sigs = artifact_events(&vec![token]);
    let topic0 = word_of_bytes(alloy_primitives::keccak256(b"Transfer(address,address,uint256)").0);
    let mut mem = vec![0u8; 32];
    mem[31] = 7;
    let log = step(0xa3, vec![w(0xb), w(0xa), topic0, w(32), w(0)], mem);
    let arena = vec![node(0xc0, vec![], vec![log, step(0x00, vec![], vec![])])];
    let ids = vec![(Address { value: w(0xc0) }, "Token".to_string())];
    let v: Vec<_> = event_variables(&arena, 0, 1, &sigs, &ids).iter().map(shown).collect();
    assert_eq!(
        v,
        vec![var(
            "event[0]",
            "Token(0x00000000000000000000000000000000000000c0).Transfer(from=0x000000000000000000000000000000000000000a, to=0x000000000000000000000000000000000000000b, value=7)",
            "event"
        )]
    );
}
