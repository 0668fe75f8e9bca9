//! Preparing a session: test names, identified contracts, artifacts.

use sol_dap::launch::{
    artifact_events, artifact_metadata, event_topic_of, forge_test_filter, parse_identified_contracts,
    split_contract_test, ArtifactInfo, LaunchError, EventInfo, EventParam, StorageEntry, StorageLayout,
};
use sol_dap::word::Word;

#[test]
fn test_names_split_at_the_first_double_colon() {
    assert_eq!(split_contract_test(Some("C"), "t::u"), (Some("C".to_string()), "t::u".to_string()));
    assert_eq!(split_contract_test(None, "CounterTest::testIncrement"), (Some("CounterTest".to_string()), "testIncrement".to_string()));
    assert_eq!(split_contract_test(None, "a::b::c"), (Some("a".to_string()), "b::c".to_string()));
    assert_eq!(split_contract_test(None, "::t"), (None, "::t".to_string()));
    assert_eq!(split_contract_test(None, "C::"), (None, "C::".to_string()));
    assert_eq!(split_contract_test(None, "testFoo"), (None, "testFoo".to_string()));
}

#[test]
fn addresses_parse_with_or_without_prefix() {
    let parsed = parse_identified_contracts(vec![
        ("0x00000000000000000000000000000000000000Ff".to_string(), "A".to_string()),
        ("00000000000000000000000000000000000000ff".to_string(), "B".to_string()),
    ])
    .unwrap();
    // Both keys spell the same address: the later one's name is kept.
    assert_eq!(parsed.len(), 1);
    assert_eq!(parsed[0].0.value, Word::from_u64(255));
    assert_eq!(parsed[0].1, "B");
    assert_eq!(
        parse_identified_contracts(vec![("0x123".to_string(), "A".to_string())]).unwrap_err(),
        "0x123"
    );
    assert_eq!(
        parse_identified_contracts(vec![(
            "0xzz000000000000000000000000000000000000ff".to_string(),
            "A".to_string()
        )])
        .unwrap_err(),
        "0xzz000000000000000000000000000000000000ff"
    );
}

#[test]
fn identified_contracts_report_the_first_bad_key() {
    let ok = parse_identified_contracts(vec![
        ("0x00000000000000000000000000000000000000c0".to_string(), "Counter".to_string()),
    ])
    .unwrap();
    assert_eq!(ok[0].0.value, Word::from_u64(0xc0));
    assert_eq!(ok[0].1, "Counter");
    let err = parse_identified_contracts(vec![
        ("0x00000000000000000000000000000000000000c0".to_string(), "Counter".to_string()),
        ("nope".to_string(), "X".to_string()),
        ("bad".to_string(), "Y".to_string()),
    ])
    .unwrap_err();
    assert_eq!(err, "nope");
}

fn layout(label: &str) -> StorageLayout {
    StorageLayout {
        storage: vec![StorageEntry { label: label.to_string(), slot: "0".to_string(), offset: 0, type_key: "t".to_string() }],
        types: vec![],
    }
}

#[test]
fn artifacts_give_layouts_selectors_and_parameters() {
    let counter = ArtifactInfo {
        contract_name: "Counter".to_string(),
        storage_layout: Some(layout("number")),
        method_identifiers: Some(vec![
            ("increment()".to_string(), "d09de08a".to_string()),
            ("setNumber(uint256)".to_string(), "3fb5c1cb".to_string()),
        ]),
        abi_functions: vec![
            ("increment".to_string(), vec![]),
            ("setNumber".to_string(), vec![("newNumber".to_string(), "uint256".to_string())]),
        ],
        abi_events: vec![],
    };
    let empty = ArtifactInfo {
        contract_name: "Empty".to_string(),
        storage_layout: Some(StorageLayout { storage: vec![], types: vec![] }),
        method_identifiers: None,
        abi_functions: vec![("f".to_string(), vec![("x".to_string(), "bool".to_string())])],
        abi_events: vec![],
    };
    let later = ArtifactInfo {
        contract_name: "Counter".to_string(),
        storage_layout: Some(layout("count")),
        method_identifiers: Some(vec![("bump()".to_string(), "d09de08a".to_string())]),
        abi_functions: vec![],
        abi_events: vec![],
    };
    let (layouts, methods, params) = artifact_metadata(vec![counter, empty, later]);
    assert_eq!(layouts.len(), 1);
    assert_eq!(layouts[0].0, "Counter");
    assert_eq!(layouts[0].1.storage[0].label, "count");
    let m: Vec<_> = methods.iter().map(|(k, v)| (k.clone(), v.clone())).collect();
    assert_eq!(
        m,
        vec![
            ("0xd09de08a".to_string(), "bump()".to_string()),
            ("0x3fb5c1cb".to_string(), "setNumber(uint256)".to_string()),
        ]
    );
    assert_eq!(params.len(), 1);
    assert_eq!(params[0].0, "0x3fb5c1cb");
    assert_eq!(params[0].1, vec![("newNumber".to_string(), "uint256".to_string())]);
}

fn param(name: &str, ty: &str, indexed: bool) -> EventParam {
    EventParam { name: name.to_string(), type_field: ty.to_string(), indexed }
}

fn transfer() -> EventInfo {
    EventInfo {
        name: "Transfer".to_string(),
        params: vec![param("from", "address", true), param("to", "address", true), param("value", "uint256", false)],
    }
}

#[test]
fn event_topics_hash_the_canonical_signature() {
    assert_eq!(
        event_topic_of(&transfer()),
        "0xddf252ad1be2c89b69c2b068fc378daa952ba7f163c4a11628f55a4df523b3ef"
    );
    let no_params = EventInfo { name: "Ping".to_string(), params: vec![] };
    let expected = format!("0x{}", alloy_primitives::hex::encode(alloy_primitives::keccak256(b"Ping()")));
    assert_eq!(event_topic_of(&no_params), expected);
}

#[test]
fn artifact_events_list_every_event_in_order() {
    let token = ArtifactInfo {
        contract_name: "Token".to_string(),
        storage_layout: None,
        method_identifiers: None,
        abi_functions: vec![],
        abi_events: vec![transfer()],
    };
    let vault = ArtifactInfo {
        contract_name: "Vault".to_string(),
        storage_layout: None,
        method_identifiers: None,
        abi_functions: vec![],
        abi_events: vec![EventInfo {
            name: "Deposited".to_string(),
            params: vec![param("user", "address", true), param("amount", "uint256", false)],
        }],
    };
    let events = artifact_events(&vec![token, vault]);
    assert_eq!(events.len(), 2);
    assert_eq!(events[0].0, "0xddf252ad1be2c89b69c2b068fc378daa952ba7f163c4a11628f55a4df523b3ef");
    assert_eq!(events[0].1.name, "Transfer");
    assert_eq!(events[0].1.params.len(), 3);
    assert!(events[0].1.params[0].indexed);
    let expected = format!(
        "0x{}",
        alloy_primitives::hex::encode(alloy_primitives::keccak256(b"Deposited(address,uint256)"))
    );
    assert_eq!(events[1].0, expected);
    assert_eq!(events[1].1.name, "Deposited");
}

fn launch_config(test: Option<&str>, contract: Option<&str>) -> sol_dap::config::LaunchConfig {
    sol_dap::config::LaunchConfig {
        project_root: "/p".to_string(),
        test: test.map(|t| t.to_string()),
        contract: contract.map(|c| c.to_string()),
        script: None,
        sig: None,
        profile: None,
        fork_url: None,
        fork_block_number: None,
        verbosity: None,
    }
}

#[test]
fn only_tests_can_be_debugged() {
    assert_eq!(forge_test_filter(&launch_config(None, None)), Err(LaunchError::MissingTest));
    assert_eq!(
        LaunchError::MissingTest.message(),
        "only test debugging is supported for now (missing `test`)"
    );
    assert_eq!(
        forge_test_filter(&launch_config(Some("CounterTest::testIncrement"), None)),
        Ok((Some("CounterTest".to_string()), "testIncrement".to_string()))
    );
    assert_eq!(
        forge_test_filter(&launch_config(Some("testX"), Some("C"))),
        Ok((Some("C".to_string()), "testX".to_string()))
    );
}

#[test]
fn identified_contracts_keep_one_entry_per_address() {
    let parsed = parse_identified_contracts(vec![
        ("0x00000000000000000000000000000000000000c0".to_string(), "A".to_string()),
        ("0x00000000000000000000000000000000000000c1".to_string(), "B".to_string()),
        ("0x00000000000000000000000000000000000000C0".to_string(), "C".to_string()),
    ])
    .unwrap();
    assert_eq!(parsed.len(), 2);
    assert_eq!((parsed[0].0.value, parsed[0].1.as_str()), (Word::from_u64(0xc0), "C"));
    assert_eq!((parsed[1].0.value, parsed[1].1.as_str()), (Word::from_u64(0xc1), "B"));
}
