//! Editor registration: forge tasks and debug configurations.

use sol_dap::adapter::{DebugRequest, SolDapExtension};

fn args(a: &[&str]) -> Vec<String> {
    a.iter().map(|s| s.to_string()).collect()
}

#[test]
fn forge_test_arguments_name_test_and_contract() {
    assert_eq!(
        SolDapExtension::parse_forge_test_args(&args(&["test", "--match-test", "testFoo", "--match-contract", "Bar"])),
        Some(("testFoo".to_string(), Some("Bar".to_string())))
    );
    assert_eq!(
        SolDapExtension::parse_forge_test_args(&args(&["test", "--mt", "testFoo"])),
        Some(("testFoo".to_string(), None))
    );
    assert_eq!(
        SolDapExtension::parse_forge_test_args(&args(&["test", "--mt=a", "--mc=B"])),
        Some(("a".to_string(), Some("B".to_string())))
    );
    assert_eq!(
        SolDapExtension::parse_forge_test_args(&args(&["test", "-t", "x", "--match-test"])),
        None
    );
    assert_eq!(SolDapExtension::parse_forge_test_args(&args(&["test"])), None);
}

#[test]
fn locator_turns_forge_test_tasks_into_scenarios() {
    let cwd = "/proj".to_string();
    let s = SolDapExtension::dap_locator_create_scenario(
        &"forge".to_string(),
        &args(&["test", "--mt", "testFoo"]),
        Some(&cwd),
        &"forge test".to_string(),
    )
    .unwrap();
    assert_eq!(s.label, "Debug forge test");
    assert_eq!(s.adapter, "sol-dap");
    let v: serde_json::Value = serde_json::from_str(&s.config).unwrap();
    assert_eq!(v["request"], "launch");
    assert_eq!(v["project_root"], "/proj");
    assert_eq!(v["test"], "testFoo");
    assert!(v.get("contract").is_none());
    assert!(SolDapExtension::dap_locator_create_scenario(&"cargo".to_string(), &args(&["test", "--mt", "x"]), None, &"l".to_string()).is_none());
    assert!(SolDapExtension::dap_locator_create_scenario(&"forge".to_string(), &args(&["build", "--mt", "x"]), None, &"l".to_string()).is_none());
    assert!(SolDapExtension::dap_locator_create_scenario(&"forge".to_string(), &args(&["test"]), None, &"l".to_string()).is_none());
}

#[test]
fn debug_configurations_become_launch_scenarios() {
    let req = DebugRequest::Launch {
        program: "/a".to_string(),
        cwd: Some("/b".to_string()),
        args: args(&["testX", "XTest"]),
    };
    let s = SolDapExtension::dap_config_to_scenario(&"dbg".to_string(), &req).unwrap();
    assert_eq!(s.label, "dbg");
    let v: serde_json::Value = serde_json::from_str(&s.config).unwrap();
    assert_eq!(v["project_root"], "/b");
    assert_eq!(v["test"], "testX");
    assert_eq!(v["contract"], "XTest");
    assert_eq!(
        SolDapExtension::dap_config_to_scenario(&"dbg".to_string(), &DebugRequest::Attach).unwrap_err(),
        "sol-dap only supports launch requests"
    );
    assert_eq!(SolDapExtension::adapter_command(None), "sol-dap");
    assert_eq!(SolDapExtension::adapter_command(Some("/bin/x".to_string())), "/bin/x");
}
