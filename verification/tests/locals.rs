//! Local variables read from the source of the enclosing function.

use sol_dap::locals::{local_variables, split_lines};
use sol_dap::trace::TraceStep;
use sol_dap::word::Word;

const SOURCE: &str = "// SPDX-License-Identifier: MIT\n\
pragma solidity ^0.8.13;\n\
contract Test {\n\
    function doStuff(uint256 x) public {\n\
        uint256 a = x + 1;\n\
        bool flag = true;\n\
        address sender = msg.sender;\n\
        Token token = Token(sender);\n\
        uint256 b = a * 2;\n\
    }\n\
}";

fn step(stack: Option<Vec<Word>>) -> TraceStep {
    TraceStep {
        pc: 0,
        op: 0,
        stack,
        memory: None,
        returndata: vec![],
        gas_remaining: 0,
        gas_cost: 0,
        location: None,
    }
}

fn shown(v: &sol_dap::variables::Variable) -> (String, String, String) {
    (v.name.clone(), v.value.clone(), v.type_field.clone().unwrap())
}

#[test]
fn locals_of_the_enclosing_function_with_declaration_status() {
    let v: Vec<_> = local_variables(SOURCE, 7, &step(None)).iter().map(shown).collect();
    assert_eq!(
        v,
        vec![
            ("a".to_string(), "(declared at line 5)".to_string(), "uint256".to_string()),
            ("flag".to_string(), "(declared at line 6)".to_string(), "bool".to_string()),
            ("sender".to_string(), "(not yet declared)".to_string(), "address".to_string()),
            ("token".to_string(), "(not yet declared)".to_string(), "Token".to_string()),
            ("b".to_string(), "(not yet declared)".to_string(), "uint256".to_string()),
        ]
    );
}

#[test]
fn declared_locals_take_stack_values_most_recent_first() {
    let stack = vec![Word::from_u64(9), Word::from_u64(0), Word::from_u64(41)];
    let v: Vec<_> = local_variables(SOURCE, 7, &step(Some(stack))).iter().map(shown).collect();
    assert_eq!(v[0].1, "0");
    assert_eq!(v[1].1, "true");
    assert_eq!(v[2].1, "(not yet declared)");
    let short = vec![Word::from_u64(1)];
    let w: Vec<_> = local_variables(SOURCE, 7, &step(Some(short))).iter().map(shown).collect();
    assert_eq!(w[0].1, "(declared at line 5)");
    assert_eq!(w[1].1, "true");
}

#[test]
fn outside_any_function_the_search_starts_at_the_current_line() {
    let v: Vec<_> = local_variables("uint256 x = 1;\nbool y;\n", 1, &step(None)).iter().map(shown).collect();
    assert_eq!(v, vec![("y".to_string(), "(not yet declared)".to_string(), "bool".to_string())]);
    let w = local_variables("a\nb\n", -5, &step(None));
    assert!(w.is_empty());
}

#[test]
fn test_local_variables_parsing_unit() {
    let source = "// SPDX-License-Identifier: MIT\n\
pragma solidity ^0.8.13;\n\
contract Test {\n\
    function doStuff(uint256 x) public {\n\
        uint256 a = x + 1;\n\
        bool flag = true;\n\
        address sender = msg.sender;\n\
        uint256 b = a * 2;\n\
    }\n\
}";
    let chars: Vec<char> = source.chars().collect();
    let lines: Vec<String> = split_lines(&chars).into_iter().map(|l| l.into_iter().collect()).collect();
    assert!(lines[3].trim().contains("function doStuff"), "line 4 should have function");
    assert!(lines[4].trim().starts_with("uint256 a"), "line 5 should have uint256 a");
    assert!(lines[5].trim().starts_with("bool flag"), "line 6 should have bool flag");
    assert!(lines[6].trim().starts_with("address sender"), "line 7 should have address sender");
    assert!(lines[7].trim().starts_with("uint256 b"), "line 8 should have uint256 b");
}
