//! Parsing of debug console expressions.

use sol_dap::expr_parser::{parse, BinOp, Expr};

// ===== Literals =====

#[test]
fn parse_hex_literal() {
    assert_eq!(parse("0xff").unwrap(), Expr::HexLiteral("0xff".into()));
    assert_eq!(parse("0x0").unwrap(), Expr::HexLiteral("0x0".into()));
    assert_eq!(parse("0xDEAD").unwrap(), Expr::HexLiteral("0xDEAD".into()));
}

#[test]
fn parse_dec_literal() {
    assert_eq!(parse("42").unwrap(), Expr::DecLiteral("42".into()));
    assert_eq!(parse("0").unwrap(), Expr::DecLiteral("0".into()));
    assert_eq!(
        parse("99000000000000000000").unwrap(),
        Expr::DecLiteral("99000000000000000000".into())
    );
}

// ===== Keywords =====

#[test]
fn parse_keywords() {
    assert_eq!(parse("pc").unwrap(), Expr::Keyword("pc".into()));
    assert_eq!(parse("gas").unwrap(), Expr::Keyword("gas".into()));
    assert_eq!(
        parse("msg.sender").unwrap(),
        Expr::Keyword("msg.sender".into())
    );
    assert_eq!(parse("stack").unwrap(), Expr::Keyword("stack".into()));
    assert_eq!(parse("help").unwrap(), Expr::Keyword("help".into()));
    assert_eq!(parse("?").unwrap(), Expr::Keyword("?".into()));
}

// ===== Identifiers =====

#[test]
fn parse_ident() {
    assert_eq!(parse("number").unwrap(), Expr::Ident("number".into()));
    assert_eq!(parse("fee").unwrap(), Expr::Ident("fee".into()));
    assert_eq!(
        parse("totalDeposits").unwrap(),
        Expr::Ident("totalDeposits".into())
    );
    assert_eq!(parse("_private").unwrap(), Expr::Ident("_private".into()));
}

// ===== Stack index =====

#[test]
fn parse_stack_index() {
    assert_eq!(parse("stack[0]").unwrap(), Expr::StackIndex(0));
    assert_eq!(parse("stack[4]").unwrap(), Expr::StackIndex(4));
    assert_eq!(parse("stack[12]").unwrap(), Expr::StackIndex(12));
}

#[test]
fn parse_stack_index_invalid() {
    assert!(parse("stack[abc]").is_err());
}

// ===== Memory access =====

#[test]
fn parse_memory_access() {
    assert_eq!(
        parse("memory[32]").unwrap(),
        Expr::MemoryAccess {
            offset: 32,
            length: None
        }
    );
    assert_eq!(
        parse("memory[0:64]").unwrap(),
        Expr::MemoryAccess {
            offset: 0,
            length: Some(64)
        }
    );
}

// ===== Mapping lookups =====

#[test]
fn parse_mapping_single_key() {
    assert_eq!(
        parse("deposits[msg.sender]").unwrap(),
        Expr::MappingLookup {
            name: "deposits".into(),
            keys: vec![Expr::Keyword("msg.sender".into())],
        }
    );
}

#[test]
fn parse_mapping_hex_key() {
    assert_eq!(
        parse("_balances[0xdead]").unwrap(),
        Expr::MappingLookup {
            name: "_balances".into(),
            keys: vec![Expr::HexLiteral("0xdead".into())],
        }
    );
}

#[test]
fn parse_mapping_nested() {
    assert_eq!(
        parse("_allowances[from][spender]").unwrap(),
        Expr::MappingLookup {
            name: "_allowances".into(),
            keys: vec![Expr::Ident("from".into()), Expr::Ident("spender".into()),],
        }
    );
}

// ===== Binary operations =====

#[test]
fn parse_add() {
    assert_eq!(
        parse("1 + 1").unwrap(),
        Expr::BinaryOp {
            lhs: Box::new(Expr::DecLiteral("1".into())),
            op: BinOp::Add,
            rhs: Box::new(Expr::DecLiteral("1".into())),
        }
    );
}

#[test]
fn parse_hex_sub() {
    assert_eq!(
        parse("0xff - 32").unwrap(),
        Expr::BinaryOp {
            lhs: Box::new(Expr::HexLiteral("0xff".into())),
            op: BinOp::Sub,
            rhs: Box::new(Expr::DecLiteral("32".into())),
        }
    );
}

#[test]
fn parse_stack_shift() {
    assert_eq!(
        parse("stack[4] << 8").unwrap(),
        Expr::BinaryOp {
            lhs: Box::new(Expr::StackIndex(4)),
            op: BinOp::Shl,
            rhs: Box::new(Expr::DecLiteral("8".into())),
        }
    );
}

#[test]
fn parse_hex_and_ident() {
    assert_eq!(
        parse("0xff & fee").unwrap(),
        Expr::BinaryOp {
            lhs: Box::new(Expr::HexLiteral("0xff".into())),
            op: BinOp::BitAnd,
            rhs: Box::new(Expr::Ident("fee".into())),
        }
    );
}

#[test]
fn parse_mapping_plus_literal() {
    assert_eq!(
        parse("deposits[msg.sender] + 10").unwrap(),
        Expr::BinaryOp {
            lhs: Box::new(Expr::MappingLookup {
                name: "deposits".into(),
                keys: vec![Expr::Keyword("msg.sender".into())],
            }),
            op: BinOp::Add,
            rhs: Box::new(Expr::DecLiteral("10".into())),
        }
    );
}

#[test]
fn parse_stack_plus_literal() {
    assert_eq!(
        parse("stack[1] + 2").unwrap(),
        Expr::BinaryOp {
            lhs: Box::new(Expr::StackIndex(1)),
            op: BinOp::Add,
            rhs: Box::new(Expr::DecLiteral("2".into())),
        }
    );
}

#[test]
fn parse_all_operators() {
    for (op_str, expected_op) in [
        ("+", BinOp::Add),
        ("-", BinOp::Sub),
        ("*", BinOp::Mul),
        ("/", BinOp::Div),
        ("%", BinOp::Mod),
        ("&", BinOp::BitAnd),
        ("|", BinOp::BitOr),
        ("^", BinOp::BitXor),
        ("<<", BinOp::Shl),
        (">>", BinOp::Shr),
    ] {
        let input = format!("1 {op_str} 2");
        let expr = parse(&input).unwrap();
        match expr {
            Expr::BinaryOp { op, .. } => assert_eq!(op, expected_op, "failed for op: {op_str}"),
            other => panic!("expected BinaryOp for '{input}', got: {other:?}"),
        }
    }
}

#[test]
fn parse_chained_add() {
    // 1 + 2 + 3 should parse as (1 + 2) + 3 (left-associative)
    let expr = parse("1 + 2 + 3").unwrap();
    assert_eq!(
        expr,
        Expr::BinaryOp {
            lhs: Box::new(Expr::BinaryOp {
                lhs: Box::new(Expr::DecLiteral("1".into())),
                op: BinOp::Add,
                rhs: Box::new(Expr::DecLiteral("2".into())),
            }),
            op: BinOp::Add,
            rhs: Box::new(Expr::DecLiteral("3".into())),
        }
    );
}

#[test]
fn parse_precedence_mul_add() {
    // 2 + 3 * 4 should parse as 2 + (3 * 4)
    let expr = parse("2 + 3 * 4").unwrap();
    assert_eq!(
        expr,
        Expr::BinaryOp {
            lhs: Box::new(Expr::DecLiteral("2".into())),
            op: BinOp::Add,
            rhs: Box::new(Expr::BinaryOp {
                lhs: Box::new(Expr::DecLiteral("3".into())),
                op: BinOp::Mul,
                rhs: Box::new(Expr::DecLiteral("4".into())),
            }),
        }
    );
}

// ===== Whitespace handling =====

#[test]
fn parse_with_extra_whitespace() {
    assert_eq!(parse("  0xff  ").unwrap(), Expr::HexLiteral("0xff".into()));
    assert_eq!(
        parse("  1  +  2  ").unwrap(),
        Expr::BinaryOp {
            lhs: Box::new(Expr::DecLiteral("1".into())),
            op: BinOp::Add,
            rhs: Box::new(Expr::DecLiteral("2".into())),
        }
    );
}

// ===== Errors =====

#[test]
fn parse_empty() {
    assert!(parse("").is_err());
    assert!(parse("   ").is_err());
}

#[test]
fn parse_unclosed_bracket() {
    assert!(parse("deposits[msg.sender").is_err());
}
