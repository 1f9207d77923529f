use eretria::parse_string;
use eretria::parser::{Expr, Stat};

fn main_fn(body: Expr) -> Vec<Stat> {
    vec![Stat::Fn("main".to_string(), Vec::new(), body)]
}

#[test]
fn precedence_groups_stronger_right() {
    // 1 + 2 * 3 parses as 1 + (2 * 3)
    let root = parse_string("fn main() 1 + 2 * 3").unwrap();
    let expected = main_fn(Expr::BinOp(
        Box::new(Expr::Integer(1)),
        "+".to_string(),
        Box::new(Expr::BinOp(
            Box::new(Expr::Integer(2)),
            "*".to_string(),
            Box::new(Expr::Integer(3)),
        )),
    ));
    assert_eq!(root, expected);
}

#[test]
fn equal_precedence_groups_left() {
    // 1 + 2 + 3 parses as (1 + 2) + 3
    let root = parse_string("fn main() 1 + 2 + 3").unwrap();
    let expected = main_fn(Expr::BinOp(
        Box::new(Expr::BinOp(
            Box::new(Expr::Integer(1)),
            "+".to_string(),
            Box::new(Expr::Integer(2)),
        )),
        "+".to_string(),
        Box::new(Expr::Integer(3)),
    ));
    assert_eq!(root, expected);
}

#[test]
fn hex_literal_value() {
    let root = parse_string("fn main() 0xFF").unwrap();
    assert_eq!(root, main_fn(Expr::Integer(255)));
}

#[test]
fn binary_literal_value() {
    let root = parse_string("fn main() 0b1010").unwrap();
    assert_eq!(root, main_fn(Expr::Integer(10)));
}

#[test]
fn duodecimal_literal_value() {
    let root = parse_string("fn main() 0z10").unwrap();
    assert_eq!(root, main_fn(Expr::Integer(12)));
}

#[test]
fn negative_radix_literal_value() {
    let root = parse_string("fn main() -0x10").unwrap();
    assert_eq!(root, main_fn(Expr::Integer(-16)));
}

#[test]
fn float_keeps_text() {
    let root = parse_string("fn main() -202.5").unwrap();
    assert_eq!(root, main_fn(Expr::Float("-202.5".to_string())));
}

#[test]
fn string_escape_code_points() {
    // each escape decodes to the character with that code point
    let root = parse_string(r#"data[0] = "\d255\d128""#).unwrap();
    assert_eq!(root, vec![Stat::Data(0, "\u{ff}\u{80}".to_string())]);
}

#[test]
fn string_escape_hex_code_points() {
    let root = parse_string(r#"data[0] = "\xFF\xDD""#).unwrap();
    assert_eq!(root, vec![Stat::Data(0, "\u{ff}\u{dd}".to_string())]);
}

#[test]
fn string_escape_header_without_digit_is_literal() {
    // `\d` with no digit after it stands for the character `d` itself
    let root = parse_string(r#"data[0] = "\dz""#).unwrap();
    assert_eq!(root, vec![Stat::Data(0, "dz".to_string())]);
}

#[test]
fn data_offset_value() {
    let root = parse_string(r#"data[31] = "x""#).unwrap();
    assert_eq!(root, vec![Stat::Data(31, "x".to_string())]);
}

#[test]
fn parse_twice_identical() {
    // parsing the same source twice yields structurally identical trees
    let src = "data[0] = \"hi\" fn main() {a = 1; b(2, 3 + 4)} fn main2() return (1)";
    let first = parse_string(src);
    let second = parse_string(src);
    assert_eq!(first, second);
}

#[test]
fn statement_count_matches_declarations() {
    // one statement per top-level declaration; semicolons not counted
    let root = parse_string(";;data[0] = \"a\";; fn f() 1; fn g() 2 ;").unwrap();
    assert_eq!(root.len(), 3);
}

#[test]
fn chained_calls_fold_left() {
    let root = parse_string("fn main() f(1)(2)").unwrap();
    let expected = main_fn(Expr::Call(
        Box::new(Expr::Call(
            Box::new(Expr::Ident("f".to_string())),
            vec![Expr::Integer(1)],
        )),
        vec![Expr::Integer(2)],
    ));
    assert_eq!(root, expected);
}

#[test]
fn assignment_structure() {
    let root = parse_string("fn main() a = 1").unwrap();
    let expected = main_fn(Expr::Assignment(
        "a".to_string(),
        Box::new(Expr::Integer(1)),
    ));
    assert_eq!(root, expected);
}

#[test]
fn empty_block_is_allowed() {
    let root = parse_string("fn main() {}").unwrap();
    assert_eq!(root, main_fn(Expr::Block(Vec::new())));
}

#[test]
fn block_with_trailing_semicolon_fails() {
    assert!(parse_string("fn main() {1;}").is_err());
}

#[test]
fn exponent_binds_tighter_than_product() {
    // 2 * 3 ** 4 parses as 2 * (3 ** 4)
    let root = parse_string("fn main() 2 * 3 ** 4").unwrap();
    let expected = main_fn(Expr::BinOp(
        Box::new(Expr::Integer(2)),
        "*".to_string(),
        Box::new(Expr::BinOp(
            Box::new(Expr::Integer(3)),
            "**".to_string(),
            Box::new(Expr::Integer(4)),
        )),
    ));
    assert_eq!(root, expected);
}
