use tentacle::ast::{Node, OperatorData, ValueData};
use tentacle::parse::{parse_code, parse_expr, Parser};
use tentacle::value::ErrorKind;

fn int_node(v: i64) -> Node {
    Node::Value(ValueData::Int(v))
}

fn expr(l: Node, op: OperatorData, r: Node) -> Node {
    Node::create_expr(l, op, r)
}

#[test]
fn test_parse_name_node() {
    let p = Parser::new("$11T");
    assert_eq!(p.parse_name_node(0), Some((Node::Name("11T".to_string()), 4)));
}

#[test]
fn test_value_parse() {
    let p = Parser::new("11");
    assert_eq!(p.parse_value(0), Some((ValueData::Int(11), 2)));
    let p = Parser::new("11.5");
    assert_eq!(p.parse_value(0), Some((ValueData::Float("11.5".to_string()), 4)));
    let p = Parser::new(r###""11.5""###);
    assert_eq!(p.parse_value(0), Some((ValueData::String("11.5".to_string()), 6)));
}

#[test]
fn test_expr_parse() {
    let input = "18 + 6 * 8.5 * (9+1)";
    let p = Parser::new(input);
    assert_eq!(
        p.parse_expr(0),
        Some((
            expr(
                int_node(18),
                OperatorData::Add,
                expr(
                    expr(int_node(6), OperatorData::Mul, Node::Value(ValueData::Float("8.5".to_string()))),
                    OperatorData::Mul,
                    expr(int_node(9), OperatorData::Add, int_node(1)),
                ),
            ),
            input.chars().count(),
        ))
    );
    let p = Parser::new("$test+6");
    assert_eq!(
        p.parse_expr(0),
        Some((expr(Node::Name("test".to_string()), OperatorData::Add, int_node(6)), 7))
    );
    let code = r#""aa" + "bb" + 15 + " " + 10.5"#;
    assert!(parse_expr(code).is_ok());
}

#[test]
fn test_parse_command() {
    let input = r#"message test_command2 target_index ("aa" + "bb" + 15 + " " + 10.5)"#;
    let p = Parser::new(input);
    let (node, end) = p.parse_command(0).unwrap();
    assert_eq!(end, input.chars().count());
    match node {
        Node::Command { command, args } => {
            assert_eq!(command, "message");
            assert_eq!(args.len(), 3);
            assert_eq!(args[0], Node::Value(ValueData::String("test_command2".to_string())));
            assert_eq!(args[1], Node::Value(ValueData::String("target_index".to_string())));
            assert!(matches!(args[2], Node::Expr(..)));
        }
        _ => panic!("not a command"),
    }
}

#[test]
fn test_parse_set_attr() {
    let p = Parser::new("$t = 15\n");
    assert_eq!(
        p.parse_set_attr(0),
        Some((Node::SetAttr { name: "t".to_string(), value: Box::new(int_node(15)) }, 7))
    );
}

#[test]
fn test_parse_line() {
    let p = Parser::new("$t = 15\n$t = 15");
    assert_eq!(
        p.parse_item(0, 0),
        Some((Node::SetAttr { name: "t".to_string(), value: Box::new(int_node(15)) }, 8))
    );
}

#[test]
fn print_build() {
    let code = r###"
$target_index = 15
message test_command1
message test_command2 target_index ("aa" + "bb" + 15 + " " + 10.5)
message test_command3 target_index ($target_index+1)
"###;
    assert!(parse_code(code).is_ok());
    let code = r###"
$test_value = message test_command
"###;
    assert!(parse_code(code).is_ok());
    let code = r###"
"这是一个字符串"
"###;
    assert!(parse_code(code).is_ok());
    let code = r###"
if $test_value:
    $test_value = 0
elif $test_value:
    $test_value = 0
else:
    $test_value = 2
if $test_value:
    $test_value = 0

"###;
    match parse_code(code) {
        Ok(Node::Module { body }) => {
            assert_eq!(body.len(), 2);
            match &body[0] {
                Node::If { elif_nodes, else_node, .. } => {
                    assert_eq!(elif_nodes.len(), 1);
                    assert!(else_node.is_some());
                }
                _ => panic!("not an if"),
            }
        }
        other => panic!("unexpected {:?}", other),
    }
    let code = r###"
target $main:
    message target main is $main"###;
    assert!(parse_code(code).is_ok());
    let code = r###"
target $build: $clean
    message test_command target_index ($target_index+1)
target $main:
    message target main is $main"###;
    match parse_code(code) {
        Ok(Node::Module { body }) => {
            assert_eq!(body.len(), 2);
            match &body[0] {
                Node::Target { name, require, body } => {
                    assert_eq!(name, "build");
                    assert_eq!(require, &vec!["clean".to_string()]);
                    assert_eq!(body.len(), 1);
                }
                _ => panic!("not a target"),
            }
        }
        other => panic!("unexpected {:?}", other),
    }
}

#[test]
fn precedence_mul_binds_tighter() {
    let a = parse_expr("1 + 2 * 3").unwrap();
    let b = parse_expr("1 + (2 * 3)").unwrap();
    assert_eq!(a, b);
    assert_eq!(a, expr(int_node(1), OperatorData::Add, expr(int_node(2), OperatorData::Mul, int_node(3))));
    let c = parse_expr("1 * 2 + 3").unwrap();
    assert_eq!(c, parse_expr("(1 * 2) + 3").unwrap());
    let d = parse_expr("1 == 2 + 3 * 4").unwrap();
    assert_eq!(
        d,
        expr(int_node(1), OperatorData::Eq, expr(int_node(2), OperatorData::Add, expr(int_node(3), OperatorData::Mul, int_node(4))))
    );
}

#[test]
fn equal_priority_groups_left() {
    let a = parse_expr("1 - 2 - 3").unwrap();
    assert_eq!(a, expr(expr(int_node(1), OperatorData::Sub, int_node(2)), OperatorData::Sub, int_node(3)));
    assert_eq!(a, parse_expr("(1 - 2) - 3").unwrap());
}

#[test]
fn reparse_of_parenthesised_print() {
    let a = parse_expr("$a + 2 * (3 - $b) / 4 == 5").unwrap();
    let b = parse_expr("(($a + ((2 * (3 - $b)) / 4)) == 5)").unwrap();
    assert_eq!(a, b);
}

#[test]
fn syntax_errors() {
    assert_eq!(parse_code("\"abc\n"), Err(ErrorKind::Syntax { error_line_number: 1 }));
    assert_eq!(parse_code("$x = 1\n$y = 1 +\n"), Err(ErrorKind::Syntax { error_line_number: 2 }));
    assert_eq!(parse_code("$x = 1\n\n$y = (1 + 2\n"), Err(ErrorKind::Syntax { error_line_number: 3 }));
    assert!(parse_code("message (1 + 2\n").is_ok());
    assert_eq!(parse_expr("(1 + 2"), Err(ErrorKind::Syntax { error_line_number: 1 }));
    assert_eq!(parse_expr("1 +"), Err(ErrorKind::Syntax { error_line_number: 1 }));
}

#[test]
fn literals() {
    let p = Parser::new("-42");
    assert_eq!(p.parse_value(0), Some((ValueData::Int(-42), 3)));
    let p = Parser::new("+-1.25");
    assert_eq!(p.parse_value(0), Some((ValueData::Float("-1.25".to_string()), 6)));
    let p = Parser::new("9223372036854775807");
    assert_eq!(p.parse_value(0), Some((ValueData::Int(9223372036854775807), 19)));
    let p = Parser::new("9223372036854775808");
    assert_eq!(p.parse_value(0), None);
    let p = Parser::new(r#""a\"b" rest"#);
    assert_eq!(p.parse_value(0), Some((ValueData::String("a\\\"b".to_string()), 6)));
    let p = Parser::new("\"\"");
    assert_eq!(p.parse_value(0), None);
}

#[test]
fn indentation_and_blank_lines() {
    let code = "target $a:\n\tmessage one\n\n    message two\nmessage three\n\n\n";
    match parse_code(code) {
        Ok(Node::Module { body }) => {
            assert_eq!(body.len(), 2);
            match &body[0] {
                Node::Target { body, .. } => assert_eq!(body.len(), 2),
                _ => panic!("not a target"),
            }
        }
        other => panic!("unexpected {:?}", other),
    }
    assert!(parse_code("  message x\n").is_err());
    assert!(parse_code("\r\nmessage x\r\n").is_ok());
    assert_eq!(parse_code(""), Ok(Node::Module { body: Vec::new() }));
}

#[test]
fn mixed_indentation_is_rejected() {
    assert_eq!(
        parse_code("target $a:\n\t    message x\n"),
        Err(ErrorKind::Syntax { error_line_number: 2 })
    );
    assert_eq!(
        parse_code("target $a:\n    \tmessage x\n"),
        Err(ErrorKind::Syntax { error_line_number: 2 })
    );
    assert!(parse_code("target $a:\n\t\tmessage x\n").is_err());
    assert!(parse_code("target $a:\n\tmessage x\n    message y\n").is_ok());
}

#[test]
fn unterminated_string_on_second_line() {
    assert_eq!(
        parse_code("$a = 1\n$s = \"abc\n"),
        Err(ErrorKind::Syntax { error_line_number: 2 })
    );
}
