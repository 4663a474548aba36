use tentacle::ast::OperatorData;
use tentacle::host::Host;
use tentacle::rt::{eval_code, exec_code, exec_target, RunSpace};
use tentacle::value::{ErrorKind, WrapValueObject};

/// Computes floats with the machine's doubles, records the lines written,
/// and answers every spawn with exit code 0.
struct TestHost {
    lines: Vec<String>,
    spawned: Vec<(String, Vec<String>)>,
}

impl Host for TestHost {
    fn emit_line(&mut self, line: &str) {
        self.lines.push(line.to_string());
    }

    fn spawn(&mut self, command: &str, args: &Vec<String>) -> Result<Option<i64>, String> {
        self.spawned.push((command.to_string(), args.clone()));
        if command == "missing_tool" {
            Err("not found".to_string())
        } else {
            Ok(Some(0))
        }
    }

    fn float_literal(&mut self, text: &str) -> u64 {
        text.parse::<f64>().unwrap().to_bits()
    }

    fn float_of_int(&mut self, value: i64) -> u64 {
        (value as f64).to_bits()
    }

    fn float_arith(&mut self, op: OperatorData, a: u64, b: u64) -> u64 {
        let (x, y) = (f64::from_bits(a), f64::from_bits(b));
        let r = match op {
            OperatorData::Add => x + y,
            OperatorData::Sub => x - y,
            OperatorData::Mul => x * y,
            _ => x / y,
        };
        r.to_bits()
    }

    fn float_text(&mut self, bits: u64) -> String {
        format!("{}", f64::from_bits(bits))
    }
}

fn space() -> RunSpace<TestHost> {
    RunSpace::new(TestHost { lines: Vec::new(), spawned: Vec::new() })
}

fn text(space: &mut RunSpace<TestHost>, v: &WrapValueObject) -> String {
    v.to_str(&mut space.machine)
}

#[test]
fn test_eval_code() {
    let code = r###"("test expr " + "这是个用来测试的字符串" + "-" + 15 + "-" + 10.5)"###;
    let mut space = space();
    let v = eval_code(code, &mut space).unwrap();
    assert_eq!(text(&mut space, &v), "test expr 这是个用来测试的字符串-15-10.5");
}

#[test]
fn test_exec() {
    let code = r###"
$target_index = 15
message test_command1
message test_command2 target_index ("test expr" + " 测试整数格式化 " + -15 + " 测试浮点数格式化 " + 10.5)
message test_command3 target_index ($target_index+-1)
target $clean:
    message target clean is $clean
target $build: $clean
    "用于测试的target"
    message target build is $build
message test_print_target $build

$select = 0
if $select == 0:
    message test eq and not eq "$select is" 0
elif $select == 1:
    message test eq and not eq "$select is" 1
elif $select == 2:
    message test eq and not eq "$select is" 2
else:
    message test eq and not eq "$select is not (0, 1, 2)"

$select = "a"
if $select == "a":
    message test eq and not eq "$select is" a
elif $select == "b":
    message test eq and not eq "$select is" b
elif $select == "c":
    message test eq and not eq "$select is" c
else:
    message test eq and not eq "$select is not (a, b, c)"
"###;
    let mut space = space();
    assert!(exec_code(code, &mut space).is_ok());
    assert!(exec_target(&mut space, "build").is_ok());
    let lines = &space.machine.host().lines;
    assert_eq!(
        lines,
        &vec![
            "test_command1".to_string(),
            "test_command2 target_index test expr 测试整数格式化 -15 测试浮点数格式化 10.5".to_string(),
            "test_command3 target_index 14".to_string(),
            "test_print_target TargetObject(\"build\", body_size=2, require=[\"clean\"])".to_string(),
            "test eq and not eq $select is 0".to_string(),
            "test eq and not eq $select is a".to_string(),
            "target clean is TargetObject(\"clean\", body_size=1, require=[])".to_string(),
            "target build is TargetObject(\"build\", body_size=2, require=[\"clean\"])".to_string(),
        ]
    );
}

#[test]
fn arithmetic_and_formatting() {
    let mut space = space();
    let v = eval_code(r#"("aa" + "bb" + 15 + " " + 10.5)"#, &mut space).unwrap();
    assert_eq!(text(&mut space, &v), "aabb15 10.5");
}

#[test]
fn assignment_and_message() {
    let mut space = space();
    exec_code("$x = 2\nmessage value is ($x + 3)\n", &mut space).unwrap();
    assert_eq!(space.machine.host().lines, vec!["value is 5".to_string()]);
}

#[test]
fn if_elif_else_by_integer() {
    let mut space = space();
    let code = "$s = 1\nif $s == 0:\n    message zero\nelif $s == 1:\n    message one\nelse:\n    message other\n";
    exec_code(code, &mut space).unwrap();
    assert_eq!(space.machine.host().lines, vec!["one".to_string()]);
}

#[test]
fn target_with_dependency() {
    let mut space = space();
    let code = "target $clean:\n    message cleaning\ntarget $build: $clean\n    message building\n";
    exec_code(code, &mut space).unwrap();
    exec_target(&mut space, "build").unwrap();
    assert_eq!(space.machine.host().lines, vec!["cleaning".to_string(), "building".to_string()]);
}

#[test]
fn missing_target() {
    let mut space = space();
    let e = exec_target(&mut space, "ghost").unwrap_err();
    assert_eq!(e, ErrorKind::NameError("ghost".to_string()));
    assert_eq!(e.to_str(), "NameError: name 'ghost' is not defined");
}

#[test]
fn unsupported_arithmetic() {
    let mut space = space();
    let e = eval_code(r#""a" - 1"#, &mut space).unwrap_err();
    assert_eq!(e, ErrorKind::FunctionNotImplemented);
    assert_eq!(e.to_str(), "FunctionNotImplementedError");
}

#[test]
fn assignment_then_lookup() {
    let mut space = space();
    exec_code("$x = 4 * 5 - 1\n", &mut space).unwrap();
    let a = eval_code("$x", &mut space).unwrap();
    let b = eval_code("4 * 5 - 1", &mut space).unwrap();
    assert!(matches!(a, WrapValueObject::Int(19)));
    assert!(matches!(b, WrapValueObject::Int(19)));
    exec_code("$x = \"later\"\n", &mut space).unwrap();
    let c = eval_code("$x", &mut space).unwrap();
    assert!(matches!(c, WrapValueObject::Str(ref t) if t == "later"));
}

#[test]
fn division_promotes_to_float() {
    let mut space = space();
    let v = eval_code("6 / 2", &mut space).unwrap();
    match v {
        WrapValueObject::Float(bits) => assert_eq!(f64::from_bits(bits), 3.0),
        other => panic!("not a float: {:?}", other),
    }
    assert_eq!(text(&mut space, &v), "3");
}

#[test]
fn string_concatenation() {
    let mut space = space();
    let v = eval_code(r#""a" + 1 + 2.5"#, &mut space).unwrap();
    assert_eq!(text(&mut space, &v), "a12.5");
}

#[test]
fn equality_is_reflexive() {
    let mut space = space();
    for e in ["1 == 1", "2.5 == 2.5", "\"s\" == \"s\"", "(1 == 2) == (1 == 2)", "1 == 1.0", "0.0 == -0.0"] {
        let v = eval_code(e, &mut space).unwrap();
        assert!(matches!(v, WrapValueObject::Bool(true)), "{}", e);
    }
    exec_code("target $t: $u\n    message t\ntarget $w:\n    message w\n", &mut space).unwrap();
    assert!(matches!(eval_code("$t == $t", &mut space).unwrap(), WrapValueObject::Bool(true)));
    assert!(matches!(eval_code("$t == $w", &mut space).unwrap(), WrapValueObject::Bool(false)));
    assert!(matches!(eval_code("$t == 1", &mut space).unwrap(), WrapValueObject::Bool(false)));
    let v = eval_code("1 != 1", &mut space).unwrap();
    assert!(matches!(v, WrapValueObject::Bool(false)));
    let v = eval_code("\"1\" == 1", &mut space).unwrap();
    assert!(matches!(v, WrapValueObject::Bool(false)));
}

#[test]
fn if_runs_one_branch() {
    let mut space = space();
    let code = "$n = 0\nif 1:\n    $n = $n + 1\nelif 1:\n    $n = $n + 10\nelse:\n    $n = $n + 100\nif 0:\n    $n = $n + 1000\n";
    exec_code(code, &mut space).unwrap();
    let v = eval_code("$n", &mut space).unwrap();
    assert!(matches!(v, WrapValueObject::Int(1)));
}

#[test]
fn dependencies_depth_first_in_order() {
    let mut space = space();
    let code = "target $a:\n    message a\ntarget $b: $a\n    message b\ntarget $c:\n    message c\ntarget $all: $b $c $a\n    message all\n";
    exec_code(code, &mut space).unwrap();
    exec_target(&mut space, "all").unwrap();
    let want: Vec<String> = ["a", "b", "c", "a", "all"].iter().map(|s| s.to_string()).collect();
    assert_eq!(space.machine.host().lines, want);
}

#[test]
fn dependency_cycle_is_reported() {
    let mut space = space();
    exec_code("target $a: $b\n    message a\ntarget $b: $a\n    message b\n", &mut space).unwrap();
    let e = exec_target(&mut space, "a").unwrap_err();
    assert_eq!(e, ErrorKind::RuntimeError("dependency cycle: a -> b -> a".to_string()));
}

#[test]
fn non_target_is_type_error() {
    let mut space = space();
    exec_code("$x = 1\n", &mut space).unwrap();
    assert_eq!(exec_target(&mut space, "x").unwrap_err(), ErrorKind::TypeError);
}

#[test]
fn unknown_variable() {
    let mut space = space();
    let e = eval_code("$nope", &mut space).unwrap_err();
    assert_eq!(e.to_str(), "RuntimeError: key nope not found");
}

#[test]
fn external_commands() {
    let mut space = space();
    exec_code("$r = build_tool one 2\n", &mut space).unwrap();
    assert_eq!(space.machine.host().spawned, vec![("build_tool".to_string(), vec!["one".to_string(), "2".to_string()])]);
    assert!(matches!(eval_code("$r", &mut space).unwrap(), WrapValueObject::Int(0)));
    let e = exec_code("missing_tool\n", &mut space).unwrap_err();
    assert_eq!(e.to_str(), "CommandError(missing_tool): not found");
}

#[test]
fn integer_overflow_is_an_error() {
    let mut space = space();
    let e = eval_code("9223372036854775807 + 1", &mut space).unwrap_err();
    assert_eq!(e, ErrorKind::RuntimeError("integer overflow".to_string()));
}

#[test]
fn value_text_forms() {
    let mut space = space();
    let list = WrapValueObject::List(vec![
        WrapValueObject::Int(1),
        WrapValueObject::Str("x".to_string()),
        WrapValueObject::Nil,
        WrapValueObject::Bool(true),
    ]);
    assert_eq!(text(&mut space, &list), "[1, \"x\", None, true]");
    let joined = list.t_add(&WrapValueObject::List(vec![WrapValueObject::Int(2)]), &mut space.machine).unwrap();
    assert_eq!(text(&mut space, &joined), "[1, \"x\", None, true, 2]");
    assert_eq!(ErrorKind::Syntax { error_line_number: 12 }.to_str(), "SyntaxError: line 12");
    assert_eq!(ErrorKind::CommandError("c".to_string(), "m".to_string()).to_str(), "CommandError(c): m");
    assert!(!WrapValueObject::Int(0).to_bool());
    assert!(!WrapValueObject::Float((-0.0f64).to_bits()).to_bool());
    assert!(WrapValueObject::Float(f64::NAN.to_bits()).to_bool());
    assert!(WrapValueObject::Str(String::new()).to_bool());
    assert!(!WrapValueObject::Nil.to_bool());
}

#[test]
fn list_iteration() {
    let list = WrapValueObject::List(vec![WrapValueObject::Int(1), WrapValueObject::Int(2)]);
    let mut it = list.t_get_iter().unwrap();
    assert!(matches!(it.iter_next(), Some(WrapValueObject::Int(1))));
    assert!(matches!(it.iter_next(), Some(WrapValueObject::Int(2))));
    assert!(it.iter_next().is_none());
    assert_eq!(WrapValueObject::Int(1).t_get_iter().unwrap_err(), ErrorKind::FunctionNotImplemented);
}

#[test]
fn value_arithmetic_methods() {
    let mut space = space();
    let m = &mut space.machine;
    assert!(matches!(WrapValueObject::Int(7).t_sub(&WrapValueObject::Int(9), m), Ok(WrapValueObject::Int(-2))));
    assert!(matches!(WrapValueObject::Int(7).t_mul(&WrapValueObject::Int(-3), m), Ok(WrapValueObject::Int(-21))));
    match WrapValueObject::Int(7).t_div(&WrapValueObject::Int(2), m) {
        Ok(WrapValueObject::Float(b)) => assert_eq!(f64::from_bits(b), 3.5),
        other => panic!("unexpected {:?}", other),
    }
    match WrapValueObject::Float(1.5f64.to_bits()).t_mul(&WrapValueObject::Int(2), m) {
        Ok(WrapValueObject::Float(b)) => assert_eq!(f64::from_bits(b), 3.0),
        other => panic!("unexpected {:?}", other),
    }
    assert!(matches!(
        WrapValueObject::Bool(true).t_add(&WrapValueObject::Int(1), m),
        Err(ErrorKind::FunctionNotImplemented)
    ));
    assert!(matches!(
        WrapValueObject::Int(1).t_add(&WrapValueObject::Str("a".to_string()), m),
        Err(ErrorKind::FunctionNotImplemented)
    ));
    assert!(matches!(
        WrapValueObject::Int(i64::MIN).t_sub(&WrapValueObject::Int(1), m),
        Err(ErrorKind::RuntimeError(_))
    ));
    let nan = WrapValueObject::Float(f64::NAN.to_bits());
    assert!(matches!(nan.t_eq(&WrapValueObject::Float(f64::NAN.to_bits()), m), Ok(WrapValueObject::Bool(false))));
    assert!(matches!(nan.t_not_eq(&WrapValueObject::Int(1), m), Ok(WrapValueObject::Bool(true))));
}
