use bytecode::custom::NoCustomOperation;
use bytecode::interpreter::{ByteCode, Fault};
use bytecode::table::NameTable;

fn chars(s: &str) -> Vec<char> {
    s.chars().collect()
}

#[test]
fn test_bytecode_evaluate_case_1() {
    let code = "LOAD_VAL 1
        LOAD_VAL 2
        ADD
        LOAD_VAL 1
        WRITE_VAR \'a\'
        READ_VAR \'a\'
        MULTIPLY
        RETURN_VALUE";
    assert_eq!(ByteCode::evaluate_byte_code(code), 3);
}

#[test]
fn test_bytecode_evaluate_case_2() {
    let code = "LOAD_VAL 1
        WRITE_VAR 'x'
        LOAD_VAL 2
        WRITE_VAR 'y'
        READ_VAR 'x'
        LOAD_VAL 1
        ADD
        READ_VAR 'y'
        MULTIPLY
        RETURN_VALUE
";
    assert_eq!(ByteCode::evaluate_byte_code(code), 4);
}

#[test]
fn test_bytecode_evaluate_case_3() {
    let code = "LOAD_VAL 1
        WRITE_VAR 'x'
        LOAD_VAL 2
        WRITE_VAR 'y'
        READ_VAR 'x'
        LOAD_VAL 1
        ADD
        LOAD_VAL 1
        ADD
        READ_VAR 'y'
        MULTIPLY
        RETURN_VALUE
";
    assert_eq!(ByteCode::evaluate_byte_code(code), 6);
}

#[test]
fn single_load_returns_its_value() {
    assert_eq!(ByteCode::try_evaluate_byte_code("LOAD_VAL 42\nRETURN_VALUE"), Ok(42));
    assert_eq!(ByteCode::try_evaluate_byte_code("LOAD_VAL -7\nRETURN_VALUE"), Ok(-7));
    assert_eq!(ByteCode::try_evaluate_byte_code("LOAD_VAL +7\nRETURN_VALUE"), Ok(7));
}

#[test]
fn whitespace_and_blank_lines_are_ignored() {
    let code = "\n\t LOAD_VAL 2 \r\n\n   LOAD_VAL 5\u{A0}\n MULTIPLY\n\n  RETURN_VALUE  \n\n";
    assert_eq!(ByteCode::try_evaluate_byte_code(code), Ok(10));
}

#[test]
fn extreme_values_parse_and_overflow_is_refused() {
    assert_eq!(
        ByteCode::try_evaluate_byte_code("LOAD_VAL -9223372036854775808\nRETURN_VALUE"),
        Ok(i64::MIN)
    );
    assert_eq!(
        ByteCode::try_evaluate_byte_code("LOAD_VAL 9223372036854775807\nRETURN_VALUE"),
        Ok(i64::MAX)
    );
    assert_eq!(
        ByteCode::try_evaluate_byte_code("LOAD_VAL 9223372036854775808\nRETURN_VALUE"),
        Err(Fault::InvalidNumber)
    );
    assert_eq!(
        ByteCode::try_evaluate_byte_code(
            "LOAD_VAL 9223372036854775807\nLOAD_VAL 1\nADD\nRETURN_VALUE"
        ),
        Err(Fault::Overflow)
    );
    assert_eq!(
        ByteCode::try_evaluate_byte_code(
            "LOAD_VAL 4294967296\nLOAD_VAL 4294967296\nMULTIPLY\nRETURN_VALUE"
        ),
        Err(Fault::Overflow)
    );
}

#[test]
fn each_fault_has_an_input() {
    let cases: Vec<(&str, Fault)> = vec![
        ("", Fault::MissingReturn),
        ("LOAD_VAL 1", Fault::MissingReturn),
        ("RETURN_VALUE", Fault::NoCommands),
        ("PUSH 1\nRETURN_VALUE", Fault::UnknownCommand),
        ("LOAD_VAL\nRETURN_VALUE", Fault::OperandCount),
        ("LOAD_VAL  1\nRETURN_VALUE", Fault::OperandCount),
        ("LOAD_VAL 1\nADD\nRETURN_VALUE", Fault::StackUnderflow),
        ("LOAD_VAL one\nRETURN_VALUE", Fault::InvalidNumber),
        ("LOAD_VAL -\nRETURN_VALUE", Fault::InvalidNumber),
        ("WRITE_VAR 'a'\nRETURN_VALUE", Fault::WriteWithoutLoad),
        ("LOAD_VAL 1\nLOAD_VAL 2\nADD\nWRITE_VAR 'a'\nRETURN_VALUE", Fault::WriteWithoutLoad),
        ("LOAD_VAL 1\nWRITE_VAR a\nRETURN_VALUE", Fault::InvalidVariableName),
        ("LOAD_VAL 1\nWRITE_VAR ''\nRETURN_VALUE", Fault::InvalidVariableName),
        ("READ_VAR 'a'\nRETURN_VALUE", Fault::UnknownVariable),
        ("LOAD_VAL 1\nLOAD_VAL 2\nRETURN_VALUE", Fault::IllFormedStack),
        ("LOAD_VAL 1\nWRITE_VAR 'a'\nRETURN_VALUE", Fault::IllFormedStack),
    ];
    for (code, fault) in cases {
        assert_eq!(ByteCode::try_evaluate_byte_code(code), Err(fault), "program {:?}", code);
    }
}

#[test]
fn read_takes_the_variable_away() {
    let code = "LOAD_VAL 5\nWRITE_VAR 'v'\nREAD_VAR 'v'\nREAD_VAR 'v'\nRETURN_VALUE";
    assert_eq!(ByteCode::try_evaluate_byte_code(code), Err(Fault::UnknownVariable));
}

#[test]
fn write_then_read_gives_back_the_value() {
    let code = "LOAD_VAL 3\nLOAD_VAL 9\nWRITE_VAR 'v'\nREAD_VAR 'v'\nADD\nRETURN_VALUE";
    assert_eq!(ByteCode::try_evaluate_byte_code(code), Ok(12));
}

#[test]
fn commands_run_one_by_one() {
    let mut b: ByteCode<NoCustomOperation> = ByteCode::new();
    assert_eq!(b.parse_and_execute_cmd(&chars("LOAD_VAL 6"), None), Ok(()));
    let prev = chars("LOAD_VAL 6");
    assert_eq!(b.parse_and_execute_cmd(&chars("WRITE_VAR 'n'"), Some(&prev)), Ok(()));
    assert!(b.op_stack.is_empty());
    assert_eq!(b.parse_and_execute_cmd(&chars("READ_VAR 'n'"), None), Ok(()));
    assert_eq!(b.op_stack, vec![6]);
    assert_eq!(
        b.parse_and_execute_cmd(&chars("READ_VAR 'n'"), None),
        Err(Fault::UnknownVariable)
    );
    assert_eq!(b.parse_and_execute_cmd(&chars(""), None), Err(Fault::EmptyCommand));
}

fn double_top(
    mut stack: Vec<i64>,
    vars: NameTable<i64>,
    _cmd: Vec<char>,
    _prev: Option<Vec<char>>,
) -> (Vec<i64>, NameTable<i64>) {
    let top = stack.pop().unwrap();
    stack.push(2 * top);
    (stack, vars)
}

#[test]
fn extended_instructions_run_the_callers_operation() {
    let mut b = ByteCode::new();
    b.extend_instructions("DOUBLE", double_top, 1);
    assert_eq!(b.parse_and_execute_cmd(&chars("LOAD_VAL 21"), None), Ok(()));
    assert_eq!(b.parse_and_execute_cmd(&chars("DOUBLE"), None), Ok(()));
    assert_eq!(b.op_stack, vec![42]);
    assert_eq!(
        b.parse_and_execute_cmd(&chars("DOUBLE twice"), None),
        Err(Fault::OperandCount)
    );
    // A built-in name can be given a new meaning.
    b.extend_instructions("ADD", double_top, 1);
    assert_eq!(b.parse_and_execute_cmd(&chars("ADD"), None), Ok(()));
    assert_eq!(b.op_stack, vec![84]);
    assert_eq!(b.custom_operations.len(), 2);
}

#[test]
fn extended_operations_see_the_command_and_its_predecessor() {
    let mut b = ByteCode::new();
    b.extend_instructions(
        "STORE",
        |stack: Vec<i64>, mut vars: NameTable<i64>, cmd: Vec<char>, prev: Option<Vec<char>>| {
            let name: Vec<char> = cmd[7..cmd.len() - 1].to_vec();
            let seen = prev.map(|p| p.len() as i64).unwrap_or(-1);
            vars.insert(name, seen);
            (stack, vars)
        },
        2,
    );
    let prev = chars("LOAD_VAL 100");
    assert_eq!(b.parse_and_execute_cmd(&chars("STORE 'k'"), Some(&prev)), Ok(()));
    assert_eq!(b.parse_and_execute_cmd(&chars("READ_VAR 'k'"), None), Ok(()));
    assert_eq!(b.op_stack, vec![12]);
    let mut c: ByteCode<NoCustomOperation> = ByteCode::new();
    assert_eq!(c.parse_and_execute_cmd(&chars("STORE 'k'"), None), Err(Fault::UnknownCommand));
}

#[test]
fn parse_keeps_commands_before_return() {
    let mut b: ByteCode<NoCustomOperation> = ByteCode::new();
    let cmds = b.parse_cmds_from_block("  LOAD_VAL 1 \n\n ADD\nRETURN_VALUE\n").unwrap();
    assert_eq!(cmds, vec![chars("LOAD_VAL 1"), chars("ADD")]);
    assert_eq!(
        b.parse_cmds_from_block("LOAD_VAL 1\nRETURN_VALUE\nADD"),
        Err(Fault::MissingReturn)
    );
}

#[test]
fn variable_names_are_quoted() {
    assert_eq!(ByteCode::get_var_name(&chars("READ_VAR 'abc'")), Ok(chars("abc")));
    assert_eq!(ByteCode::get_var_name(&chars("READ_VAR '''")), Ok(chars("'")));
    assert_eq!(ByteCode::get_var_name(&chars("READ_VAR 'é'")), Ok(chars("é")));
    assert_eq!(
        ByteCode::get_var_name(&chars("READ_VAR 'abc")),
        Err(Fault::InvalidVariableName)
    );
    assert_eq!(ByteCode::get_var_name(&chars("READ_VAR")), Err(Fault::MissingOperand));
}

#[test]
fn execute_cmds_hands_no_predecessor_up_to_the_starting_index() {
    let mut b: ByteCode<NoCustomOperation> = ByteCode::new();
    let cmds = vec![chars("LOAD_VAL 1"), chars("WRITE_VAR 'a'")];
    assert_eq!(b.execute_cmds(cmds.clone(), 1), Err(Fault::WriteWithoutLoad));
    let mut c: ByteCode<NoCustomOperation> = ByteCode::new();
    assert_eq!(c.execute_cmds(cmds, 0), Ok(()));
    assert!(c.op_stack.is_empty());
}

#[test]
fn padding_leaves_programs_unchanged() {
    let plain = "LOAD_VAL 4\nWRITE_VAR 'w'\nREAD_VAR 'w'\nLOAD_VAL 3\nADD\nRETURN_VALUE";
    let padded = "\n\n  LOAD_VAL 4 \n\t\nWRITE_VAR 'w'\r\n   READ_VAR 'w'\nLOAD_VAL 3\n \nADD\t\nRETURN_VALUE\n\n";
    assert_eq!(ByteCode::try_evaluate_byte_code(plain), Ok(7));
    assert_eq!(ByteCode::try_evaluate_byte_code(padded), ByteCode::try_evaluate_byte_code(plain));
    let bad = "LOAD_VAL 4\nLOAD_VAL 5\nRETURN_VALUE";
    let bad_padded = "  LOAD_VAL 4\n\n LOAD_VAL 5  \nRETURN_VALUE";
    assert_eq!(ByteCode::try_evaluate_byte_code(bad_padded), ByteCode::try_evaluate_byte_code(bad));
}
