use bytecode::custom::NoCustomOperation;
use bytecode::interpreter::{ByteCode, Fault};
use bytecode::interpreter_with_loops::ByteCodeWithLoops;

#[test]
fn test_bytecode_evaluate_with_loops_case_1() {
    let code = "LOAD_VAL 1
        LOAD_VAL 2
        ADD
        LOAD_VAL 1
        WRITE_VAR \'a\'
        READ_VAR \'a\'
        MULTIPLY
        RETURN_VALUE";
    assert_eq!(ByteCodeWithLoops::evaluate_byte_code(code), 3);
}

#[test]
fn test_bytecode_evaluate_with_loops_case_2() {
    let code = "LOAD_VAL 1
        WRITE_VAR 'x'
        LOAD_VAL 2
        WRITE_VAR 'y'
        READ_VAR 'x'
        LOAD_VAL 1
        ADD
        READ_VAR 'y'
        MULTIPLY
        RETURN_VALUE
";
    assert_eq!(ByteCodeWithLoops::evaluate_byte_code(code), 4);
}

#[test]
fn test_bytecode_evaluate_with_loops_case_3() {
    let code = "LOAD_VAL 1
        WRITE_VAR 'x'
        LOAD_VAL 2
        WRITE_VAR 'y'
        READ_VAR 'x'
        LOAD_VAL 1
        ADD
        LOAD_VAL 1
        ADD
        READ_VAR 'y'
        MULTIPLY
        RETURN_VALUE
";
    assert_eq!(ByteCodeWithLoops::evaluate_byte_code(code), 6);
}

#[test]
fn test_bytecode_evaluate_with_loops_case_4() {
    let code = "LOAD_VAL 1
        WRITE_VAR 'x'
        LOAD_VAL 2
        WRITE_VAR 'y'
        READ_VAR 'x'
        LOAD_VAL 1
        ADD
        LOAD_VAL 1
        ADD
        READ_VAR 'y'
        MULTIPLY
LOOP_START 10
        LOAD_VAL 1
        ADD
LOOP_END
        RETURN_VALUE
";
    assert_eq!(ByteCodeWithLoops::evaluate_byte_code(code), 16);
}

#[test]
fn test_bytecode_evaluate_with_loops_case_5() {
    let code = "LOAD_VAL 1
        WRITE_VAR 'x'
        LOAD_VAL 2
        WRITE_VAR 'y'
        READ_VAR 'x'
        LOAD_VAL 1
        ADD
        LOAD_VAL 1
        ADD
        READ_VAR 'y'
        MULTIPLY
LOOP_START 8
        LOAD_VAL 1
        ADD
LOOP_END
LOOP_START 2
        LOAD_VAL 2
        ADD
LOOP_END

        RETURN_VALUE
";
    assert_eq!(ByteCodeWithLoops::evaluate_byte_code(code), 18);
}

#[test]
fn nested_loops_multiply_their_counts() {
    let code = "LOAD_VAL 0
LOOP_START 3
LOOP_START 4
LOAD_VAL 1
ADD
LOOP_END
LOOP_END
RETURN_VALUE";
    assert_eq!(ByteCodeWithLoops::try_evaluate_byte_code(code), Ok(12));
}

#[test]
fn loop_with_count_zero_runs_its_body_once() {
    let code = "LOAD_VAL 5\nLOOP_START 0\nLOAD_VAL 1\nADD\nLOOP_END\nLOAD_VAL 100\nADD\nRETURN_VALUE";
    // The loop consumes no line, the body runs once in the enclosing block,
    // and the `LOOP_END` then closes that block.
    assert_eq!(ByteCodeWithLoops::try_evaluate_byte_code(code), Ok(6));
}

#[test]
fn loop_end_at_the_outermost_level_ends_the_program() {
    let code = "LOAD_VAL 5\nLOOP_END\nLOAD_VAL 7\nRETURN_VALUE";
    assert_eq!(ByteCodeWithLoops::try_evaluate_byte_code(code), Ok(5));
}

#[test]
fn loop_faults() {
    assert_eq!(
        ByteCodeWithLoops::try_evaluate_byte_code("LOAD_VAL 1\nLOOP_START x\nLOOP_END\nRETURN_VALUE"),
        Err(Fault::InvalidLoopCount)
    );
    assert_eq!(
        ByteCodeWithLoops::try_evaluate_byte_code("LOAD_VAL 1\nLOOP_START -1\nLOOP_END\nRETURN_VALUE"),
        Err(Fault::InvalidLoopCount)
    );
    assert_eq!(
        ByteCodeWithLoops::try_evaluate_byte_code("LOAD_VAL 1\nLOOP_START\nLOOP_END\nRETURN_VALUE"),
        Err(Fault::UnknownCommand)
    );
    assert_eq!(
        ByteCodeWithLoops::try_evaluate_byte_code("LOAD_VAL 1\nLOOP_START 2\nADD\nLOOP_END\nRETURN_VALUE"),
        Err(Fault::StackUnderflow)
    );
    assert_eq!(
        ByteCodeWithLoops::try_evaluate_byte_code("LOAD_VAL 1\nLOOP_START 3\nLOAD_VAL 1\nLOOP_END\nRETURN_VALUE"),
        Err(Fault::IllFormedStack)
    );
}

#[test]
fn both_interpreters_agree_without_loops() {
    let programs = [
        "LOAD_VAL 3\nLOAD_VAL 4\nMULTIPLY\nRETURN_VALUE",
        "LOAD_VAL 3\nWRITE_VAR 'q'\nREAD_VAR 'q'\nREAD_VAR 'q'\nRETURN_VALUE",
        "LOAD_VAL 1\nLOAD_VAL 2\nRETURN_VALUE",
        "RETURN_VALUE",
        "BOGUS\nRETURN_VALUE",
    ];
    for p in programs {
        assert_eq!(
            ByteCodeWithLoops::try_evaluate_byte_code(p),
            ByteCode::try_evaluate_byte_code(p),
            "program {:?}",
            p
        );
    }
}

#[test]
fn sub_blocks_report_the_lines_they_consume() {
    let cmds: Vec<Vec<char>> = ["LOAD_VAL 1", "LOAD_VAL 2", "LOAD_VAL 3", "LOOP_END", "LOAD_VAL 9"]
        .iter()
        .map(|s| s.chars().collect())
        .collect();
    let mut b = ByteCodeWithLoops::<NoCustomOperation> { inner: ByteCode::new() };
    assert_eq!(b.evaluate_sub_blocks_from_line_number_n_times(&cmds, 1, 2), Ok(3));
    assert_eq!(b.inner.op_stack, vec![2, 3, 2, 3]);
    let mut z = ByteCodeWithLoops::<NoCustomOperation> { inner: ByteCode::new() };
    assert_eq!(z.evaluate_sub_blocks_from_line_number_n_times(&cmds, 1, 0), Ok(0));
    assert!(z.inner.op_stack.is_empty());
}

#[test]
fn sub_blocks_past_the_end_consume_nothing() {
    let cmds: Vec<Vec<char>> = ["LOAD_VAL 1"].iter().map(|s| s.chars().collect()).collect();
    let mut b = ByteCodeWithLoops::<NoCustomOperation> { inner: ByteCode::new() };
    assert_eq!(b.evaluate_sub_blocks_from_line_number_n_times(&cmds, 5, 3), Ok(0));
    assert_eq!(b.evaluate_sub_blocks_from_line_number_n_times(&cmds, 1, 2), Ok(0));
    assert!(b.inner.op_stack.is_empty());
}

#[test]
fn loop_evaluates_like_its_unrolled_body() {
    let looped = "LOAD_VAL 2\nLOOP_START 3\nLOAD_VAL 3\nMULTIPLY\nLOOP_END\nLOAD_VAL 1\nADD\nRETURN_VALUE";
    let unrolled = "LOAD_VAL 2\nLOAD_VAL 3\nMULTIPLY\nLOAD_VAL 3\nMULTIPLY\nLOAD_VAL 3\nMULTIPLY\nLOAD_VAL 1\nADD\nRETURN_VALUE";
    assert_eq!(ByteCodeWithLoops::try_evaluate_byte_code(looped), Ok(55));
    assert_eq!(
        ByteCodeWithLoops::try_evaluate_byte_code(looped),
        ByteCodeWithLoops::try_evaluate_byte_code(unrolled)
    );
}

#[test]
fn padding_leaves_loop_programs_unchanged() {
    let plain = "LOAD_VAL 0\nLOOP_START 2\nLOAD_VAL 5\nADD\nLOOP_END\nRETURN_VALUE";
    let padded = "\n  LOAD_VAL 0\t\n\n LOOP_START 2 \r\nLOAD_VAL 5\n\t\nADD\n  LOOP_END\nRETURN_VALUE \n";
    assert_eq!(ByteCodeWithLoops::try_evaluate_byte_code(plain), Ok(10));
    assert_eq!(
        ByteCodeWithLoops::try_evaluate_byte_code(padded),
        ByteCodeWithLoops::try_evaluate_byte_code(plain)
    );
}

#[test]
fn loops_run_added_operations() {
    let cmds: Vec<Vec<char>> = ["LOAD_VAL 1", "LOOP_START 3", "TWICE", "LOOP_END"]
        .iter()
        .map(|s| s.chars().collect())
        .collect();
    let mut b = ByteCodeWithLoops { inner: ByteCode::new() };
    b.inner.extend_instructions(
        "TWICE",
        |mut s: Vec<i64>, v: bytecode::table::NameTable<i64>, _c: Vec<char>, _p: Option<Vec<char>>| {
            let top = s.pop().unwrap();
            s.push(top * 2);
            (s, v)
        },
        1,
    );
    assert_eq!(b.evaluate_sub_blocks_from_line_number_n_times(&cmds, 0, 1), Ok(4));
    assert_eq!(b.inner.op_stack, vec![8]);
}
