//! The byte-code interpreter.
//!
//! A program is a block of text: one command per line, surrounding
//! whitespace and blank lines ignored, and a last command `RETURN_VALUE`.
//! Commands operate on a stack of `i64` values and a set of named variables:
//!
//! - `LOAD_VAL n` pushes the integer `n`;
//! - `ADD` and `MULTIPLY` pop two values and push their sum or product;
//! - `WRITE_VAR 'x'` pops a value into the variable `x`; it must follow a
//!   command that loads a value;
//! - `READ_VAR 'x'` takes the value of `x` out of the variables and pushes it.
//!
//! After the last command before `RETURN_VALUE` the stack must hold exactly
//! one value, which is the program's result.
//!
//! A caller can add instructions that run operations of its own
//! (`extend_instructions`, see `crate::custom`).

use vstd::prelude::*;

use crate::custom::{CustomOperation, NoCustomOperation, OperationArgs, OperationResult};
use crate::table::NameTable;
use crate::text::{
    copy_range, all_space, lemma_trim_all_space, lemma_trim_padding, chars_of, contains_chars, has_infix, parse_i64, parse_i64_chars, same_chars, split,
    split_chars, trim, trim_chars, views,
};

verus! {

/// What a command does.
#[derive(Clone, Copy, Debug, PartialEq, Eq, Structural)]
pub enum Operation {
    Add,
    Multiply,
    LoadVal,
    WriteVar,
    ReadVar,
}

/// An entry of the instruction table: the operation a command name stands
/// for, and how many space-separated parts a command using it has (the name
/// included).
#[derive(Clone, Copy, Debug, PartialEq, Eq, Structural)]
pub struct Instruction {
    pub operation: Operation,
    pub operands_number: usize,
}

/// Why a program is rejected.
#[derive(Clone, Copy, Debug, PartialEq, Eq, Structural)]
pub enum Fault {
    /// The program has no commands, or its last command is not `RETURN_VALUE`.
    MissingReturn,
    /// `RETURN_VALUE` is the only command.
    NoCommands,
    /// A command is empty.
    EmptyCommand,
    /// The first part of a command names no instruction.
    UnknownCommand,
    /// A command has another number of parts than its instruction asks for.
    OperandCount,
    /// A command lacks the operand that its operation reads.
    MissingOperand,
    /// The stack holds fewer values than the operation pops.
    StackUnderflow,
    /// The result of `ADD` or `MULTIPLY` does not fit in `i64`.
    Overflow,
    /// The operand of `LOAD_VAL` is no `i64` numeral.
    InvalidNumber,
    /// `WRITE_VAR` does not follow a command that loads a value.
    WriteWithoutLoad,
    /// A variable operand is not a name enclosed in single quotes.
    InvalidVariableName,
    /// `READ_VAR` names a variable that holds no value.
    UnknownVariable,
    /// The count of `LOOP_START` is no `usize` numeral.
    InvalidLoopCount,
    /// At the end the stack does not hold exactly one value.
    IllFormedStack,
}

/// The state that commands act on: the operand stack (its top is the last
/// element) and the registered variables.
#[verifier::ext_equal]
pub struct Machine {
    pub stack: Seq<i64>,
    pub vars: Map<Seq<char>, i64>,
}

/// The state a program starts in: an empty stack and no variables.
pub open spec fn initial_machine() -> Machine {
    Machine { stack: Seq::empty(), vars: Map::empty() }
}

/// The instruction table that every interpreter starts with.
pub open spec fn default_instructions() -> Map<Seq<char>, Instruction> {
    Map::empty().insert("ADD"@, Instruction { operation: Operation::Add, operands_number: 1 }).insert(
        "MULTIPLY"@,
        Instruction { operation: Operation::Multiply, operands_number: 1 },
    ).insert("LOAD_VAL"@, Instruction { operation: Operation::LoadVal, operands_number: 2 }).insert(
        "WRITE_VAR"@,
        Instruction { operation: Operation::WriteVar, operands_number: 2 },
    ).insert("READ_VAR"@, Instruction { operation: Operation::ReadVar, operands_number: 2 })
}

/// The variable named by the second part of a command: the characters
/// between the single quotes that enclose it.
pub open spec fn variable_name(parts: Seq<Seq<char>>) -> Result<Seq<char>, Fault> {
    if parts.len() < 2 {
        Err(Fault::MissingOperand)
    } else {
        let p = parts[1];
        if p.len() >= 3 && p[0] == '\'' && p.last() == '\'' {
            Ok(p.subrange(1, p.len() - 1))
        } else {
            Err(Fault::InvalidVariableName)
        }
    }
}

/// Whether the command before a `WRITE_VAR` loads a value: it mentions
/// `LOAD_VAR` or `LOAD_VAL`.
pub open spec fn follows_load(prev: Option<Seq<char>>) -> bool {
    match prev {
        Some(p) => has_infix(p, "LOAD_VAR"@) || has_infix(p, "LOAD_VAL"@),
        None => false,
    }
}

/// What `operation` does to the machine `m`, for a command split into `parts`
/// and preceded by the command `prev`.
pub open spec fn apply(
    operation: Operation,
    parts: Seq<Seq<char>>,
    prev: Option<Seq<char>>,
    m: Machine,
) -> Result<Machine, Fault> {
    match operation {
        Operation::Add | Operation::Multiply => {
            if m.stack.len() < 2 {
                Err(Fault::StackUnderflow)
            } else {
                let top = m.stack.last();
                let below = m.stack[m.stack.len() - 2];
                let v = if operation is Add {
                    top + below
                } else {
                    top * below
                };
                if i64::MIN <= v <= i64::MAX {
                    Ok(Machine { stack: m.stack.drop_last().drop_last().push(v as i64), vars: m.vars })
                } else {
                    Err(Fault::Overflow)
                }
            }
        },
        Operation::LoadVal => {
            if parts.len() < 2 {
                Err(Fault::MissingOperand)
            } else {
                match parse_i64(parts[1]) {
                    Some(v) => Ok(Machine { stack: m.stack.push(v), vars: m.vars }),
                    None => Err(Fault::InvalidNumber),
                }
            }
        },
        Operation::WriteVar => {
            if !follows_load(prev) {
                Err(Fault::WriteWithoutLoad)
            } else {
                match variable_name(parts) {
                    Err(e) => Err(e),
                    Ok(name) => if m.stack.len() == 0 {
                        Err(Fault::StackUnderflow)
                    } else {
                        Ok(
                            Machine {
                                stack: m.stack.drop_last(),
                                vars: m.vars.insert(name, m.stack.last()),
                            },
                        )
                    },
                }
            }
        },
        Operation::ReadVar => {
            match variable_name(parts) {
                Err(e) => Err(e),
                Ok(name) => if m.vars.contains_key(name) {
                    Ok(Machine { stack: m.stack.push(m.vars[name]), vars: m.vars.remove(name) })
                } else {
                    Err(Fault::UnknownVariable)
                },
            }
        },
    }
}

/// What the command `cmd`, preceded by `prev`, does to the machine `m`
/// under the instruction table `instrs`.
pub open spec fn step(
    instrs: Map<Seq<char>, Instruction>,
    cmd: Seq<char>,
    prev: Option<Seq<char>>,
    m: Machine,
) -> Result<Machine, Fault> {
    let parts = split(cmd, ' ');
    if cmd.len() == 0 {
        Err(Fault::EmptyCommand)
    } else if !instrs.contains_key(parts[0]) {
        Err(Fault::UnknownCommand)
    } else if parts.len() != instrs[parts[0]].operands_number {
        Err(Fault::OperandCount)
    } else {
        apply(instrs[parts[0]].operation, parts, prev, m)
    }
}

/// The non-blank lines of `lines`, trimmed.
pub open spec fn command_lines(lines: Seq<Seq<char>>) -> Seq<Seq<char>>
    decreases lines.len(),
{
    if lines.len() == 0 {
        Seq::empty()
    } else {
        let init = command_lines(lines.drop_last());
        let t = trim(lines.last());
        if t.len() == 0 {
            init
        } else {
            init.push(t)
        }
    }
}

/// The commands of a program text: its trimmed non-blank lines, which must
/// end in `RETURN_VALUE` and hold at least one command before it; that last
/// line is left out.
pub open spec fn parse_block(text: Seq<char>) -> Result<Seq<Seq<char>>, Fault> {
    let cmds = command_lines(split(text, '\n'));
    if cmds.len() == 0 || cmds.last() != "RETURN_VALUE"@ {
        Err(Fault::MissingReturn)
    } else if cmds.len() == 1 {
        Err(Fault::NoCommands)
    } else {
        Ok(cmds.drop_last())
    }
}

/// The command before `cmds[i]`, as the interpreter hands it to `cmds[i]`:
/// none for the commands up to `starting_index`.
pub open spec fn prev_command(cmds: Seq<Seq<char>>, i: int, starting_index: int) -> Option<
    Seq<char>,
> {
    if i > starting_index {
        Some(cmds[i - 1])
    } else {
        None
    }
}

/// The machine after running `cmds[i..]` from `m`, or the first fault.
pub open spec fn run_from(
    instrs: Map<Seq<char>, Instruction>,
    cmds: Seq<Seq<char>>,
    i: int,
    starting_index: int,
    m: Machine,
) -> Result<Machine, Fault>
    decreases cmds.len() - i,
{
    if i >= cmds.len() {
        Ok(m)
    } else {
        match step(instrs, cmds[i], prev_command(cmds, i, starting_index), m) {
            Err(e) => Err(e),
            Ok(m1) => run_from(instrs, cmds, i + 1, starting_index, m1),
        }
    }
}

/// The result that a final machine gives: its only stack value.
pub open spec fn result_of(r: Result<Machine, Fault>) -> Result<i64, Fault> {
    match r {
        Err(e) => Err(e),
        Ok(m) => if m.stack.len() == 1 {
            Ok(m.stack[0])
        } else {
            Err(Fault::IllFormedStack)
        },
    }
}

/// The result of the program `text` under the instruction table `instrs`.
pub open spec fn run_program(instrs: Map<Seq<char>, Instruction>, text: Seq<char>) -> Result<
    i64,
    Fault,
> {
    match parse_block(text) {
        Err(e) => Err(e),
        Ok(cmds) => result_of(run_from(instrs, cmds, 0, 0, initial_machine())),
    }
}

/// The result of the program `text` under the default instructions.
pub open spec fn evaluation(text: Seq<char>) -> Result<i64, Fault> {
    run_program(default_instructions(), text)
}

/// An optional command, by its characters.
pub open spec fn opt_view(p: Option<&Vec<char>>) -> Option<Seq<char>> {
    match p {
        Some(v) => Some(v@),
        None => None,
    }
}

/// An instruction that runs an operation added by the caller: the position
/// of the operation among the interpreter's added operations, and how many
/// space-separated parts a command using it has (the name included).
#[derive(Clone, Copy, Debug, PartialEq, Eq, Structural)]
pub struct CustomInstruction {
    pub index: usize,
    pub operands_number: usize,
}

/// Whether `cmd` names an instruction that runs an added operation.
pub open spec fn runs_custom(customs: Map<Seq<char>, CustomInstruction>, cmd: Seq<char>) -> bool {
    cmd.len() > 0 && customs.contains_key(split(cmd, ' ')[0])
}

/// Whether an added operation may be run on every stack, well-formed
/// variables, command and previous command, and leaves well-formed variables.
pub open spec fn operation_fits<F: CustomOperation>(op: F) -> bool {
    forall|args: OperationArgs|
        #![trigger op.accepts(args)]
        args.1.wf() ==> op.accepts(args) && forall|r: OperationResult|
            #[trigger] op.produces(args, r) ==> r.1.wf()
}

/// The view of an optional owned command.
pub open spec fn opt_vec_view(p: Option<Vec<char>>) -> Option<Seq<char>> {
    match p {
        Some(v) => Some(v@),
        None => None,
    }
}

/// What running the command `cmd`, preceded by `prev`, does to the
/// interpreter `before`, giving the result `r` and leaving `after`: the
/// tables and the added operations stay; a command that names a built-in
/// instruction acts as `step` says; a command that names an added
/// instruction either has the wrong number of parts (`OperandCount`) or runs
/// that instruction's operation once, on the stack, the variables, the
/// command and the previous command, and leaves what the operation returns.
pub open spec fn command_effect<F: CustomOperation>(
    before: ByteCode<F>,
    cmd: Seq<char>,
    prev: Option<Seq<char>>,
    r: Result<(), Fault>,
    after: ByteCode<F>,
) -> bool {
    &&& after.wf()
    &&& after.instructions() == before.instructions()
    &&& after.customs() == before.customs()
    &&& after.custom_operations@ == before.custom_operations@
    &&& !runs_custom(before.customs(), cmd) ==> match step(
        before.instructions(),
        cmd,
        prev,
        before.machine(),
    ) {
        Ok(m) => r is Ok && after.machine() == m,
        Err(e) => r == Err::<(), Fault>(e),
    }
    &&& runs_custom(before.customs(), cmd) ==> {
        let ci = before.customs()[split(cmd, ' ')[0]];
        if split(cmd, ' ').len() != ci.operands_number {
            r == Err::<(), Fault>(Fault::OperandCount)
        } else {
            &&& r is Ok
            &&& exists|c: Vec<char>, p: Option<Vec<char>>|
                c@ == cmd && opt_vec_view(p) == prev
                    && #[trigger] before.custom_operations@[ci.index as int].produces(
                    (before.op_stack, before.registered_vars, c, p),
                    (after.op_stack, after.registered_vars),
                )
        }
    }
}

/// Whether `trace` is a run of the commands `cmds` from the interpreter
/// `before`, in order, each handed the command before it (none up to
/// `starting_index`), ending with the result `r` and the interpreter
/// `after`: each command but the last one run succeeds and leads to the next
/// interpreter of the trace; on success every command has run and `after`
/// is the last interpreter; on a fault the command that gave it is the one
/// after the trace.
pub open spec fn executes<F: CustomOperation>(
    trace: Seq<ByteCode<F>>,
    before: ByteCode<F>,
    cmds: Seq<Seq<char>>,
    starting_index: int,
    r: Result<(), Fault>,
    after: ByteCode<F>,
) -> bool {
    &&& trace.len() >= 1
    &&& trace[0] == before
    &&& trace.len() - 1 <= cmds.len()
    &&& forall|i: int|
        0 <= i < trace.len() - 1 ==> command_effect(
            #[trigger] trace[i],
            cmds[i],
            prev_command(cmds, i, starting_index),
            Ok(()),
            trace[i + 1],
        )
    &&& match r {
        Ok(()) => trace.len() - 1 == cmds.len() && after == trace.last(),
        Err(e) => trace.len() - 1 < cmds.len() && command_effect(
            trace.last(),
            cmds[trace.len() - 1],
            prev_command(cmds, trace.len() - 1, starting_index),
            Err(e),
            after,
        ),
    }
}

/// An interpreter: operand stack, variables, the instruction table of the
/// built-in operations, and the instructions that run operations added by
/// the caller, with those operations.
pub struct ByteCode<F> {
    pub op_stack: Vec<i64>,
    pub registered_vars: NameTable<i64>,
    pub instructions_map: NameTable<Instruction>,
    pub custom_instructions: NameTable<CustomInstruction>,
    pub custom_operations: Vec<F>,
}

impl<F: CustomOperation> ByteCode<F> {
    /// The interpreter's invariant: its tables are well formed, no name is
    /// both a built-in and an added instruction, every added instruction
    /// refers to an added operation, and every added operation fits.
    pub open spec fn wf(&self) -> bool {
        &&& self.registered_vars.wf()
        &&& self.instructions_map.wf()
        &&& self.custom_instructions.wf()
        &&& forall|k: Seq<char>|
            #[trigger] self.custom_instructions@.contains_key(k)
                ==> !self.instructions_map@.contains_key(k)
                && self.custom_instructions@[k].index < self.custom_operations@.len()
        &&& forall|i: int|
            0 <= i < self.custom_operations@.len() ==> operation_fits(
                #[trigger] self.custom_operations@[i],
            )
    }

    /// The interpreter's stack and variables.
    pub open spec fn machine(&self) -> Machine {
        Machine { stack: self.op_stack@, vars: self.registered_vars@ }
    }

    /// The interpreter's table of built-in instructions.
    pub open spec fn instructions(&self) -> Map<Seq<char>, Instruction> {
        self.instructions_map@
    }

    /// The interpreter's table of instructions that run added operations.
    pub open spec fn customs(&self) -> Map<Seq<char>, CustomInstruction> {
        self.custom_instructions@
    }

    /// An interpreter with an empty stack, no variables, the default
    /// instructions and no added operations.
    pub fn new() -> (b: ByteCode<F>)
        ensures
            b.wf(),
            b.machine() == initial_machine(),
            b.instructions() == default_instructions(),
            b.customs() == Map::<Seq<char>, CustomInstruction>::empty(),
            b.custom_operations@.len() == 0,
    {
        let b = ByteCode {
            op_stack: Vec::new(),
            registered_vars: NameTable::new(),
            instructions_map: ByteCode::<NoCustomOperation>::default_instructions_map(),
            custom_instructions: NameTable::new(),
            custom_operations: Vec::new(),
        };
        assert(b.machine() =~= initial_machine());
        b
    }

}

impl ByteCode<NoCustomOperation> {
    /// The default instruction table.
    pub fn default_instructions_map() -> (t: NameTable<Instruction>)
        ensures
            t.wf(),
            t@ == default_instructions(),
    {
        let mut t: NameTable<Instruction> = NameTable::new();
        t.insert(
            chars_of("ADD"),
            Instruction { operation: Operation::Add, operands_number: 1 },
        );
        t.insert(
            chars_of("MULTIPLY"),
            Instruction { operation: Operation::Multiply, operands_number: 1 },
        );
        t.insert(
            chars_of("LOAD_VAL"),
            Instruction { operation: Operation::LoadVal, operands_number: 2 },
        );
        t.insert(
            chars_of("WRITE_VAR"),
            Instruction { operation: Operation::WriteVar, operands_number: 2 },
        );
        t.insert(
            chars_of("READ_VAR"),
            Instruction { operation: Operation::ReadVar, operands_number: 2 },
        );
        t
    }

    /// The variable named by the command `cmd` (see `variable_name`).
    pub fn get_var_name(cmd: &Vec<char>) -> (r: Result<Vec<char>, Fault>)
        ensures
            match variable_name(split(cmd@, ' ')) {
                Ok(name) => r matches Ok(v) && v@ == name,
                Err(e) => r == Err::<Vec<char>, Fault>(e),
            },
    {
        let parts = split_chars(cmd, ' ');
        assert(views(parts@) == split(cmd@, ' '));
        if parts.len() < 2 {
            return Err(Fault::MissingOperand);
        }
        let second = &parts[1];
        assert(second@ == split(cmd@, ' ')[1]);
        let n = second.len();
        if n < 3 || second[0] != '\'' || second[n - 1] != '\'' {
            return Err(Fault::InvalidVariableName);
        }
        Ok(crate::text::copy_range(second, 1, n - 1))
    }

    /// Runs the program `code_block` on a fresh interpreter and returns the
    /// value it leaves on the stack.
    pub fn evaluate_byte_code(code_block: &str) -> (r: i64)
        requires
            evaluation(code_block@) is Ok,
        ensures
            evaluation(code_block@) == Ok::<i64, Fault>(r),
    {
        match ByteCode::<NoCustomOperation>::try_evaluate_byte_code(code_block) {
            Ok(v) => v,
            Err(_) => 0,
        }
    }

    /// Runs the program `code_block` on a fresh interpreter: the value it
    /// leaves on the stack, or why the program is rejected.
    pub fn try_evaluate_byte_code(code_block: &str) -> (r: Result<i64, Fault>)
        ensures
            r == evaluation(code_block@),
    {
        let mut byte_code: ByteCode<NoCustomOperation> = ByteCode::new();
        let cmds = match byte_code.parse_cmds_from_block(code_block) {
            Ok(c) => c,
            Err(e) => return Err(e),
        };
        match byte_code.execute_cmds(cmds, 0) {
            Ok(()) => {},
            Err(e) => return Err(e),
        }
        if byte_code.op_stack.len() != 1 {
            return Err(Fault::IllFormedStack);
        }
        match byte_code.op_stack.pop() {
            Some(v) => Ok(v),
            None => Err(Fault::IllFormedStack),
        }
    }

}

impl<F: CustomOperation> ByteCode<F> {
    /// The commands of the program `code_block` (see `parse_block`).
    pub fn parse_cmds_from_block(&mut self, code_block: &str) -> (r: Result<Vec<Vec<char>>, Fault>)
        ensures
            *final(self) == *old(self),
            match parse_block(code_block@) {
                Ok(c) => r matches Ok(v) && views(v@) == c,
                Err(e) => r == Err::<Vec<Vec<char>>, Fault>(e),
            },
    {
        let text = chars_of(code_block);
        let lines = split_chars(&text, '\n');
        let ghost ls = views(lines@);
        let mut cmds: Vec<Vec<char>> = Vec::new();
        let mut i: usize = 0;
        assert(ls.take(0) =~= Seq::<Seq<char>>::empty());
        assert(views(cmds@) =~= Seq::<Seq<char>>::empty());
        while i < lines.len()
            invariant
                i <= lines@.len() == ls.len(),
                ls == views(lines@),
                views(cmds@) == command_lines(ls.take(i as int)),
            decreases lines@.len() - i,
        {
            let t = trim_chars(&lines[i]);
            assert(ls.take(i + 1).drop_last() =~= ls.take(i as int));
            assert(ls.take(i + 1).last() == lines@[i as int]@);
            if t.len() > 0 {
                let ghost before = cmds@;
                cmds.push(t);
                assert(views(cmds@) =~= views(before).push(t@));
            }
            i += 1;
        }
        assert(ls.take(lines@.len() as int) =~= ls);
        let ret_word = chars_of("RETURN_VALUE");
        if cmds.len() == 0 || !same_chars(&cmds[cmds.len() - 1], &ret_word) {
            return Err(Fault::MissingReturn);
        }
        let ghost before = cmds@;
        cmds.pop();
        assert(views(cmds@) =~= views(before).drop_last());
        if cmds.len() == 0 {
            return Err(Fault::NoCommands);
        }
        Ok(cmds)
    }

    /// Runs `cmds` in order; the commands up to `starting_index` are handed
    /// no previous command.
    pub fn execute_cmds(&mut self, cmds: Vec<Vec<char>>, starting_index: usize) -> (r: Result<
        (),
        Fault,
    >)
        requires
            old(self).wf(),
        ensures
            final(self).wf(),
            final(self).instructions() == old(self).instructions(),
            final(self).customs() == old(self).customs(),
            final(self).custom_operations@ == old(self).custom_operations@,
            exists|trace: Seq<ByteCode<F>>|
                #[trigger] executes(
                    trace,
                    *old(self),
                    views(cmds@),
                    starting_index as int,
                    r,
                    *final(self),
                ),
            (forall|i: int|
                0 <= i < cmds@.len() ==> !runs_custom(old(self).customs(), #[trigger] cmds@[i]@))
                ==> match run_from(
                old(self).instructions(),
                views(cmds@),
                0,
                starting_index as int,
                old(self).machine(),
            ) {
                Ok(m) => r is Ok && final(self).machine() == m,
                Err(e) => r == Err::<(), Fault>(e),
            },
    {
        let ghost cs = views(cmds@);
        let ghost instrs = self.instructions();
        let ghost customs = self.customs();
        let ghost plain = forall|i: int|
            0 <= i < cmds@.len() ==> !runs_custom(customs, #[trigger] cmds@[i]@);
        let ghost whole = run_from(instrs, cs, 0, starting_index as int, self.machine());
        let ghost mut trace: Seq<ByteCode<F>> = seq![*self];
        let mut index: usize = 0;
        while index < cmds.len()
            invariant
                index <= cmds@.len() == cs.len(),
                cs == views(cmds@),
                self.wf(),
                self.instructions() == instrs,
                instrs == old(self).instructions(),
                self.customs() == customs,
                customs == old(self).customs(),
                self.custom_operations@ == old(self).custom_operations@,
                trace.len() == index + 1,
                trace[0] == *old(self),
                trace.last() == *self,
                forall|i: int|
                    0 <= i < index ==> command_effect(
                        #[trigger] trace[i],
                        cs[i],
                        prev_command(cs, i, starting_index as int),
                        Ok(()),
                        trace[i + 1],
                    ),
                plain == (forall|i: int|
                    0 <= i < cmds@.len() ==> !runs_custom(customs, #[trigger] cmds@[i]@)),
                whole == run_from(instrs, cs, 0, starting_index as int, old(self).machine()),
                plain ==> whole == run_from(
                    instrs,
                    cs,
                    index as int,
                    starting_index as int,
                    self.machine(),
                ),
            decreases cmds@.len() - index,
        {
            let prev = if index > starting_index {
                Some(&cmds[index - 1])
            } else {
                None
            };
            assert(opt_view(prev) == prev_command(cs, index as int, starting_index as int));
            assert(plain ==> !runs_custom(customs, cmds@[index as int]@));
            assert(cmds@[index as int]@ == cs[index as int]);
            let ghost before = *self;
            match self.parse_and_execute_cmd(&cmds[index], prev) {
                Ok(()) => {},
                Err(e) => {
                    assert(executes(
                        trace,
                        *old(self),
                        cs,
                        starting_index as int,
                        Err::<(), Fault>(e),
                        *self,
                    ));
                    return Err(e);
                },
            }
            proof {
                trace = trace.push(*self);
            }
            index += 1;
        }
        assert(executes(trace, *old(self), cs, starting_index as int, Ok::<(), Fault>(()), *self));
        Ok(())
    }

    /// Runs the command `cmd`, preceded by `prev_cmd` (see `step`).
    pub fn parse_and_execute_cmd(&mut self, cmd: &Vec<char>, prev_cmd: Option<&Vec<char>>) -> (r:
        Result<(), Fault>)
        requires
            old(self).wf(),
        ensures
            final(self).wf(),
            final(self).instructions() == old(self).instructions(),
            final(self).customs() == old(self).customs(),
            final(self).custom_operations@ == old(self).custom_operations@,
            !runs_custom(old(self).customs(), cmd@) ==> match step(
                old(self).instructions(),
                cmd@,
                opt_view(prev_cmd),
                old(self).machine(),
            ) {
                Ok(m) => r is Ok && final(self).machine() == m,
                Err(e) => r == Err::<(), Fault>(e),
            },
            runs_custom(old(self).customs(), cmd@) ==> {
                let ci = old(self).customs()[split(cmd@, ' ')[0]];
                if split(cmd@, ' ').len() != ci.operands_number {
                    r == Err::<(), Fault>(Fault::OperandCount)
                } else {
                    &&& r is Ok
                    &&& exists|c: Vec<char>, p: Option<Vec<char>>|
                        c@ == cmd@ && opt_vec_view(p) == opt_view(prev_cmd)
                            && #[trigger] old(self).custom_operations@[ci.index as int].produces(
                            (old(self).op_stack, old(self).registered_vars, c, p),
                            (final(self).op_stack, final(self).registered_vars),
                        )
                }
            },
            command_effect(*old(self), cmd@, opt_view(prev_cmd), r, *final(self)),
    {
        let ghost m0 = self.machine();
        let ghost start = *self;
        if cmd.len() == 0 {
            return Err(Fault::EmptyCommand);
        }
        let parts = split_chars(cmd, ' ');
        let ghost ps = split(cmd@, ' ');
        assert(views(parts@) == ps);
        assert(parts@[0]@ == ps[0]);
        match self.custom_instructions.get(&parts[0]) {
            Some(ci) => {
                if parts.len() != ci.operands_number {
                    return Err(Fault::OperandCount);
                }
                let ghost op = self.custom_operations@[ci.index as int];
                assert(operation_fits(op));
                let mut stack: Vec<i64> = Vec::new();
                std::mem::swap(&mut stack, &mut self.op_stack);
                let mut vars: NameTable<i64> = NameTable::new();
                std::mem::swap(&mut vars, &mut self.registered_vars);
                let c = copy_range(cmd, 0, cmd.len());
                assert(cmd@.subrange(0, cmd@.len() as int) =~= cmd@);
                let p = match prev_cmd {
                    Some(x) => {
                        let y = copy_range(x, 0, x.len());
                        assert(x@.subrange(0, x@.len() as int) =~= x@);
                        Some(y)
                    },
                    None => None,
                };
                let ghost args: OperationArgs = (stack, vars, c, p);
                assert(op.accepts(args));
                let (s2, v2) = self.custom_operations[ci.index].run((stack, vars, c, p));
                let ghost res: OperationResult = (s2, v2);
                assert(op.produces(args, res));
                self.op_stack = s2;
                self.registered_vars = v2;
                assert(start.custom_operations@[ci.index as int].produces(
                    (start.op_stack, start.registered_vars, c, p),
                    (self.op_stack, self.registered_vars),
                ));
                assert(runs_custom(start.customs(), cmd@));
                assert(start.customs()[split(cmd@, ' ')[0]] == ci);
                return Ok(());
            },
            None => {},
        }
        let ins = match self.instructions_map.get(&parts[0]) {
            Some(ins) => ins,
            None => return Err(Fault::UnknownCommand),
        };
        if parts.len() != ins.operands_number {
            return Err(Fault::OperandCount);
        }
        match ins.operation {
            Operation::Add | Operation::Multiply => {
                if self.op_stack.len() < 2 {
                    return Err(Fault::StackUnderflow);
                }
                let top = match self.op_stack.pop() {
                    Some(v) => v,
                    None => return Err(Fault::StackUnderflow),
                };
                let below = match self.op_stack.pop() {
                    Some(v) => v,
                    None => return Err(Fault::StackUnderflow),
                };
                let v = if ins.operation == Operation::Add {
                    top.checked_add(below)
                } else {
                    top.checked_mul(below)
                };
                match v {
                    Some(v) => {
                        self.op_stack.push(v);
                        assert(self.machine() =~= Machine {
                            stack: m0.stack.drop_last().drop_last().push(v),
                            vars: m0.vars,
                        });
                        Ok(())
                    },
                    None => Err(Fault::Overflow),
                }
            },
            Operation::LoadVal => {
                if parts.len() < 2 {
                    return Err(Fault::MissingOperand);
                }
                assert(parts@[1]@ == ps[1]);
                match parse_i64_chars(&parts[1]) {
                    Some(v) => {
                        self.op_stack.push(v);
                        assert(self.machine() =~= Machine { stack: m0.stack.push(v), vars: m0.vars });
                        Ok(())
                    },
                    None => Err(Fault::InvalidNumber),
                }
            },
            Operation::WriteVar => {
                let follows = match prev_cmd {
                    Some(p) => contains_chars(p, &chars_of("LOAD_VAR")) || contains_chars(
                        p,
                        &chars_of("LOAD_VAL"),
                    ),
                    None => false,
                };
                if !follows {
                    return Err(Fault::WriteWithoutLoad);
                }
                let name = match ByteCode::<NoCustomOperation>::get_var_name(cmd) {
                    Ok(name) => name,
                    Err(e) => return Err(e),
                };
                let ghost key = name@;
                match self.op_stack.pop() {
                    Some(v) => {
                        self.registered_vars.insert(name, v);
                        assert(self.machine() =~= Machine {
                            stack: m0.stack.drop_last(),
                            vars: m0.vars.insert(key, v),
                        });
                        Ok(())
                    },
                    None => Err(Fault::StackUnderflow),
                }
            },
            Operation::ReadVar => {
                let name = match ByteCode::<NoCustomOperation>::get_var_name(cmd) {
                    Ok(name) => name,
                    Err(e) => return Err(e),
                };
                match self.registered_vars.remove(&name) {
                    Some(v) => {
                        self.op_stack.push(v);
                        assert(self.machine() =~= Machine {
                            stack: m0.stack.push(v),
                            vars: m0.vars.remove(name@),
                        });
                        Ok(())
                    },
                    None => Err(Fault::UnknownVariable),
                }
            },
        }
    }

    /// Makes `instruction_name` run the added operation
    /// `instruction_operation`, with commands of `operands_number` parts; an
    /// earlier meaning of the name is replaced.
    pub fn extend_instructions(
        &mut self,
        instruction_name: &str,
        instruction_operation: F,
        operands_number: usize,
    )
        requires
            old(self).wf(),
            operation_fits(instruction_operation),
        ensures
            final(self).wf(),
            final(self).machine() == old(self).machine(),
            final(self).instructions() == old(self).instructions().remove(instruction_name@),
            final(self).customs() == old(self).customs().insert(
                instruction_name@,
                CustomInstruction {
                    index: old(self).custom_operations@.len() as usize,
                    operands_number,
                },
            ),
            final(self).custom_operations@ == old(self).custom_operations@.push(
                instruction_operation,
            ),
    {
        let name = chars_of(instruction_name);
        let index = self.custom_operations.len();
        self.instructions_map.remove(&name);
        self.custom_instructions.insert(name, CustomInstruction { index, operands_number });
        self.custom_operations.push(instruction_operation);
        assert forall|i: int|
            0 <= i < self.custom_operations@.len() implies operation_fits(
            #[trigger] self.custom_operations@[i],
        ) by {
            if i < index {
                assert(self.custom_operations@[i] == old(self).custom_operations@[i]);
            }
        }
    }
}

/// Reading a variable gives back what writing it stored: a `WRITE_VAR` of a
/// name, after a command that loads a value, followed by a `READ_VAR` of the
/// same name, leaves the stack as it was and the name without a value.
pub proof fn lemma_write_then_read(
    instrs: Map<Seq<char>, Instruction>,
    write_cmd: Seq<char>,
    read_cmd: Seq<char>,
    prev: Option<Seq<char>>,
    m: Machine,
)
    requires
        split(write_cmd, ' ').len() == 2,
        split(read_cmd, ' ').len() == 2,
        instrs.contains_key(split(write_cmd, ' ')[0]),
        instrs[split(write_cmd, ' ')[0]] == (Instruction {
            operation: Operation::WriteVar,
            operands_number: 2,
        }),
        instrs.contains_key(split(read_cmd, ' ')[0]),
        instrs[split(read_cmd, ' ')[0]] == (Instruction {
            operation: Operation::ReadVar,
            operands_number: 2,
        }),
        split(write_cmd, ' ')[1] == split(read_cmd, ' ')[1],
        variable_name(split(write_cmd, ' ')) is Ok,
        follows_load(prev),
        m.stack.len() > 0,
    ensures
        step(instrs, write_cmd, prev, m) matches Ok(m1) && step(instrs, read_cmd, Some(write_cmd), m1)
            == Ok::<Machine, Fault>(
            Machine {
                stack: m.stack,
                vars: m.vars.remove(variable_name(split(write_cmd, ' '))->Ok_0),
            },
        ),
{
    let name = variable_name(split(write_cmd, ' '))->Ok_0;
    assert(write_cmd.len() > 0);
    assert(read_cmd.len() > 0);
    let m1 = Machine { stack: m.stack.drop_last(), vars: m.vars.insert(name, m.stack.last()) };
    assert(step(instrs, write_cmd, prev, m) == Ok::<Machine, Fault>(m1));
    assert(m1.stack.push(m1.vars[name]) =~= m.stack);
    assert(m1.vars.remove(name) =~= m.vars.remove(name));
}

/// A variable operand names exactly the characters between its quotes:
/// a second part `'name'` (with `name` not empty) names `name`.
pub proof fn lemma_variable_name_is_quoted_text(parts: Seq<Seq<char>>, name: Seq<char>)
    requires
        parts.len() >= 2,
        name.len() >= 1,
        parts[1] == seq!['\''] + name + seq!['\''],
    ensures
        variable_name(parts) == Ok::<Seq<char>, Fault>(name),
{
    let p = parts[1];
    assert(p.subrange(1, p.len() - 1) =~= name);
}

/// Conversely, a name read from a command is all that stands between the
/// quotes of its second part.
pub proof fn lemma_quoted_text_of_variable_name(parts: Seq<Seq<char>>)
    requires
        variable_name(parts) is Ok,
    ensures
        parts[1] == seq!['\''] + variable_name(parts)->Ok_0 + seq!['\''],
        variable_name(parts)->Ok_0.len() >= 1,
{
    let p = parts[1];
    assert(p =~= seq!['\''] + p.subrange(1, p.len() - 1) + seq!['\'']);
}

/// Variables with different names are kept apart: after a `WRITE_VAR` of a
/// name `a` and then of another name `b`, a `READ_VAR` of `a` gives back
/// what was written to `a`, not what was written to `b`.
pub proof fn lemma_distinct_names_kept_apart(
    write_a: Seq<Seq<char>>,
    write_b: Seq<Seq<char>>,
    a: Seq<char>,
    b: Seq<char>,
    prev: Option<Seq<char>>,
    read_prev: Option<Seq<char>>,
    m: Machine,
)
    requires
        write_a.len() >= 2,
        write_b.len() >= 2,
        a.len() >= 1,
        b.len() >= 1,
        a != b,
        write_a[1] == seq!['\''] + a + seq!['\''],
        write_b[1] == seq!['\''] + b + seq!['\''],
        follows_load(prev),
        m.stack.len() >= 2,
    ensures
        apply(Operation::WriteVar, write_a, prev, m) matches Ok(m1) && apply(
            Operation::WriteVar,
            write_b,
            prev,
            m1,
        ) matches Ok(m2) && apply(Operation::ReadVar, write_a, read_prev, m2) matches Ok(m3)
            && m3.stack.last() == m.stack.last() && m3.vars.contains_key(b) && m3.vars[b]
            == m.stack[m.stack.len() - 2],
{
    lemma_variable_name_is_quoted_text(write_a, a);
    lemma_variable_name_is_quoted_text(write_b, b);
}

/// Reading a variable takes its value away: a `READ_VAR` that succeeds,
/// run again on the machine it leaves, finds the variable without a value.
pub proof fn lemma_read_consumes(
    instrs: Map<Seq<char>, Instruction>,
    read_cmd: Seq<char>,
    prev: Option<Seq<char>>,
    next_prev: Option<Seq<char>>,
    m: Machine,
)
    requires
        instrs.contains_key(split(read_cmd, ' ')[0]),
        instrs[split(read_cmd, ' ')[0]].operation == Operation::ReadVar,
        step(instrs, read_cmd, prev, m) is Ok,
    ensures
        step(instrs, read_cmd, next_prev, step(instrs, read_cmd, prev, m)->Ok_0) == Err::<
            Machine,
            Fault,
        >(Fault::UnknownVariable),
{
}

/// Whether the lines `padded` are the lines `lines` with whitespace-only
/// lines inserted anywhere and whitespace added at either end of any line.
pub open spec fn padded_lines(lines: Seq<Seq<char>>, padded: Seq<Seq<char>>) -> bool
    decreases padded.len(),
{
    if padded.len() == 0 {
        lines.len() == 0
    } else {
        ||| all_space(padded.last()) && padded_lines(lines, padded.drop_last())
        ||| lines.len() > 0 && padded_lines(lines.drop_last(), padded.drop_last()) && exists|
            a: Seq<char>,
            b: Seq<char>,
        | all_space(a) && all_space(b) && padded.last() == a + lines.last() + b
    }
}

proof fn lemma_padded_commands(lines: Seq<Seq<char>>, padded: Seq<Seq<char>>)
    requires
        padded_lines(lines, padded),
    ensures
        command_lines(padded) == command_lines(lines),
    decreases padded.len(),
{
    if padded.len() > 0 {
        if all_space(padded.last()) && padded_lines(lines, padded.drop_last()) {
            lemma_padded_commands(lines, padded.drop_last());
            lemma_trim_all_space(padded.last());
        } else {
            let (a, b) = choose|a: Seq<char>, b: Seq<char>|
                all_space(a) && all_space(b) && padded.last() == a + lines.last() + b;
            lemma_padded_commands(lines.drop_last(), padded.drop_last());
            lemma_trim_padding(a, lines.last(), b);
        }
    }
}

/// Blank lines and whitespace at the ends of lines do not matter: a program
/// whose lines are those of another with whitespace-only lines inserted and
/// whitespace added at either end of lines has the same commands, and so the
/// same result or the same fault.
pub proof fn lemma_padding_preserves_evaluation(
    instrs: Map<Seq<char>, Instruction>,
    text: Seq<char>,
    padded_text: Seq<char>,
)
    requires
        padded_lines(split(text, '\n'), split(padded_text, '\n')),
    ensures
        parse_block(padded_text) == parse_block(text),
        run_program(instrs, padded_text) == run_program(instrs, text),
        evaluation(padded_text) == evaluation(text),
{
    lemma_padded_commands(split(text, '\n'), split(padded_text, '\n'));
}

} // verus!
