//! The byte-code interpreter extended with counted loops.
//!
//! A line `LOOP_START n` runs the lines after it, up to the matching
//! `LOOP_END`, `n` times; loops nest. Every other command runs as in
//! `interpreter`. The walk over the lines follows the interpreter's own
//! bookkeeping exactly: a `LOOP_END` ends the block that is being run, also
//! at the outermost level, and a loop with the count 0 consumes no lines, so
//! that its body is then run once as part of the enclosing block.

use vstd::prelude::*;

use crate::interpreter::{
    default_instructions, initial_machine, lemma_padding_preserves_evaluation, padded_lines,
    command_effect, parse_block, result_of, run_from, run_program, runs_custom, step, CustomInstruction,
    opt_view, ByteCode, Fault, Instruction, Machine, Operation,
};
use crate::custom::{CustomOperation, NoCustomOperation};
use crate::text::{all_digits, digits_value, is_digit, chars_of, parse_usize, parse_usize_chars, same_chars, split, split_chars, views};

verus! {

/// Whether `cmd` opens a loop: it has two space-separated parts, the first `LOOP_START`.
pub open spec fn is_loop_start(cmd: Seq<char>) -> bool {
    let parts = split(cmd, ' ');
    parts.len() == 2 && parts[0] == "LOOP_START"@
}

/// The count of a loop-opening command.
pub open spec fn loop_count(cmd: Seq<char>) -> Option<usize> {
    parse_usize(split(cmd, ' ')[1])
}

/// Whether `cmd` closes a loop.
pub open spec fn is_loop_end(cmd: Seq<char>) -> bool {
    cmd == "LOOP_END"@
}

/// Whether `cmd` is a loop command of either kind.
pub open spec fn is_loop_command(cmd: Seq<char>) -> bool {
    is_loop_start(cmd) || is_loop_end(cmd)
}

/// The number of lines from `i` to the end of `len` lines.
pub open spec fn lines_left(len: int, i: int) -> nat {
    if i < len {
        (len - i) as nat
    } else {
        0
    }
}

/// Runs the block that starts at line `idx` once, from the machine `m`: the
/// machine after it and the number of lines consumed, up to and including
/// the `LOOP_END` that closes the block or to the end of the program.
pub open spec fn run_lines(
    instrs: Map<Seq<char>, Instruction>,
    cmds: Seq<Seq<char>>,
    idx: int,
    m: Machine,
) -> Result<(Machine, nat), Fault>
    decreases lines_left(cmds.len() as int, idx), 0nat, 0nat,
{
    if idx >= cmds.len() {
        Ok((m, 0))
    } else {
        let cmd = cmds[idx];
        if is_loop_start(cmd) {
            match loop_count(cmd) {
                None => Err(Fault::InvalidLoopCount),
                Some(k) => match run_times(instrs, cmds, idx + 1, k as nat, m) {
                    Err(e) => Err(e),
                    Ok((m1, c)) => match run_lines(instrs, cmds, idx + 1 + c, m1) {
                        Err(e) => Err(e),
                        Ok((m2, c2)) => Ok((m2, c + 1 + c2)),
                    },
                },
            }
        } else if is_loop_end(cmd) {
            Ok((m, 1))
        } else {
            let prev = if idx > 0 {
                Some(cmds[idx - 1])
            } else {
                None
            };
            match step(instrs, cmd, prev, m) {
                Err(e) => Err(e),
                Ok(m1) => match run_lines(instrs, cmds, idx + 1, m1) {
                    Err(e) => Err(e),
                    Ok((m2, c2)) => Ok((m2, 1 + c2)),
                },
            }
        }
    }
}

/// Runs the block that starts at line `start` `n` times, from the machine
/// `m`: the machine after the last run and the number of lines that run
/// consumed (0 where `n` is 0).
pub open spec fn run_times(
    instrs: Map<Seq<char>, Instruction>,
    cmds: Seq<Seq<char>>,
    start: int,
    n: nat,
    m: Machine,
) -> Result<(Machine, nat), Fault>
    decreases lines_left(cmds.len() as int, start), 1nat, n,
{
    if n == 0 {
        Ok((m, 0))
    } else {
        match run_times(instrs, cmds, start, (n - 1) as nat, m) {
            Err(e) => Err(e),
            Ok((m1, _)) => run_lines(instrs, cmds, start, m1),
        }
    }
}

/// The result of the program `text`, with loops, under the instruction
/// table `instrs`.
pub open spec fn run_loop_program(instrs: Map<Seq<char>, Instruction>, text: Seq<char>) -> Result<
    i64,
    Fault,
> {
    match parse_block(text) {
        Err(e) => Err(e),
        Ok(cmds) => match run_times(instrs, cmds, 0, 1, initial_machine()) {
            Err(e) => Err(e),
            Ok((m, _)) => result_of(Ok(m)),
        },
    }
}

/// The result of the program `text`, with loops, under the default instructions.
pub open spec fn loop_evaluation(text: Seq<char>) -> Result<i64, Fault> {
    run_loop_program(crate::interpreter::default_instructions(), text)
}

/// A result whose line count is raised by `k`.
pub open spec fn shifted(r: Result<(Machine, nat), Fault>, k: nat) -> Result<(Machine, nat), Fault> {
    match r {
        Err(e) => Err(e),
        Ok((m, c)) => Ok((m, c + k)),
    }
}

/// Once a run of a block fails, every later number of runs fails the same way.
proof fn lemma_run_times_fault(
    instrs: Map<Seq<char>, Instruction>,
    cmds: Seq<Seq<char>>,
    start: int,
    i: nat,
    n: nat,
    m: Machine,
)
    requires
        i <= n,
        run_times(instrs, cmds, start, i, m) is Err,
    ensures
        run_times(instrs, cmds, start, n, m) == run_times(instrs, cmds, start, i, m),
    decreases n - i,
{
    if i < n {
        lemma_run_times_fault(instrs, cmds, start, i, (n - 1) as nat, m);
    }
}

/// A line count raised by `k`, or the same fault.
pub open spec fn plus(r: Result<nat, Fault>, k: nat) -> Result<nat, Fault> {
    match r {
        Ok(c) => Ok(c + k),
        Err(e) => Err(e),
    }
}

/// A count of lines as a number.
pub open spec fn as_count(r: Result<usize, Fault>) -> Result<nat, Fault> {
    match r {
        Ok(c) => Ok(c as nat),
        Err(e) => Err(e),
    }
}

/// The commands a run of the block from line `idx` executes, by position and
/// in order, and how the run ends if every one of them succeeds: the number
/// of lines consumed, or the fault of a loop count that is no numeral. Which
/// lines run does not depend on what the commands do.
pub open spec fn plan_lines(cmds: Seq<Seq<char>>, idx: int) -> (Seq<int>, Result<nat, Fault>)
    decreases lines_left(cmds.len() as int, idx), 0nat, 0nat,
{
    if idx >= cmds.len() {
        (Seq::empty(), Ok(0))
    } else {
        let cmd = cmds[idx];
        if is_loop_start(cmd) {
            match loop_count(cmd) {
                None => (Seq::empty(), Err(Fault::InvalidLoopCount)),
                Some(k) => {
                    let (p1, o1) = plan_times(cmds, idx + 1, k as nat);
                    match o1 {
                        Err(e) => (p1, Err(e)),
                        Ok(c) => {
                            let (p2, o2) = plan_lines(cmds, idx + 1 + c);
                            (p1 + p2, plus(o2, c + 1))
                        },
                    }
                },
            }
        } else if is_loop_end(cmd) {
            (Seq::empty(), Ok(1))
        } else {
            let (p2, o2) = plan_lines(cmds, idx + 1);
            (seq![idx] + p2, plus(o2, 1))
        }
    }
}

/// The commands `n` runs of the block from line `start` execute, and how the
/// last run ends if every one of them succeeds.
pub open spec fn plan_times(cmds: Seq<Seq<char>>, start: int, n: nat) -> (
    Seq<int>,
    Result<nat, Fault>,
)
    decreases lines_left(cmds.len() as int, start), 1nat, n,
{
    if n == 0 {
        (Seq::empty(), Ok(0))
    } else {
        let (p1, o1) = plan_times(cmds, start, (n - 1) as nat);
        match o1 {
            Err(e) => (p1, Err(e)),
            Ok(_) => {
                let (p2, o2) = plan_lines(cmds, start);
                (p1 + p2, o2)
            },
        }
    }
}

/// Whether `trace` runs the commands at the positions `pos` of `cmds` one
/// after the other from `before`, each succeeding and handed the line before
/// it: `trace[i + 1]` is what the command at `pos[i]` leaves of `trace[i]`.
#[verifier::opaque]
pub open spec fn chain<F: CustomOperation>(
    trace: Seq<ByteCode<F>>,
    before: ByteCode<F>,
    cmds: Seq<Seq<char>>,
    pos: Seq<int>,
) -> bool {
    &&& trace.len() == pos.len() + 1
    &&& trace[0] == before
    &&& forall|i: int|
        0 <= i < pos.len() ==> command_effect(
            #[trigger] trace[i],
            cmds[pos[i]],
            prev_of(cmds, pos[i]),
            Ok(()),
            trace[i + 1],
        )
}

/// Whether a walk that follows `plan` from `before` may give `r` and leave
/// `after`, through the interpreters `trace`: the planned commands run in
/// order, each as `command_effect` says, until one fails, whose fault is
/// then the result; if none fails, the walk ends as the plan says.
#[verifier::opaque]
pub open spec fn walks<F: CustomOperation>(
    trace: Seq<ByteCode<F>>,
    before: ByteCode<F>,
    cmds: Seq<Seq<char>>,
    plan: (Seq<int>, Result<nat, Fault>),
    r: Result<nat, Fault>,
    after: ByteCode<F>,
) -> bool {
    let k = trace.len() - 1;
    &&& trace.len() >= 1
    &&& k <= plan.0.len()
    &&& chain(trace, before, cmds, plan.0.take(k))
    &&& if k == plan.0.len() {
        r == plan.1 && after == trace.last()
    } else {
        r is Err && command_effect(
            trace.last(),
            cmds[plan.0[k]],
            prev_of(cmds, plan.0[k]),
            Err(r->Err_0),
            after,
        )
    }
}

/// Two chains, the second starting where the first ends, make one chain.
proof fn lemma_chain_concat<F: CustomOperation>(
    t1: Seq<ByteCode<F>>,
    b0: ByteCode<F>,
    cmds: Seq<Seq<char>>,
    p1: Seq<int>,
    t2: Seq<ByteCode<F>>,
    p2: Seq<int>,
)
    requires
        chain(t1, b0, cmds, p1),
        chain(t2, t1.last(), cmds, p2),
    ensures
        chain(t1 + t2.drop_first(), b0, cmds, p1 + p2),
        (t1 + t2.drop_first()).last() == t2.last(),
{
    reveal(chain);
    let t = t1 + t2.drop_first();
    let p = p1 + p2;
    assert forall|i: int| 0 <= i < p.len() implies command_effect(
        #[trigger] t[i],
        cmds[p[i]],
        prev_of(cmds, p[i]),
        Ok(()),
        t[i + 1],
    ) by {
        if i < p1.len() {
            assert(t[i] == t1[i]);
            assert(t[i + 1] == t1[i + 1]);
            assert(p[i] == p1[i]);
        } else {
            let j = i - p1.len();
            assert(t[i] == t2[j]);
            assert(t[i + 1] == t2[j + 1]);
            assert(p[i] == p2[j]);
        }
    }
    if t2.len() > 1 {
        assert(t.last() == t2.last());
    }
}

/// The commands of fewer runs of a block come first among those of more
/// runs, and once a run ends in a fault, more runs change nothing.
proof fn lemma_plan_times_prefix(cmds: Seq<Seq<char>>, start: int, i: nat, n: nat)
    requires
        i <= n,
    ensures
        plan_times(cmds, start, i).0.len() <= plan_times(cmds, start, n).0.len(),
        plan_times(cmds, start, n).0.take(plan_times(cmds, start, i).0.len() as int)
            == plan_times(cmds, start, i).0,
        plan_times(cmds, start, i).1 is Err ==> plan_times(cmds, start, n) == plan_times(
            cmds,
            start,
            i,
        ),
    decreases n - i,
{
    if i < n {
        lemma_plan_times_prefix(cmds, start, i, (n - 1) as nat);
        let q = plan_times(cmds, start, (n - 1) as nat).0;
        let pi = plan_times(cmds, start, i).0;
        assert(plan_times(cmds, start, n).0.take(q.len() as int) =~= q);
        assert(plan_times(cmds, start, n).0.take(pi.len() as int) =~= q.take(pi.len() as int));
    } else {
        assert(plan_times(cmds, start, n).0.take(plan_times(cmds, start, n).0.len() as int)
            =~= plan_times(cmds, start, n).0);
    }
}

/// A chain of no commands.
proof fn lemma_chain_empty<F: CustomOperation>(b: ByteCode<F>, cmds: Seq<Seq<char>>)
    ensures
        chain(seq![b], b, cmds, Seq::<int>::empty()),
{
    reveal(chain);
}

/// A chain of one command.
proof fn lemma_chain_single<F: CustomOperation>(
    before: ByteCode<F>,
    after: ByteCode<F>,
    cmds: Seq<Seq<char>>,
    pos: int,
)
    requires
        command_effect(before, cmds[pos], prev_of(cmds, pos), Ok(()), after),
    ensures
        chain(seq![before, after], before, cmds, seq![pos]),
{
    reveal(chain);
}

/// What a walk consists of.
proof fn lemma_walks_parts<F: CustomOperation>(
    trace: Seq<ByteCode<F>>,
    before: ByteCode<F>,
    cmds: Seq<Seq<char>>,
    plan: (Seq<int>, Result<nat, Fault>),
    r: Result<nat, Fault>,
    after: ByteCode<F>,
)
    requires
        walks(trace, before, cmds, plan, r, after),
    ensures
        trace.len() >= 1,
        trace.len() - 1 <= plan.0.len(),
        chain(trace, before, cmds, plan.0.take(trace.len() - 1)),
        trace.len() - 1 == plan.0.len() ==> r == plan.1 && after == trace.last(),
        trace.len() - 1 < plan.0.len() ==> r is Err && command_effect(
            trace.last(),
            cmds[plan.0[trace.len() - 1]],
            prev_of(cmds, plan.0[trace.len() - 1]),
            Err(r->Err_0),
            after,
        ),
{
    reveal(walks);
}

/// A chain through all the planned commands is a walk that ends as planned.
proof fn lemma_walks_complete<F: CustomOperation>(
    trace: Seq<ByteCode<F>>,
    before: ByteCode<F>,
    cmds: Seq<Seq<char>>,
    plan: (Seq<int>, Result<nat, Fault>),
)
    requires
        chain(trace, before, cmds, plan.0),
    ensures
        walks(trace, before, cmds, plan, plan.1, trace.last()),
{
    reveal(walks);
    reveal(chain);
    assert(plan.0.take(trace.len() - 1) =~= plan.0);
}

/// A walk of `n` runs that fails at a planned command inside run `i + 1`.
#[verifier::rlimit(40)]
proof fn lemma_walk_fault_inside<F: CustomOperation>(
    cmds: Seq<Seq<char>>,
    line: int,
    i: nat,
    n: nat,
    b0: ByteCode<F>,
    trace: Seq<ByteCode<F>>,
    done: Seq<int>,
    x: Seq<int>,
    y: Seq<int>,
    f: int,
    e: Fault,
    after: ByteCode<F>,
)
    requires
        i < n,
        plan_times(cmds, line, i).1 is Ok,
        chain(trace, b0, cmds, plan_times(cmds, line, i).0 + done + x),
        plan_lines(cmds, line).0 == done + y,
        x.len() < y.len(),
        y.take(x.len() as int) == x,
        y[x.len() as int] == f,
        command_effect(trace.last(), cmds[f], prev_of(cmds, f), Err(e), after),
    ensures
        walks(trace, b0, cmds, plan_times(cmds, line, n), Err(e), after),
{
    let pi = plan_times(cmds, line, i).0;
    let p1 = plan_times(cmds, line, (i + 1) as nat);
    assert(p1.0 == pi + plan_lines(cmds, line).0);
    lemma_plan_times_prefix(cmds, line, (i + 1) as nat, n);
    let pn = plan_times(cmds, line, n).0;
    let q = pi + done + x;
    let k = q.len() as int;
    assert(k < p1.0.len());
    assert(pn[k] == p1.0[k]);
    assert(p1.0[k] == y[x.len() as int]);
    assert(pn.take(k) =~= q) by {
        assert forall|t: int| 0 <= t < k implies pn.take(k)[t] == q[t] by {
            assert(pn[t] == p1.0[t]);
            if t >= pi.len() + done.len() {
                assert(y[t - pi.len() - done.len()] == x[t - pi.len() - done.len()]);
            }
        }
    }
    assert(trace.len() == q.len() + 1) by {
        reveal(chain);
    }
    reveal(walks);
}

/// A walk of `n` runs whose run `i + 1` ends, after all its planned
/// commands succeeded, in the fault that its plan gives.
proof fn lemma_walk_fault_planned<F: CustomOperation>(
    cmds: Seq<Seq<char>>,
    line: int,
    i: nat,
    n: nat,
    b0: ByteCode<F>,
    trace: Seq<ByteCode<F>>,
    done: Seq<int>,
    e: Fault,
)
    requires
        i < n,
        plan_times(cmds, line, i).1 is Ok,
        chain(trace, b0, cmds, plan_times(cmds, line, i).0 + done),
        plan_lines(cmds, line).0 == done,
        plan_lines(cmds, line).1 == Err::<nat, Fault>(e),
    ensures
        walks(trace, b0, cmds, plan_times(cmds, line, n), Err(e), trace.last()),
{
    reveal(walks);
    reveal(chain);
    let pi = plan_times(cmds, line, i).0;
    lemma_plan_times_prefix(cmds, line, (i + 1) as nat, n);
    let pn = plan_times(cmds, line, n).0;
    assert(pn =~= pi + done);
    assert(pn.take(pn.len() as int) =~= pn);
}

/// On lines without loop commands, a run of the block from line `idx` runs
/// every line from `idx` to the end, each once and in order, and consumes
/// them all.
pub proof fn lemma_plan_without_loops(cmds: Seq<Seq<char>>, idx: int)
    requires
        0 <= idx <= cmds.len(),
        forall|t: int| idx <= t < cmds.len() ==> !is_loop_command(#[trigger] cmds[t]),
    ensures
        plan_lines(cmds, idx).0 == Seq::new((cmds.len() - idx) as nat, |t: int| idx + t),
        plan_lines(cmds, idx).1 == Ok::<nat, Fault>((cmds.len() - idx) as nat),
    decreases cmds.len() - idx,
{
    if idx < cmds.len() {
        assert(!is_loop_command(cmds[idx]));
        lemma_plan_without_loops(cmds, idx + 1);
        assert(seq![idx] + Seq::new((cmds.len() - idx - 1) as nat, |t: int| idx + 1 + t)
            =~= Seq::new((cmds.len() - idx) as nat, |t: int| idx + t));
    } else {
        assert(Seq::<int>::empty() =~= Seq::new(0nat, |t: int| idx + t));
    }
}

/// The interpreter with loops.
pub struct ByteCodeWithLoops<F> {
    pub inner: ByteCode<F>,
}

/// Whether no command of `cmds` runs an operation added by the caller.
pub open spec fn runs_no_custom(
    customs: Map<Seq<char>, CustomInstruction>,
    cmds: Seq<Vec<char>>,
) -> bool {
    forall|i: int| 0 <= i < cmds.len() ==> !runs_custom(customs, #[trigger] cmds[i]@)
}

impl ByteCodeWithLoops<NoCustomOperation> {
    /// Runs the program `code_block`, with loops, on a fresh interpreter and
    /// returns the value it leaves on the stack.
    pub fn evaluate_byte_code(code_block: &str) -> (r: i64)
        requires
            loop_evaluation(code_block@) is Ok,
        ensures
            loop_evaluation(code_block@) == Ok::<i64, Fault>(r),
    {
        match ByteCodeWithLoops::<NoCustomOperation>::try_evaluate_byte_code(code_block) {
            Ok(v) => v,
            Err(_) => 0,
        }
    }

    /// Runs the program `code_block`, with loops, on a fresh interpreter: the
    /// value it leaves on the stack, or why the program is rejected.
    pub fn try_evaluate_byte_code(code_block: &str) -> (r: Result<i64, Fault>)
        ensures
            r == loop_evaluation(code_block@),
    {
        let mut byte_code: ByteCodeWithLoops<NoCustomOperation> = ByteCodeWithLoops {
            inner: ByteCode::new(),
        };
        let cmds = match byte_code.inner.parse_cmds_from_block(code_block) {
            Ok(c) => c,
            Err(e) => return Err(e),
        };
        match byte_code.evaluate_sub_blocks_from_line_number_n_times(&cmds, 0, 1) {
            Ok(_) => {},
            Err(e) => return Err(e),
        }
        if byte_code.inner.op_stack.len() != 1 {
            return Err(Fault::IllFormedStack);
        }
        match byte_code.inner.op_stack.pop() {
            Some(v) => Ok(v),
            None => Err(Fault::IllFormedStack),
        }
    }

}

impl<F: CustomOperation> ByteCodeWithLoops<F> {
    /// Runs the block of `cmds` that starts at `line_number` `n` times (see
    /// `run_times`, which holds where no command runs an added operation)
    /// and returns the number of lines the last run consumed.
    #[verifier::rlimit(100)]
    pub fn evaluate_sub_blocks_from_line_number_n_times(
        &mut self,
        cmds: &Vec<Vec<char>>,
        line_number: usize,
        n: usize,
    ) -> (r: Result<usize, Fault>)
        requires
            old(self).inner.wf(),
        ensures
            final(self).inner.wf(),
            final(self).inner.instructions() == old(self).inner.instructions(),
            final(self).inner.customs() == old(self).inner.customs(),
            final(self).inner.custom_operations@ == old(self).inner.custom_operations@,
            runs_no_custom(old(self).inner.customs(), cmds@) ==> match run_times(
                old(self).inner.instructions(),
                views(cmds@),
                line_number as int,
                n as nat,
                old(self).inner.machine(),
            ) {
                Ok((m, c)) => r matches Ok(v) && v == c && final(self).inner.machine() == m,
                Err(e) => r == Err::<usize, Fault>(e),
            },
            r matches Ok(v) ==> v == 0 || line_number + v <= cmds@.len(),
            exists|trace: Seq<ByteCode<F>>|
                #[trigger] walks(
                    trace,
                    old(self).inner,
                    views(cmds@),
                    plan_times(views(cmds@), line_number as int, n as nat),
                    as_count(r),
                    final(self).inner,
                ),
        decreases lines_left(cmds@.len() as int, line_number as int),
    {
        let ghost cs = views(cmds@);
        let ghost instrs = self.inner.instructions();
        let ghost m0 = self.inner.machine();
        let ghost line = line_number as int;
        let ghost customs = self.inner.customs();
        let ghost plain = runs_no_custom(customs, cmds@);
        let ghost b0 = self.inner;
        let ghost mut trace: Seq<ByteCode<F>> = seq![self.inner];
        proof {
            lemma_chain_empty(self.inner, cs);
        }
        let loop_start_word = chars_of("LOOP_START");
        let loop_end_word = chars_of("LOOP_END");
        let mut idx: usize = line_number;
        let mut i: usize = 0;
        while i < n
            invariant
                cs == views(cmds@),
                instrs == old(self).inner.instructions(),
                m0 == old(self).inner.machine(),
                line == line_number,
                loop_start_word@ == "LOOP_START"@,
                loop_end_word@ == "LOOP_END"@,
                self.inner.wf(),
                self.inner.instructions() == instrs,
                customs == old(self).inner.customs(),
                self.inner.customs() == customs,
                self.inner.custom_operations@ == old(self).inner.custom_operations@,
                plain == runs_no_custom(customs, cmds@),
                i <= n,
                line_number <= idx,
                idx <= cmds@.len() || idx == line_number,
                plain ==> run_times(instrs, cs, line, i as nat, m0) == Ok::<(Machine, nat), Fault>(
                    (self.inner.machine(), (idx - line_number) as nat),
                ),
                b0 == old(self).inner,
                chain(trace, b0, cs, plan_times(cs, line, i as nat).0),
                plan_times(cs, line, i as nat).1 == Ok::<nat, Fault>((idx - line_number) as nat),
                trace.last() == self.inner,
            decreases n - i,
        {
            let ghost m_start = self.inner.machine();
            let ghost block = run_lines(instrs, cs, line, m_start);
            assert(plain ==> run_times(instrs, cs, line, (i + 1) as nat, m0) == block);
            let ghost pi = plan_times(cs, line, i as nat).0;
            let ghost mut done: Seq<int> = Seq::empty();
            assert(pi + done =~= pi);
            idx = line_number;
            let mut finished = false;
            while idx < cmds.len() && !finished
                invariant
                    cs == views(cmds@),
                    instrs == old(self).inner.instructions(),
                    line == line_number,
                    loop_start_word@ == "LOOP_START"@,
                    loop_end_word@ == "LOOP_END"@,
                    self.inner.wf(),
                    self.inner.instructions() == instrs,
                    customs == old(self).inner.customs(),
                    self.inner.customs() == customs,
                    self.inner.custom_operations@ == old(self).inner.custom_operations@,
                    plain == runs_no_custom(customs, cmds@),
                    line_number <= idx,
                    idx <= cmds@.len() || idx == line_number,
                    block == run_lines(instrs, cs, line, m_start),
                    i < n,
                    m0 == old(self).inner.machine(),
                    plain ==> run_times(instrs, cs, line, (i + 1) as nat, m0) == block,
                    plain ==> block == (if finished {
                        Ok::<(Machine, nat), Fault>((self.inner.machine(), (idx - line_number) as nat))
                    } else {
                        shifted(
                            run_lines(instrs, cs, idx as int, self.inner.machine()),
                            (idx - line_number) as nat,
                        )
                    }),
                    b0 == old(self).inner,
                    pi == plan_times(cs, line, i as nat).0,
                    plan_times(cs, line, i as nat).1 is Ok,
                    chain(trace, b0, cs, pi + done),
                    trace.last() == self.inner,
                    !finished ==> plan_lines(cs, line).0 == done + plan_lines(cs, idx as int).0,
                    !finished ==> plan_lines(cs, line).1 == plus(
                        plan_lines(cs, idx as int).1,
                        (idx - line_number) as nat,
                    ),
                    finished ==> plan_lines(cs, line).0 == done,
                    finished ==> plan_lines(cs, line).1 == Ok::<nat, Fault>(
                        (idx - line_number) as nat,
                    ),
                decreases cmds@.len() - idx, if finished { 0int } else { 1int },
            {
                let cmd = &cmds[idx];
                assert(cmd@ == cs[idx as int]);
                let parts = split_chars(cmd, ' ');
                assert(views(parts@) == split(cs[idx as int], ' '));
                if parts.len() == 2 && same_chars(&parts[0], &loop_start_word) {
                    assert(parts@[0]@ == split(cs[idx as int], ' ')[0]);
                    assert(parts@[1]@ == split(cs[idx as int], ' ')[1]);
                    let count = match parse_usize_chars(&parts[1]) {
                        Some(k) => k,
                        None => {
                            proof {
                                if plain {
                                    lemma_run_times_fault(
                                        instrs,
                                        cs,
                                        line,
                                        (i + 1) as nat,
                                        n as nat,
                                        m0,
                                    );
                                }
                                assert(plan_lines(cs, idx as int).0 =~= Seq::<int>::empty());
                                assert(done + plan_lines(cs, idx as int).0 =~= done);
                                lemma_walk_fault_planned(
                                    cs,
                                    line,
                                    i as nat,
                                    n as nat,
                                    b0,
                                    trace,
                                    done,
                                    Fault::InvalidLoopCount,
                                );
                            }
                            return Err(Fault::InvalidLoopCount);
                        },
                    };
                    let ghost before = self.inner;
                    let ghost p1 = plan_times(cs, idx + 1, count as nat);
                    let res = self.evaluate_sub_blocks_from_line_number_n_times(
                        cmds,
                        idx + 1,
                        count,
                    );
                    let ghost t2 = choose|t: Seq<ByteCode<F>>|
                        walks(t, before, cs, p1, as_count(res), self.inner);
                    let ghost k2 = t2.len() - 1;
                    proof {
                        lemma_walks_parts(t2, before, cs, p1, as_count(res), self.inner);
                        lemma_chain_concat(trace, b0, cs, pi + done, t2, p1.0.take(k2));
                    }
                    let c = match res {
                        Ok(c) => c,
                        Err(e) => {
                            proof {
                                if plain {
                                    lemma_run_times_fault(
                                        instrs,
                                        cs,
                                        line,
                                        (i + 1) as nat,
                                        n as nat,
                                        m0,
                                    );
                                }
                                let tt = trace + t2.drop_first();
                                assert(pi + done + p1.0.take(k2) =~= pi + (done + p1.0.take(k2)));
                                if k2 < p1.0.len() {
                                    let y = plan_lines(cs, idx as int).0;
                                    assert(y.take(p1.0.len() as int) =~= p1.0);
                                    assert(y.take(k2) =~= p1.0.take(k2));
                                    assert(plan_lines(cs, line).0 =~= done + y);
                                    lemma_walk_fault_inside(
                                        cs,
                                        line,
                                        i as nat,
                                        n as nat,
                                        b0,
                                        tt,
                                        done,
                                        p1.0.take(k2),
                                        y,
                                        p1.0[k2],
                                        e,
                                        self.inner,
                                    );
                                } else {
                                    assert(p1.0.take(k2) =~= p1.0);
                                    assert(plan_lines(cs, line).0 =~= done + p1.0);
                                    lemma_walk_fault_planned(
                                        cs,
                                        line,
                                        i as nat,
                                        n as nat,
                                        b0,
                                        tt,
                                        done + p1.0,
                                        e,
                                    );
                                }
                            }
                            return Err(e);
                        },
                    };
                    proof {
                        assert(k2 == p1.0.len());
                        assert(p1.0.take(k2) =~= p1.0);
                        trace = trace + t2.drop_first();
                        assert(pi + done + p1.0 =~= pi + (done + p1.0));
                        assert(plan_lines(cs, idx as int).0 =~= p1.0 + plan_lines(
                            cs,
                            idx + 1 + c,
                        ).0);
                        done = done + p1.0;
                        assert(plan_lines(cs, line).0 =~= done + plan_lines(cs, idx + 1 + c).0);
                    }
                    idx = idx + c + 1;
                } else if same_chars(cmd, &loop_end_word) {
                    proof {
                        assert(is_loop_end(cs[idx as int]));
                        lemma_end_is_not_start(cs[idx as int]);
                        assert(done + plan_lines(cs, idx as int).0 =~= done);
                    }
                    idx += 1;
                    finished = true;
                } else {
                    let prev = if idx > 0 {
                        Some(&cmds[idx - 1])
                    } else {
                        None
                    };
                    assert(plain ==> !runs_custom(customs, cmds@[idx as int]@));
                    assert(opt_view(prev) == prev_of(cs, idx as int));
                    let ghost before = self.inner;
                    let ghost y = plan_lines(cs, idx as int).0;
                    assert(y =~= seq![idx as int] + plan_lines(cs, idx + 1).0);
                    match self.inner.parse_and_execute_cmd(cmd, prev) {
                        Ok(()) => {},
                        Err(e) => {
                            proof {
                                if plain {
                                    lemma_run_times_fault(
                                        instrs,
                                        cs,
                                        line,
                                        (i + 1) as nat,
                                        n as nat,
                                        m0,
                                    );
                                }
                                assert(pi + done + Seq::<int>::empty() =~= pi + done);
                                assert(y.take(0) =~= Seq::<int>::empty());
                                lemma_walk_fault_inside(
                                    cs,
                                    line,
                                    i as nat,
                                    n as nat,
                                    b0,
                                    trace,
                                    done,
                                    Seq::<int>::empty(),
                                    y,
                                    idx as int,
                                    e,
                                    self.inner,
                                );
                            }
                            return Err(e);
                        },
                    }
                    proof {
                        let t2 = seq![before, self.inner];
                        lemma_chain_single(before, self.inner, cs, idx as int);
                        lemma_chain_concat(trace, b0, cs, pi + done, t2, seq![idx as int]);
                        trace = trace + t2.drop_first();
                        assert(pi + done + seq![idx as int] =~= pi + done.push(idx as int));
                        done = done.push(idx as int);
                        assert(plan_lines(cs, line).0 =~= done + plan_lines(cs, idx + 1).0);
                    }
                    idx += 1;
                }
            }
            proof {
                if !finished {
                    assert(done + plan_lines(cs, idx as int).0 =~= done);
                }
                assert(plan_times(cs, line, (i + 1) as nat).0 == pi + plan_lines(cs, line).0);
            }
            i += 1;
        }
        proof {
            lemma_walks_complete(trace, old(self).inner, cs, plan_times(cs, line, n as nat));
        }
        assert(walks(
            trace,
            old(self).inner,
            cs,
            plan_times(cs, line, n as nat),
            Ok::<nat, Fault>((idx - line_number) as nat),
            self.inner,
        ));
        Ok(idx - line_number)
    }
}

/// Whether no command of `cmds` is a loop command.
pub open spec fn loop_free(cmds: Seq<Seq<char>>) -> bool {
    forall|i: int| 0 <= i < cmds.len() ==> !is_loop_command(#[trigger] cmds[i])
}

/// On loop-free commands, running the block from line `i` is running the
/// plain commands from `i` to the end.
proof fn lemma_lines_without_loops(
    instrs: Map<Seq<char>, Instruction>,
    cmds: Seq<Seq<char>>,
    i: int,
    m: Machine,
)
    requires
        0 <= i <= cmds.len(),
        loop_free(cmds),
    ensures
        run_lines(instrs, cmds, i, m) == (match run_from(instrs, cmds, i, 0, m) {
            Ok(m1) => Ok((m1, (cmds.len() - i) as nat)),
            Err(e) => Err(e),
        }),
    decreases cmds.len() - i,
{
    if i < cmds.len() {
        assert(!is_loop_command(cmds[i]));
        let prev = if i > 0 {
            Some(cmds[i - 1])
        } else {
            None
        };
        match step(instrs, cmds[i], prev, m) {
            Err(e) => {},
            Ok(m1) => {
                lemma_lines_without_loops(instrs, cmds, i + 1, m1);
            },
        }
    }
}

/// A program without loop commands means the same to the interpreter with
/// loops as to the plain interpreter: the same value, or the same fault.
pub proof fn lemma_loops_agree(instrs: Map<Seq<char>, Instruction>, text: Seq<char>)
    requires
        parse_block(text) is Ok ==> loop_free(parse_block(text)->Ok_0),
    ensures
        run_loop_program(instrs, text) == run_program(instrs, text),
{
    if let Ok(cmds) = parse_block(text) {
        lemma_lines_without_loops(instrs, cmds, 0, initial_machine());
        assert(run_times(instrs, cmds, 0, 0, initial_machine()) == Ok::<(Machine, nat), Fault>(
            (initial_machine(), 0),
        ));
    }
}

/// Runs the commands from line `i` up to (not including) line `j`, each
/// handed the line before it as its predecessor.
pub open spec fn run_span(
    instrs: Map<Seq<char>, Instruction>,
    cmds: Seq<Seq<char>>,
    i: int,
    j: int,
    m: Machine,
) -> Result<Machine, Fault>
    decreases j - i,
{
    if i >= j {
        Ok(m)
    } else {
        let prev = if i > 0 {
            Some(cmds[i - 1])
        } else {
            None
        };
        match step(instrs, cmds[i], prev, m) {
            Err(e) => Err(e),
            Ok(m1) => run_span(instrs, cmds, i + 1, j, m1),
        }
    }
}

/// Runs the commands from line `i` up to line `j` `k` times over.
pub open spec fn repeat_span(
    instrs: Map<Seq<char>, Instruction>,
    cmds: Seq<Seq<char>>,
    i: int,
    j: int,
    k: nat,
    m: Machine,
) -> Result<Machine, Fault>
    decreases k,
{
    if k == 0 {
        Ok(m)
    } else {
        match repeat_span(instrs, cmds, i, j, (k - 1) as nat, m) {
            Err(e) => Err(e),
            Ok(m1) => run_span(instrs, cmds, i, j, m1),
        }
    }
}

/// A body of plain commands from `i` closed by `LOOP_END` at `e` runs once
/// and consumes its lines and the `LOOP_END`.
proof fn lemma_body_once(
    instrs: Map<Seq<char>, Instruction>,
    cmds: Seq<Seq<char>>,
    i: int,
    e: int,
    m: Machine,
)
    requires
        0 <= i <= e < cmds.len(),
        is_loop_end(cmds[e]),
        forall|t: int| i <= t < e ==> !is_loop_command(#[trigger] cmds[t]),
    ensures
        run_lines(instrs, cmds, i, m) == (match run_span(instrs, cmds, i, e, m) {
            Ok(m1) => Ok((m1, (e - i + 1) as nat)),
            Err(err) => Err(err),
        }),
    decreases e - i,
{
    if i == e {
        reveal_strlit("LOOP_END");
        crate::text::lemma_split_without_separator(cmds[e], ' ');
    }
    if i < e {
        assert(!is_loop_command(cmds[i]));
        let prev = if i > 0 {
            Some(cmds[i - 1])
        } else {
            None
        };
        match step(instrs, cmds[i], prev, m) {
            Err(err) => {},
            Ok(m1) => {
                lemma_body_once(instrs, cmds, i + 1, e, m1);
            },
        }
    }
}

/// Running such a body `k` times is running its commands `k` times over.
proof fn lemma_body_times(
    instrs: Map<Seq<char>, Instruction>,
    cmds: Seq<Seq<char>>,
    i: int,
    e: int,
    k: nat,
    m: Machine,
)
    requires
        0 <= i <= e < cmds.len(),
        is_loop_end(cmds[e]),
        forall|t: int| i <= t < e ==> !is_loop_command(#[trigger] cmds[t]),
    ensures
        run_times(instrs, cmds, i, k, m) == (match repeat_span(instrs, cmds, i, e, k, m) {
            Ok(m1) => Ok((m1, if k == 0 { 0nat } else { (e - i + 1) as nat })),
            Err(err) => Err(err),
        }),
    decreases k,
{
    if k > 0 {
        lemma_body_times(instrs, cmds, i, e, (k - 1) as nat, m);
        match repeat_span(instrs, cmds, i, e, (k - 1) as nat, m) {
            Err(err) => {},
            Ok(m1) => {
                lemma_body_once(instrs, cmds, i, e, m1);
            },
        }
    }
}

/// A loop runs its body as many times as its count says: where line `idx`
/// is `LOOP_START k` with `k >= 1`, the lines up to `e` hold no loop
/// command and line `e` is `LOOP_END`, running the block from `idx` runs the
/// body `k` times and goes on after line `e`.
pub proof fn lemma_loop_repeats_body(
    instrs: Map<Seq<char>, Instruction>,
    cmds: Seq<Seq<char>>,
    idx: int,
    e: int,
    m: Machine,
)
    requires
        0 <= idx < e < cmds.len(),
        is_loop_start(cmds[idx]),
        loop_count(cmds[idx]) matches Some(k) && k >= 1,
        forall|t: int| idx < t < e ==> !is_loop_command(#[trigger] cmds[t]),
        is_loop_end(cmds[e]),
    ensures
        run_lines(instrs, cmds, idx, m) == (match repeat_span(
            instrs,
            cmds,
            idx + 1,
            e,
            loop_count(cmds[idx])->Some_0 as nat,
            m,
        ) {
            Err(err) => Err(err),
            Ok(m1) => shifted(run_lines(instrs, cmds, e + 1, m1), (e - idx + 1) as nat),
        }),
{
    let k = loop_count(cmds[idx])->Some_0 as nat;
    lemma_body_times(instrs, cmds, idx + 1, e, k, m);
    match repeat_span(instrs, cmds, idx + 1, e, k, m) {
        Err(err) => {},
        Ok(m1) => {
            assert(idx + 1 + (e - idx) == e + 1);
        },
    }
}

/// The command before line `i`, as the walk hands it to line `i`.
pub open spec fn prev_of(cmds: Seq<Seq<char>>, i: int) -> Option<Seq<char>> {
    if i > 0 {
        Some(cmds[i - 1])
    } else {
        None
    }
}

/// Whether `cmd` runs the `WriteVar` operation, the only one that looks at
/// the command before it.
pub open spec fn writes_var(instrs: Map<Seq<char>, Instruction>, cmd: Seq<char>) -> bool {
    let parts = split(cmd, ' ');
    instrs.contains_key(parts[0]) && instrs[parts[0]].operation == Operation::WriteVar
}

/// A command that does not write a variable does the same whatever precedes it.
proof fn lemma_step_ignores_prev(
    instrs: Map<Seq<char>, Instruction>,
    cmd: Seq<char>,
    p1: Option<Seq<char>>,
    p2: Option<Seq<char>>,
    m: Machine,
)
    requires
        !writes_var(instrs, cmd),
    ensures
        step(instrs, cmd, p1, m) == step(instrs, cmd, p2, m),
{
}

/// On loop-free lines from `i` to `j`, the walk runs those lines as plain
/// commands and goes on at `j`.
proof fn lemma_lines_through_span(
    instrs: Map<Seq<char>, Instruction>,
    cmds: Seq<Seq<char>>,
    i: int,
    j: int,
    m: Machine,
)
    requires
        0 <= i <= j <= cmds.len(),
        forall|t: int| i <= t < j ==> !is_loop_command(#[trigger] cmds[t]),
    ensures
        run_lines(instrs, cmds, i, m) == (match run_span(instrs, cmds, i, j, m) {
            Ok(m1) => shifted(run_lines(instrs, cmds, j, m1), (j - i) as nat),
            Err(e) => Err(e),
        }),
    decreases j - i,
{
    if i < j {
        assert(!is_loop_command(cmds[i]));
        match step(instrs, cmds[i], prev_of(cmds, i), m) {
            Err(e) => {},
            Ok(m1) => {
                lemma_lines_through_span(instrs, cmds, i + 1, j, m1);
            },
        }
    } else {
        match run_lines(instrs, cmds, i, m) {
            Err(e) => {},
            Ok((m2, c)) => {},
        }
    }
}

/// Running lines `i..k` is running `i..j` and then `j..k`.
proof fn lemma_span_split(
    instrs: Map<Seq<char>, Instruction>,
    cmds: Seq<Seq<char>>,
    i: int,
    j: int,
    k: int,
    m: Machine,
)
    requires
        i <= j <= k,
    ensures
        run_span(instrs, cmds, i, k, m) == (match run_span(instrs, cmds, i, j, m) {
            Ok(m1) => run_span(instrs, cmds, j, k, m1),
            Err(e) => Err(e),
        }),
    decreases j - i,
{
    if i < j {
        match step(instrs, cmds[i], prev_of(cmds, i), m) {
            Err(e) => {},
            Ok(m1) => {
                lemma_span_split(instrs, cmds, i + 1, j, k, m1);
            },
        }
    }
}

/// The same `len` lines run alike wherever they stand, provided their first
/// line either writes no variable or has the same predecessor.
proof fn lemma_span_same(
    instrs: Map<Seq<char>, Instruction>,
    c1: Seq<Seq<char>>,
    i: int,
    c2: Seq<Seq<char>>,
    j: int,
    len: int,
    m: Machine,
)
    requires
        0 <= i,
        0 <= j,
        0 <= len,
        i + len <= c1.len(),
        j + len <= c2.len(),
        forall|t: int| 0 <= t < len ==> #[trigger] c1[i + t] == c2[j + t],
        len > 0 ==> (!writes_var(instrs, c1[i]) || prev_of(c1, i) == prev_of(c2, j)),
    ensures
        run_span(instrs, c1, i, i + len, m) == run_span(instrs, c2, j, j + len, m),
    decreases len,
{
    if len > 0 {
        assert(c1[i + 0] == c2[j + 0]);
        if writes_var(instrs, c1[i]) {
        } else {
            lemma_step_ignores_prev(instrs, c1[i], prev_of(c1, i), prev_of(c2, j), m);
        }
        match step(instrs, c1[i], prev_of(c1, i), m) {
            Err(e) => {},
            Ok(m1) => {
                assert forall|t: int| 0 <= t < len - 1 implies #[trigger] c1[(i + 1) + t] == c2[(j
                    + 1) + t] by {
                    assert(c1[i + (t + 1)] == c2[j + (t + 1)]);
                }
                lemma_span_same(instrs, c1, i + 1, c2, j + 1, len - 1, m1);
            },
        }
    }
}

/// Whether the lines of `c1` from `i` on are the lines of `c2` from `j` on.
pub open spec fn suffix_match(c1: Seq<Seq<char>>, c2: Seq<Seq<char>>, i: int, j: int) -> bool {
    &&& 0 <= i <= c1.len()
    &&& 0 <= j <= c2.len()
    &&& c1.len() - i == c2.len() - j
    &&& forall|t: int| 0 <= t < c1.len() - i ==> #[trigger] c1[i + t] == c2[j + t]
}

/// The walk from a line of a common tail of two programs runs alike in both
/// (the first line of the tail must write no variable or have the same
/// predecessor in both).
proof fn lemma_shift_lines(
    instrs: Map<Seq<char>, Instruction>,
    c1: Seq<Seq<char>>,
    c2: Seq<Seq<char>>,
    i: int,
    j: int,
    x: int,
    m: Machine,
)
    requires
        suffix_match(c1, c2, i, j),
        i <= x,
        x == i && x < c1.len() ==> (!writes_var(instrs, c1[x]) || prev_of(c1, x) == prev_of(
            c2,
            j,
        )),
    ensures
        run_lines(instrs, c1, x, m) == run_lines(instrs, c2, x - i + j, m),
    decreases lines_left(c1.len() as int, x), 0nat, 0nat,
{
    let y = x - i + j;
    if x < c1.len() {
        assert(c1[i + (x - i)] == c2[j + (x - i)]);
        let cmd = c1[x];
        if is_loop_start(cmd) {
            match loop_count(cmd) {
                None => {},
                Some(k) => {
                    lemma_shift_times(instrs, c1, c2, i, j, x + 1, k as nat, m);
                    match run_times(instrs, c1, x + 1, k as nat, m) {
                        Err(e) => {},
                        Ok((m1, c)) => {
                            lemma_shift_lines(instrs, c1, c2, i, j, x + 1 + c, m1);
                        },
                    }
                },
            }
        } else if is_loop_end(cmd) {
        } else {
            if x > i {
                assert(c1[i + (x - 1 - i)] == c2[j + (x - 1 - i)]);
                assert(prev_of(c1, x) == prev_of(c2, y));
            } else if !writes_var(instrs, cmd) {
                lemma_step_ignores_prev(instrs, cmd, prev_of(c1, x), prev_of(c2, y), m);
            }
            match step(instrs, cmd, prev_of(c1, x), m) {
                Err(e) => {},
                Ok(m1) => {
                    lemma_shift_lines(instrs, c1, c2, i, j, x + 1, m1);
                },
            }
        }
    }
}

proof fn lemma_shift_times(
    instrs: Map<Seq<char>, Instruction>,
    c1: Seq<Seq<char>>,
    c2: Seq<Seq<char>>,
    i: int,
    j: int,
    x: int,
    n: nat,
    m: Machine,
)
    requires
        suffix_match(c1, c2, i, j),
        i < x,
    ensures
        run_times(instrs, c1, x, n, m) == run_times(instrs, c2, x - i + j, n, m),
    decreases lines_left(c1.len() as int, x), 1nat, n,
{
    if n > 0 {
        lemma_shift_times(instrs, c1, c2, i, j, x, (n - 1) as nat, m);
        match run_times(instrs, c1, x, (n - 1) as nat, m) {
            Err(e) => {},
            Ok((m1, _)) => {
                lemma_shift_lines(instrs, c1, c2, i, j, x, m1);
            },
        }
    }
}

/// The lines `body` written out `n` times.
pub open spec fn repeated(body: Seq<Seq<char>>, n: nat) -> Seq<Seq<char>>
    decreases n,
{
    if n == 0 {
        Seq::empty()
    } else {
        repeated(body, (n - 1) as nat) + body
    }
}

proof fn lemma_repeated_prefix(body: Seq<Seq<char>>, k: nat, n: nat)
    requires
        k <= n,
    ensures
        repeated(body, k).len() <= repeated(body, n).len(),
        forall|t: int|
            0 <= t < repeated(body, k).len() ==> #[trigger] repeated(body, n)[t] == repeated(
                body,
                k,
            )[t],
    decreases n,
{
    if k < n {
        lemma_repeated_prefix(body, k, (n - 1) as nat);
        let r = repeated(body, (n - 1) as nat);
        assert forall|t: int| 0 <= t < repeated(body, k).len() implies #[trigger] repeated(
            body,
            n,
        )[t] == repeated(body, k)[t] by {
            assert(repeated(body, n)[t] == r[t]);
        }
    }
}

proof fn lemma_repeated_loop_free(body: Seq<Seq<char>>, n: nat)
    requires
        loop_free(body),
    ensures
        loop_free(repeated(body, n)),
    decreases n,
{
    if n > 0 {
        lemma_repeated_loop_free(body, (n - 1) as nat);
        let r = repeated(body, (n - 1) as nat);
        assert forall|t: int| 0 <= t < repeated(body, n).len() implies !is_loop_command(
            #[trigger] repeated(body, n)[t],
        ) by {
            if t < r.len() {
                assert(repeated(body, n)[t] == r[t]);
            } else {
                assert(repeated(body, n)[t] == body[t - r.len()]);
            }
        }
    }
}

/// Running the loop body `k` times over in place is running `k` written-out
/// copies of it.
proof fn lemma_repeat_as_copies(
    instrs: Map<Seq<char>, Instruction>,
    c1: Seq<Seq<char>>,
    s: int,
    body: Seq<Seq<char>>,
    c2: Seq<Seq<char>>,
    p: int,
    n: nat,
    k: nat,
    m: Machine,
)
    requires
        k <= n,
        0 <= s,
        s + body.len() <= c1.len(),
        forall|t: int| 0 <= t < body.len() ==> #[trigger] c1[s + t] == body[t],
        0 <= p,
        p + repeated(body, n).len() <= c2.len(),
        forall|t: int| 0 <= t < repeated(body, n).len() ==> #[trigger] c2[p + t] == repeated(body, n)[t],
        body.len() > 0 ==> !writes_var(instrs, body[0]),
    ensures
        repeat_span(instrs, c1, s, s + body.len(), k, m) == run_span(
            instrs,
            c2,
            p,
            p + repeated(body, k).len(),
            m,
        ),
    decreases k,
{
    if k > 0 {
        let k1 = (k - 1) as nat;
        let q = p + repeated(body, k1).len();
        lemma_repeat_as_copies(instrs, c1, s, body, c2, p, n, k1, m);
        lemma_repeated_prefix(body, k, n);
        lemma_repeated_prefix(body, k1, k);
        lemma_span_split(instrs, c2, p, q, p + repeated(body, k).len(), m);
        match repeat_span(instrs, c1, s, s + body.len(), k1, m) {
            Err(e) => {},
            Ok(m1) => {
                assert forall|t: int| 0 <= t < body.len() implies #[trigger] c1[s + t] == c2[q
                    + t] by {
                    let u = repeated(body, k1).len() + t;
                    assert(c2[p + u] == repeated(body, n)[u]);
                    assert(repeated(body, n)[u] == repeated(body, k)[u]);
                    assert(repeated(body, k)[u] == body[t]);
                    assert(q + t == p + u);
                }
                if body.len() > 0 {
                    assert(c1[s + 0] == body[0]);
                }
                lemma_span_same(instrs, c1, s, c2, q, body.len() as int, m1);
            },
        }
    }
}

/// Whether two walk results agree on the machine or on the fault (the
/// numbers of lines they consumed aside).
pub open spec fn same_outcome(r1: Result<(Machine, nat), Fault>, r2: Result<(Machine, nat), Fault>) -> bool {
    match (r1, r2) {
        (Ok((m1, _)), Ok((m2, _))) => m1 == m2,
        (Err(e1), Err(e2)) => e1 == e2,
        _ => false,
    }
}

/// A loop runs like its body written out as many times as its count says:
/// where the lines `pre`, `LOOP_START n` (`n >= 1`), a loop-free `body`,
/// `LOOP_END`, `suf` are replaced by `pre`, `n` copies of `body`, `suf`, the
/// walk from the loop's line and the walk from the first copy end in the same
/// machine or the same fault. The first line of `body` and of `suf` must not
/// write a variable, as those see another predecessor in the two programs.
pub proof fn lemma_unrolled_loop_walk(
    instrs: Map<Seq<char>, Instruction>,
    pre: Seq<Seq<char>>,
    start: Seq<char>,
    body: Seq<Seq<char>>,
    end: Seq<char>,
    suf: Seq<Seq<char>>,
    m: Machine,
)
    requires
        is_loop_start(start),
        loop_count(start) matches Some(n) && n >= 1,
        loop_free(body),
        is_loop_end(end),
        body.len() > 0 ==> !writes_var(instrs, body[0]),
        suf.len() > 0 ==> !writes_var(instrs, suf[0]),
    ensures
        same_outcome(
            run_lines(instrs, pre + seq![start] + body + seq![end] + suf, pre.len() as int, m),
            run_lines(
                instrs,
                pre + repeated(body, loop_count(start)->Some_0 as nat) + suf,
                pre.len() as int,
                m,
            ),
        ),
{
    let n = loop_count(start)->Some_0 as nat;
    let c1 = pre + seq![start] + body + seq![end] + suf;
    let rep = repeated(body, n);
    let c2 = pre + rep + suf;
    let p = pre.len() as int;
    let e = p + 1 + body.len();
    assert(c1[p] == start);
    assert(c1[e] == end);
    assert forall|t: int| 0 <= t < body.len() implies #[trigger] c1[(p + 1) + t] == body[t] by {}
    assert forall|t: int| p < t < e implies !is_loop_command(#[trigger] c1[t]) by {
        assert(c1[(p + 1) + (t - p - 1)] == body[t - p - 1]);
    }
    assert forall|t: int| 0 <= t < rep.len() implies #[trigger] c2[p + t] == rep[t] by {}
    lemma_loop_repeats_body(instrs, c1, p, e, m);
    lemma_repeated_loop_free(body, n);
    assert forall|t: int| p <= t < p + rep.len() implies !is_loop_command(#[trigger] c2[t]) by {
        assert(c2[p + (t - p)] == rep[t - p]);
    }
    lemma_lines_through_span(instrs, c2, p, p + rep.len(), m);
    lemma_repeat_as_copies(instrs, c1, p + 1, body, c2, p, n, n, m);
    match run_span(instrs, c2, p, p + rep.len(), m) {
        Err(err) => {},
        Ok(m1) => {
            assert(suffix_match(c1, c2, e + 1, p + rep.len())) by {
                assert forall|t: int| 0 <= t < c1.len() - (e + 1) implies #[trigger] c1[(e + 1)
                    + t] == c2[(p + rep.len()) + t] by {}
            }
            if suf.len() > 0 {
                assert(c1[e + 1] == suf[0]);
            }
            lemma_shift_lines(instrs, c1, c2, e + 1, p + rep.len(), e + 1, m1);
            match run_lines(instrs, c1, e + 1, m1) {
                Err(err) => {},
                Ok((m2, c)) => {},
            }
        },
    }
}

/// Whether `cmd` is a `WRITE_VAR` command.
pub open spec fn is_write_command(cmd: Seq<char>) -> bool {
    split(cmd, ' ')[0] == "WRITE_VAR"@
}

/// Blank lines and whitespace at the ends of lines do not matter to the
/// interpreter with loops either: the same value or the same fault.
pub proof fn lemma_padding_preserves_loop_evaluation(
    instrs: Map<Seq<char>, Instruction>,
    text: Seq<char>,
    padded_text: Seq<char>,
)
    requires
        padded_lines(split(text, '\n'), split(padded_text, '\n')),
    ensures
        run_loop_program(instrs, padded_text) == run_loop_program(instrs, text),
        loop_evaluation(padded_text) == loop_evaluation(text),
{
    lemma_padding_preserves_evaluation(instrs, text, padded_text);
}

/// Whether `s` is a sequence of plain commands and complete loops: each loop
/// opens with a `LOOP_START` whose count is at least 1, holds such a
/// sequence, and is closed by its `LOOP_END`.
pub open spec fn balanced(s: Seq<Seq<char>>) -> bool
    decreases s.len(),
{
    if s.len() == 0 {
        true
    } else if !is_loop_command(s[0]) {
        balanced(s.drop_first())
    } else {
        &&& is_loop_start(s[0])
        &&& loop_count(s[0]) matches Some(k) && k >= 1
        &&& exists|e: int|
            0 < e < s.len() && is_loop_end(#[trigger] s[e]) && balanced(s.subrange(1, e))
                && balanced(s.subrange(e + 1, s.len() as int))
    }
}

/// A closing line is no opening line.
proof fn lemma_end_is_not_start(cmd: Seq<char>)
    requires
        is_loop_end(cmd),
    ensures
        !is_loop_start(cmd),
{
    reveal_strlit("LOOP_END");
    crate::text::lemma_split_without_separator(cmd, ' ');
}

/// The lines `i..j` of `cmds` on their own: the line before them (if any),
/// those lines, and a closing `LOOP_END`.
pub open spec fn isolated(cmds: Seq<Seq<char>>, i: int, j: int) -> Seq<Seq<char>> {
    (if i > 0 {
        seq![cmds[i - 1]]
    } else {
        Seq::empty()
    }) + cmds.subrange(i, j) + seq!["LOOP_END"@]
}

/// Where the isolated lines start in `isolated(cmds, i, j)`.
pub open spec fn lead(i: int) -> int {
    if i > 0 {
        1
    } else {
        0
    }
}

/// What the walk over a balanced run of lines `i..j` gives: the walk over
/// the isolated lines, and then the walk goes on at `j`.
pub open spec fn balanced_walk_holds(
    instrs: Map<Seq<char>, Instruction>,
    c: Seq<Seq<char>>,
    i: int,
    j: int,
    m: Machine,
) -> bool {
    &&& run_lines(instrs, c, i, m) == (match run_lines(instrs, isolated(c, i, j), lead(i), m) {
        Ok((m1, _)) => shifted(run_lines(instrs, c, j, m1), (j - i) as nat),
        Err(err) => Err(err),
    })
    &&& run_lines(instrs, isolated(c, i, j), lead(i), m) matches Ok((_, cnt)) ==> cnt == j - i + 1
}

proof fn lemma_isolated_facts(c: Seq<Seq<char>>, i: int, j: int)
    requires
        0 <= i <= j <= c.len(),
    ensures
        isolated(c, i, j).len() == lead(i) + (j - i) + 1,
        forall|t: int| 0 <= t < j - i ==> #[trigger] isolated(c, i, j)[lead(i) + t] == c[i + t],
        is_loop_end(isolated(c, i, j)[lead(i) + (j - i)]),
        !is_loop_start(isolated(c, i, j)[lead(i) + (j - i)]),
        i > 0 ==> isolated(c, i, j)[0] == c[i - 1],
{
    let n = isolated(c, i, j);
    assert forall|t: int| 0 <= t < j - i implies #[trigger] n[lead(i) + t] == c[i + t] by {}
    assert(n[lead(i) + (j - i)] == "LOOP_END"@);
    lemma_end_is_not_start(n[lead(i) + (j - i)]);
}

/// The walk over a balanced run of lines `i..j` reads only those lines and
/// the one before them.
proof fn lemma_balanced_walk(
    instrs: Map<Seq<char>, Instruction>,
    c: Seq<Seq<char>>,
    i: int,
    j: int,
    m: Machine,
)
    requires
        0 <= i <= j <= c.len(),
        balanced(c.subrange(i, j)),
    ensures
        balanced_walk_holds(instrs, c, i, j, m),
    decreases j - i, 2nat, 0nat,
{
    let seg = c.subrange(i, j);
    lemma_isolated_facts(c, i, j);
    if i == j {
        let n = isolated(c, i, j);
        assert(run_lines(instrs, n, lead(i), m) == Ok::<(Machine, nat), Fault>((m, 1)));
        match run_lines(instrs, c, j, m) {
            Ok((m1, cnt)) => {},
            Err(err) => {},
        }
    } else if !is_loop_command(seg[0]) {
        lemma_balanced_plain(instrs, c, i, j, m);
    } else {
        lemma_balanced_loop(instrs, c, i, j, m);
    }
}

proof fn lemma_balanced_plain(
    instrs: Map<Seq<char>, Instruction>,
    c: Seq<Seq<char>>,
    i: int,
    j: int,
    m: Machine,
)
    requires
        0 <= i < j <= c.len(),
        balanced(c.subrange(i, j)),
        !is_loop_command(c[i]),
    ensures
        balanced_walk_holds(instrs, c, i, j, m),
    decreases j - i, 1nat, 0nat,
{
    let n = isolated(c, i, j);
    let o = lead(i);
    let seg = c.subrange(i, j);
    lemma_isolated_facts(c, i, j);
    lemma_isolated_facts(c, i + 1, j);
    assert(seg[0] == c[i]);
    assert(n[o + 0] == c[i + 0]);
    assert(prev_of(n, o) == prev_of(c, i));
    assert(seg.drop_first() =~= c.subrange(i + 1, j));
    let n1 = isolated(c, i + 1, j);
    assert(suffix_match(n, n1, o, 0)) by {
        assert forall|t: int| 0 <= t < n.len() - o implies #[trigger] n[o + t] == n1[0 + t] by {
            if t == 0 {
                assert(n[o + 0] == c[i + 0]);
            } else if t < j - i {
                assert(n[o + t] == c[i + t]);
                assert(n1[1 + (t - 1)] == c[(i + 1) + (t - 1)]);
            } else {
                assert(n1[1 + (j - i - 1)] == "LOOP_END"@);
            }
        }
    }
    match step(instrs, c[i], prev_of(c, i), m) {
        Err(err) => {},
        Ok(m1) => {
            lemma_balanced_walk(instrs, c, i + 1, j, m1);
            lemma_shift_lines(instrs, n, n1, o, 0, o + 1, m1);
            match run_lines(instrs, n1, 1, m1) {
                Err(err) => {},
                Ok((m2, cnt)) => {
                    match run_lines(instrs, c, j, m2) {
                        Ok((m3, c3)) => {},
                        Err(err) => {},
                    }
                },
            }
        },
    }
}

#[verifier::rlimit(30)]
proof fn lemma_balanced_loop(
    instrs: Map<Seq<char>, Instruction>,
    c: Seq<Seq<char>>,
    i: int,
    j: int,
    m: Machine,
)
    requires
        0 <= i < j <= c.len(),
        balanced(c.subrange(i, j)),
        is_loop_command(c[i]),
    ensures
        balanced_walk_holds(instrs, c, i, j, m),
    decreases j - i, 1nat, 0nat,
{
    let n = isolated(c, i, j);
    let o = lead(i);
    let seg = c.subrange(i, j);
    lemma_isolated_facts(c, i, j);
    assert(seg[0] == c[i]);
    let k = loop_count(c[i])->Some_0;
    let e = choose|e: int|
        0 < e < seg.len() && is_loop_end(#[trigger] seg[e]) && balanced(seg.subrange(1, e))
            && balanced(seg.subrange(e + 1, seg.len() as int));
    let ee = i + e;
    assert(seg[e] == c[ee]);
    assert(seg.subrange(1, e) =~= c.subrange(i + 1, ee));
    assert(seg.subrange(e + 1, seg.len() as int) =~= c.subrange(ee + 1, j));
    lemma_times_balanced(instrs, c, i + 1, ee, k as nat, m);
    assert(n[o + 0] == c[i + 0]);
    assert(n[o + e] == c[i + e]);
    assert(n.subrange(o + 1, o + e) =~= c.subrange(i + 1, ee)) by {
        assert forall|t: int| 0 <= t < e - 1 implies #[trigger] n.subrange(o + 1, o + e)[t]
            == c.subrange(i + 1, ee)[t] by {
            assert(n[o + (t + 1)] == c[i + (t + 1)]);
        }
    }
    assert(isolated(n, o + 1, o + e) =~= isolated(c, i + 1, ee));
    lemma_times_balanced(instrs, n, o + 1, o + e, k as nat, m);
    match run_times(instrs, c, i + 1, k as nat, m) {
        Err(err) => {},
        Ok((m1, cc)) => {
            lemma_balanced_walk(instrs, c, ee + 1, j, m1);
            assert(n.subrange(o + e + 1, o + (j - i)) =~= c.subrange(ee + 1, j)) by {
                assert forall|t: int| 0 <= t < j - ee - 1 implies #[trigger] n.subrange(
                    o + e + 1,
                    o + (j - i),
                )[t] == c.subrange(ee + 1, j)[t] by {
                    assert(n[o + (e + 1 + t)] == c[i + (e + 1 + t)]);
                }
            }
            assert(isolated(n, o + e + 1, o + (j - i)) =~= isolated(c, ee + 1, j));
            lemma_balanced_walk(instrs, n, o + e + 1, o + (j - i), m1);
            let nr = isolated(c, ee + 1, j);
            match run_lines(instrs, nr, 1, m1) {
                Err(err) => {},
                Ok((m2, cnt)) => {
                    assert(run_lines(instrs, n, o + (j - i), m2) == Ok::<(Machine, nat), Fault>(
                        (m2, 1),
                    ));
                    match run_lines(instrs, c, j, m2) {
                        Ok((m3, c3)) => {},
                        Err(err) => {},
                    }
                },
            }
        },
    }
}

/// Running a balanced loop body closed at `e` `k` times is running its
/// isolated lines `k` times.
proof fn lemma_times_balanced(
    instrs: Map<Seq<char>, Instruction>,
    c: Seq<Seq<char>>,
    s: int,
    e: int,
    k: nat,
    m: Machine,
)
    requires
        0 < s <= e < c.len(),
        balanced(c.subrange(s, e)),
        is_loop_end(c[e]),
    ensures
        run_times(instrs, c, s, k, m) == run_times(instrs, isolated(c, s, e), 1, k, m),
        run_times(instrs, c, s, k, m) matches Ok((_, cnt)) ==> k >= 1 ==> cnt == e - s + 1,
    decreases e - s + 1, 0nat, k,
{
    if k > 0 {
        lemma_times_balanced(instrs, c, s, e, (k - 1) as nat, m);
        match run_times(instrs, c, s, (k - 1) as nat, m) {
            Err(err) => {},
            Ok((m1, _)) => {
                lemma_balanced_walk(instrs, c, s, e, m1);
                lemma_end_is_not_start(c[e]);
            },
        }
    }
}

/// A loop in a program evaluates like its body written out as many times as
/// its count says: where a program's commands are `pre`, `LOOP_START n`
/// (`n >= 1`), a loop-free `body`, `LOOP_END`, `suf`, with `pre` made of plain
/// commands and complete loops (`balanced`), and another's are `pre`, `n`
/// copies of `body`, `suf`, the two give the same value or the same fault.
/// The first command of `body` and of `suf` must not be a `WRITE_VAR`, as
/// those see another predecessor in the two programs.
pub proof fn lemma_unrolled_loop_program(
    text: Seq<char>,
    unrolled_text: Seq<char>,
    pre: Seq<Seq<char>>,
    start: Seq<char>,
    body: Seq<Seq<char>>,
    end: Seq<char>,
    suf: Seq<Seq<char>>,
)
    requires
        parse_block(text) == Ok::<Seq<Seq<char>>, Fault>(pre + seq![start] + body + seq![end] + suf),
        loop_count(start) matches Some(n) && n >= 1 && parse_block(unrolled_text) == Ok::<
            Seq<Seq<char>>,
            Fault,
        >(pre + repeated(body, n as nat) + suf),
        balanced(pre),
        is_loop_start(start),
        loop_free(body),
        is_loop_end(end),
        body.len() > 0 ==> !is_write_command(body[0]),
        suf.len() > 0 ==> !is_write_command(suf[0]),
    ensures
        loop_evaluation(text) == loop_evaluation(unrolled_text),
{
    let instrs = default_instructions();
    let n = loop_count(start)->Some_0 as nat;
    let c1 = pre + seq![start] + body + seq![end] + suf;
    let c2 = pre + repeated(body, n) + suf;
    let p = pre.len() as int;
    let m0 = initial_machine();
    if body.len() > 0 {
        assert(!writes_var(instrs, body[0]));
    }
    if suf.len() > 0 {
        assert(!writes_var(instrs, suf[0]));
    }
    assert(c1.subrange(0, p) =~= pre);
    assert(c2.subrange(0, p) =~= pre);
    assert(isolated(c1, 0, p) =~= isolated(c2, 0, p));
    lemma_balanced_walk(instrs, c1, 0, p, m0);
    lemma_balanced_walk(instrs, c2, 0, p, m0);
    assert(run_times(instrs, c1, 0, 0, m0) == Ok::<(Machine, nat), Fault>((m0, 0)));
    assert(run_times(instrs, c2, 0, 0, m0) == Ok::<(Machine, nat), Fault>((m0, 0)));
    match run_lines(instrs, isolated(c1, 0, p), 0, m0) {
        Err(err) => {},
        Ok((m1, _)) => {
            lemma_unrolled_loop_walk(instrs, pre, start, body, end, suf, m1);
            match run_lines(instrs, c1, p, m1) {
                Err(err) => {},
                Ok((m2, c)) => {},
            }
        },
    }
}

/// The count of a loop is the decimal numeral on its line: a line
/// `LOOP_START d` with `d` a numeral whose value fits in `usize` opens a loop
/// with that value as its count.
pub proof fn lemma_loop_count_is_numeral(cmd: Seq<char>, digits: Seq<char>)
    requires
        split(cmd, ' ') == seq!["LOOP_START"@, digits],
        digits.len() > 0,
        all_digits(digits),
        digits_value(digits) <= usize::MAX,
    ensures
        is_loop_start(cmd),
        loop_count(cmd) == Some(digits_value(digits) as usize),
{
    assert(is_digit(digits[0]));
    assert(('+' as u32) == 43);
    assert(digits[0] != '+');
    crate::text::lemma_digits_value_nonneg(digits);
}

/// A loop `LOOP_START d` (the numeral `d` denoting at least 1) around a
/// loop-free body runs the body as many times as `d` denotes, then goes on
/// after its `LOOP_END`.
pub proof fn lemma_loop_runs_numeral_times(
    instrs: Map<Seq<char>, Instruction>,
    cmds: Seq<Seq<char>>,
    idx: int,
    e: int,
    digits: Seq<char>,
    m: Machine,
)
    requires
        0 <= idx < e < cmds.len(),
        split(cmds[idx], ' ') == seq!["LOOP_START"@, digits],
        digits.len() > 0,
        all_digits(digits),
        1 <= digits_value(digits) <= usize::MAX,
        forall|t: int| idx < t < e ==> !is_loop_command(#[trigger] cmds[t]),
        is_loop_end(cmds[e]),
    ensures
        run_lines(instrs, cmds, idx, m) == (match repeat_span(
            instrs,
            cmds,
            idx + 1,
            e,
            digits_value(digits) as nat,
            m,
        ) {
            Err(err) => Err(err),
            Ok(m1) => shifted(run_lines(instrs, cmds, e + 1, m1), (e - idx + 1) as nat),
        }),
{
    lemma_loop_count_is_numeral(cmds[idx], digits);
    lemma_loop_repeats_body(instrs, cmds, idx, e, m);
}

} // verus!
