//! What running a program means: the state of the machine, what each
//! instruction does to it, and the steps of an execution.
//!
//! An execution is a sequence of steps over a stack of frames, one frame for
//! the program and one for each loop that is being run. One step runs one
//! instruction, or ends one pass over a loop body.

use crate::language::Instr;
use vstd::prelude::*;

verus! {

/// The number of cells that the tape starts with, and by which it grows.
pub const TAPE_CHUNK: usize = 1000;

/// The state that instructions work on.
pub struct Machine {
    /// The cells of the tape.
    pub tape: Seq<u8>,
    /// The index of the current cell.
    pub head: int,
    /// The scratch register.
    pub register: u8,
    /// The input bytes that were not read yet.
    pub input: Seq<u8>,
    /// The characters written so far.
    pub output: Seq<char>,
}

/// A code sequence that is being run, and the index of its next instruction.
pub struct Frame {
    pub code: Seq<Instr>,
    pub pc: int,
}

/// A machine in the middle of an execution. The first frame is the program,
/// each further frame the body of a loop that the frame below it has entered.
pub struct Config {
    pub machine: Machine,
    pub stack: Seq<Frame>,
}

impl Machine {
    /// The head is on the tape.
    pub open spec fn wf(self) -> bool {
        0 <= self.head < self.tape.len()
    }

    /// The value of the current cell.
    pub open spec fn cell(self) -> u8 {
        self.tape[self.head]
    }

    /// The machine with `value` in the current cell.
    pub open spec fn store(self, value: u8) -> Machine {
        Machine { tape: self.tape.update(self.head, value), ..self }
    }
}

/// The decimal digits of a byte, without leading zeros.
pub open spec fn decimal(value: u8) -> Seq<char> {
    if value < 10 {
        seq![(48 + value) as char]
    } else if value < 100 {
        seq![(48 + value / 10) as char, (48 + value % 10) as char]
    } else {
        seq![(48 + value / 100) as char, (48 + (value / 10) % 10) as char, (48 + value % 10) as char]
    }
}

/// A stretch of `n` cells that hold zero.
pub open spec fn blank(n: nat) -> Seq<u8> {
    Seq::new(n, |i: int| 0u8)
}

/// The machine after an instruction other than a loop.
pub open spec fn apply(instr: Instr, m: Machine) -> Machine {
    match instr {
        Instr::Increment => m.store(
            if m.cell() == 255 {
                0u8
            } else {
                (m.cell() + 1) as u8
            },
        ),
        Instr::Decrement => m.store(
            if m.cell() == 0 {
                255u8
            } else {
                (m.cell() - 1) as u8
            },
        ),
        Instr::MoveRight => if m.head + 1 >= m.tape.len() {
            Machine { tape: m.tape + blank(TAPE_CHUNK as nat), head: m.head + 1, ..m }
        } else {
            Machine { head: m.head + 1, ..m }
        },
        Instr::MoveLeft => if m.head == 0 {
            m
        } else {
            Machine { head: m.head - 1, ..m }
        },
        Instr::ReadByte => if m.input.len() > 0 {
            Machine { input: m.input.drop_first(), ..m.store(m.input[0]) }
        } else {
            m.store(0)
        },
        Instr::WriteChar => Machine { output: m.output.push(m.cell() as char), ..m },
        Instr::WriteInt => Machine { output: m.output + decimal(m.cell()), ..m },
        Instr::SetConstant(digit) => m.store((16 * digit) as u8),
        Instr::SaveRegister => Machine { register: m.cell(), ..m },
        Instr::LoadRegister => m.store(m.register),
        Instr::Loop(_) => m,
    }
}

/// The machine that a fresh interpreter gives a run on `input`: a blank tape
/// of [`TAPE_CHUNK`] cells with the head on the first, a register of zero and
/// no output.
pub open spec fn fresh(input: Seq<u8>) -> Machine {
    Machine { tape: blank(TAPE_CHUNK as nat), head: 0, register: 0, input, output: Seq::empty() }
}

/// The start of an execution of `code` on `machine`.
pub open spec fn start(code: Seq<Instr>, machine: Machine) -> Config {
    Config { machine, stack: seq![Frame { code, pc: 0 }] }
}

/// Whether the execution is over: only the program's frame is left, and it
/// is at its end.
pub open spec fn halted(c: Config) -> bool {
    c.stack.len() == 0 || (c.stack.len() == 1 && !(0 <= c.stack[0].pc < c.stack[0].code.len()))
}

/// One step of an execution. A step on a frame that has instructions left
/// runs the next one: a loop is entered if the current cell is not zero and
/// passed over if it is; any other instruction changes the machine. A step on
/// a loop body at its end starts the body again if the current cell is not
/// zero and leaves the loop if it is. An execution that is over stays as it
/// is.
pub open spec fn step(c: Config) -> Config {
    if halted(c) {
        c
    } else {
        let top = c.stack.last();
        let below = c.stack.drop_last();
        if 0 <= top.pc < top.code.len() {
            let next = Frame { code: top.code, pc: top.pc + 1 };
            match top.code[top.pc] {
                Instr::Loop(body) => if c.machine.cell() != 0 {
                    Config {
                        machine: c.machine,
                        stack: below.push(next).push(Frame { code: body, pc: 0 }),
                    }
                } else {
                    Config { machine: c.machine, stack: below.push(next) }
                },
                instr => Config { machine: apply(instr, c.machine), stack: below.push(next) },
            }
        } else if c.machine.cell() != 0 {
            Config { machine: c.machine, stack: below.push(Frame { code: top.code, pc: 0 }) }
        } else {
            Config { machine: c.machine, stack: below }
        }
    }
}

/// The execution after `n` steps.
pub open spec fn run_steps(c: Config, n: nat) -> Config
    decreases n,
{
    if n == 0 {
        c
    } else {
        run_steps(step(c), (n - 1) as nat)
    }
}

/// Every instruction leaves the head on the tape.
pub proof fn lemma_apply_wf(instr: Instr, m: Machine)
    requires
        m.wf(),
    ensures
        apply(instr, m).wf(),
{
}

/// Every step leaves the head on the tape.
pub proof fn lemma_step_wf(c: Config)
    requires
        c.machine.wf(),
    ensures
        step(c).machine.wf(),
{
    if !halted(c) {
        let top = c.stack.last();
        if 0 <= top.pc < top.code.len() {
            lemma_apply_wf(top.code[top.pc], c.machine);
        }
    }
}

/// Steps add up: `n` steps and then one more are `n + 1` steps.
pub proof fn lemma_run_steps_next(c: Config, n: nat)
    ensures
        run_steps(c, n + 1) == step(run_steps(c, n)),
    decreases n,
{
    assert(run_steps(c, n + 1) == run_steps(step(c), n));
    if n > 0 {
        lemma_run_steps_next(step(c), (n - 1) as nat);
        assert(run_steps(c, n) == run_steps(step(c), (n - 1) as nat));
    } else {
        assert(run_steps(step(c), 0) == step(c));
    }
}

/// An execution that is over stays as it is, however many steps follow.
pub proof fn lemma_halted_stays(c: Config, n: nat)
    requires
        halted(c),
    ensures
        run_steps(c, n) == c,
    decreases n,
{
    if n > 0 {
        lemma_halted_stays(c, (n - 1) as nat);
    }
}

/// An execution that is over after `n` steps is the same after any larger
/// number of steps.
pub proof fn lemma_halted_is_final(c: Config, n: nat, more: nat)
    requires
        halted(run_steps(c, n)),
        n <= more,
    ensures
        run_steps(c, more) == run_steps(c, n),
    decreases more - n,
{
    if n < more {
        lemma_halted_is_final(c, n, (more - 1) as nat);
        lemma_run_steps_next(c, (more - 1) as nat);
    }
}

/// Whether every frame of an execution has its next instruction within its
/// code or at its end, and the program's frame is there.
pub open spec fn proper(c: Config) -> bool {
    &&& c.stack.len() >= 1
    &&& forall|i: int| 0 <= i < c.stack.len() ==> 0 <= (#[trigger] c.stack[i]).pc <= c.stack[i].code.len()
}

/// Whether running `code` from the machine `from` is over after `n` steps
/// and leaves the machine `to`.
pub open spec fn runs_to(code: Seq<Instr>, from: Machine, n: nat, to: Machine) -> bool {
    halted(run_steps(start(code, from), n)) && run_steps(start(code, from), n).machine == to
}

/// An execution as it looks within a larger one: its program stands between
/// `prefix` and `suffix` in a longer code, and the frames `below` lie under
/// its own.
pub open spec fn embed(c: Config, below: Seq<Frame>, prefix: Seq<Instr>, suffix: Seq<Instr>) -> Config {
    Config {
        machine: c.machine,
        stack: below + c.stack.update(
            0,
            Frame { code: prefix + c.stack[0].code + suffix, pc: c.stack[0].pc + prefix.len() },
        ),
    }
}

/// The number of steps after which an execution is over for the first time,
/// where that is within `n` steps.
pub open spec fn first_halt(c: Config, n: nat) -> nat
    decreases n,
{
    if n == 0 || halted(c) {
        0
    } else {
        1 + first_halt(step(c), (n - 1) as nat)
    }
}

/// A step keeps every frame's next instruction within its code or at its
/// end.
pub proof fn lemma_step_proper(c: Config)
    requires
        proper(c),
    ensures
        proper(step(c)),
{
    if !halted(c) {
        let top = c.stack.last();
        let below = c.stack.drop_last();
        let after = step(c);
        assert forall|i: int| 0 <= i < after.stack.len() implies 0 <= (#[trigger] after.stack[i]).pc
            <= after.stack[i].code.len() by {
            if i < below.len() {
                assert(after.stack[i] == c.stack[i]);
            }
        }
    }
}

/// Steps keep every frame's next instruction within its code or at its end.
pub proof fn lemma_run_proper(c: Config, n: nat)
    requires
        proper(c),
    ensures
        proper(run_steps(c, n)),
    decreases n,
{
    if n > 0 {
        lemma_step_proper(c);
        lemma_run_proper(step(c), (n - 1) as nat);
    }
}

/// An execution that is over after `n` steps was over for the first time
/// after `first_halt` steps, and has not changed since.
pub proof fn lemma_first_halt(c: Config, n: nat)
    requires
        halted(run_steps(c, n)),
    ensures
        first_halt(c, n) <= n,
        halted(run_steps(c, first_halt(c, n))),
        run_steps(c, first_halt(c, n)) == run_steps(c, n),
        first_halt(c, n) > 0 ==> !halted(run_steps(c, (first_halt(c, n) - 1) as nat)),
    decreases n,
{
    if n == 0 {
    } else if halted(c) {
        lemma_halted_stays(c, n);
    } else {
        lemma_first_halt(step(c), (n - 1) as nat);
        let k = first_halt(step(c), (n - 1) as nat);
        assert(run_steps(c, k + 1) == run_steps(step(c), k));
        if k > 0 {
            assert(run_steps(c, k) == run_steps(step(c), (k - 1) as nat));
        } else {
            assert(run_steps(c, 0) == c);
        }
    }
}

/// An execution that is not over after `n` steps was not over before.
pub proof fn lemma_not_halted_before(c: Config, k: nat, n: nat)
    requires
        k <= n,
        !halted(run_steps(c, n)),
    ensures
        !halted(run_steps(c, k)),
{
    if halted(run_steps(c, k)) {
        lemma_halted_is_final(c, k, n);
    }
}

/// A step within a larger execution is the step of the execution by itself,
/// as long as that is not over. An execution that is over is so within the
/// larger one too where nothing lies below it and no code follows it.
pub proof fn lemma_step_embed(c: Config, below: Seq<Frame>, prefix: Seq<Instr>, suffix: Seq<Instr>)
    requires
        proper(c),
        !halted(c) || (below.len() == 0 && suffix.len() == 0),
    ensures
        step(embed(c, below, prefix, suffix)) == embed(step(c), below, prefix, suffix),
{
    let inside = embed(c, below, prefix, suffix);
    let bottom = Frame { code: prefix + c.stack[0].code + suffix, pc: c.stack[0].pc + prefix.len() };
    let lifted = c.stack.update(0, bottom);
    assert(inside.stack == below + lifted);
    assert(inside.stack.len() == below.len() + c.stack.len());
    if halted(c) {
        assert(c.stack[0].pc == c.stack[0].code.len());
        assert(inside.stack[0] == bottom);
        assert(halted(inside));
    } else {
        let top = c.stack.last();
        let rest = c.stack.drop_last();
        let in_top = inside.stack.last();
        let in_rest = inside.stack.drop_last();
        let after = step(c);
        let wanted = embed(after, below, prefix, suffix);
        if c.stack.len() == 1 {
            assert(top == c.stack[0]);
            assert(in_top == bottom);
            assert(in_rest =~= below);
            assert(0 <= top.pc < top.code.len());
            assert(bottom.code[bottom.pc] == top.code[top.pc]);
            assert(!halted(inside));
            assert(after.stack[0] == Frame { code: top.code, pc: top.pc + 1 });
            assert(step(inside).stack =~= wanted.stack);
        } else {
            assert(in_top == top);
            assert(in_rest =~= below + rest.update(0, bottom));
            assert(!halted(inside));
            assert(after.stack[0] == c.stack[0]);
            assert(step(inside).stack =~= wanted.stack);
        }
    }
}

/// Steps within a larger execution are the steps of the execution by itself,
/// up to the step after which that is over.
pub proof fn lemma_run_embed(
    c: Config,
    below: Seq<Frame>,
    prefix: Seq<Instr>,
    suffix: Seq<Instr>,
    n: nat,
)
    requires
        proper(c),
        n > 0 ==> !halted(run_steps(c, (n - 1) as nat)),
    ensures
        run_steps(embed(c, below, prefix, suffix), n) == embed(
            run_steps(c, n),
            below,
            prefix,
            suffix,
        ),
    decreases n,
{
    if n > 0 {
        let before = (n - 1) as nat;
        if before > 0 {
            lemma_not_halted_before(c, (before - 1) as nat, before);
        }
        lemma_run_embed(c, below, prefix, suffix, before);
        lemma_run_proper(c, before);
        lemma_step_embed(run_steps(c, before), below, prefix, suffix);
        lemma_run_steps_next(c, before);
        lemma_run_steps_next(embed(c, below, prefix, suffix), before);
    }
}

/// Steps of an execution that has only code before it are its steps by
/// itself, however many.
pub proof fn lemma_run_after_prefix(c: Config, prefix: Seq<Instr>, n: nat)
    requires
        proper(c),
    ensures
        run_steps(embed(c, Seq::empty(), prefix, Seq::empty()), n) == embed(
            run_steps(c, n),
            Seq::empty(),
            prefix,
            Seq::empty(),
        ),
    decreases n,
{
    if n > 0 {
        let before = (n - 1) as nat;
        lemma_run_after_prefix(c, prefix, before);
        lemma_run_proper(c, before);
        lemma_step_embed(run_steps(c, before), Seq::empty(), prefix, Seq::empty());
        lemma_run_steps_next(c, before);
        lemma_run_steps_next(embed(c, Seq::empty(), prefix, Seq::empty()), before);
    }
}

/// Steps add up: `a` steps and then `b` more are `a + b` steps.
pub proof fn lemma_run_steps_add(c: Config, a: nat, b: nat)
    ensures
        run_steps(c, a + b) == run_steps(run_steps(c, a), b),
    decreases a,
{
    if a > 0 {
        lemma_run_steps_add(step(c), (a - 1) as nat, b);
        assert(run_steps(c, a + b) == run_steps(step(c), (a - 1 + b) as nat));
        assert(run_steps(c, a) == run_steps(step(c), (a - 1) as nat));
    } else {
        assert(run_steps(c, 0) == c);
    }
}

/// An instruction other than a loop takes one step and changes the machine
/// as [`apply`] says.
pub proof fn lemma_instruction_runs(instr: Instr, m: Machine)
    requires
        !(instr is Loop),
    ensures
        runs_to(seq![instr], m, 1, apply(instr, m)),
{
    let c = start(seq![instr], m);
    assert(c.stack.last() == c.stack[0]);
    assert(c.stack.drop_last() =~= Seq::<Frame>::empty());
    assert(run_steps(c, 1) == run_steps(step(c), 0));
    assert(step(c).stack =~= seq![Frame { code: seq![instr], pc: 1 }]);
}

/// A loop on a current cell of zero is passed over in one step.
pub proof fn lemma_loop_is_skipped(body: Seq<Instr>, m: Machine)
    requires
        m.cell() == 0,
    ensures
        runs_to(seq![Instr::Loop(body)], m, 1, m),
{
    let code = seq![Instr::Loop(body)];
    let c = start(code, m);
    assert(c.stack.last() == c.stack[0]);
    assert(c.stack.drop_last() =~= Seq::<Frame>::empty());
    assert(run_steps(c, 1) == run_steps(step(c), 0));
    assert(step(c).stack =~= seq![Frame { code, pc: 1 }]);
}

/// Code runs in order. Where `first` runs from `from` to `mid` and `second`
/// from `mid` to `to`, the two in a row run from `from` to `to`, in the steps
/// of both.
pub proof fn lemma_sequence_runs(
    first: Seq<Instr>,
    second: Seq<Instr>,
    from: Machine,
    mid: Machine,
    to: Machine,
    n1: nat,
    n2: nat,
)
    requires
        runs_to(first, from, n1, mid),
        runs_to(second, mid, n2, to),
    ensures
        runs_to(first + second, from, n1 + n2, to),
{
    let whole = first + second;
    let none = Seq::<Instr>::empty();
    let bare = Seq::<Frame>::empty();
    let a = start(first, from);
    lemma_first_halt(a, n1);
    let k = first_halt(a, n1);
    let a_end = run_steps(a, k);
    lemma_run_proper(a, k);
    assert(embed(a, bare, none, second).stack =~= start(whole, from).stack) by {
        assert(none + first + second =~= whole);
    }
    lemma_run_embed(a, bare, none, second, k);
    // the first part is over: the second starts where it ended
    let b = start(second, mid);
    assert(a_end.stack.len() == 1 && a_end.stack[0].pc == a_end.stack[0].code.len());
    lemma_step_frames(a, k);
    assert(a_end.stack[0].code == first);
    assert(embed(a_end, bare, none, second).stack =~= embed(b, bare, first, none).stack) by {
        assert(none + first + second =~= first + second + none);
    }
    lemma_run_after_prefix(b, first, n2);
    lemma_run_steps_add(start(whole, from), k, n2);
    let b_end = run_steps(b, n2);
    lemma_run_proper(b, n2);
    assert(halted(embed(b_end, bare, first, none))) by {
        assert(b_end.stack.len() == 1 && b_end.stack[0].pc == b_end.stack[0].code.len());
        assert(embed(b_end, bare, first, none).stack.len() == 1);
    }
    lemma_halted_is_final(start(whole, from), k + n2, n1 + n2);
}

/// The program's frame keeps its code through all steps.
pub proof fn lemma_step_frames(c: Config, n: nat)
    requires
        proper(c),
    ensures
        run_steps(c, n).stack.len() >= 1,
        run_steps(c, n).stack[0].code == c.stack[0].code,
    decreases n,
{
    if n > 0 {
        lemma_step_proper(c);
        lemma_step_frames(step(c), (n - 1) as nat);
        if !halted(c) {
            if c.stack.len() > 1 {
                assert(step(c).stack[0] == c.stack[0]);
            }
        }
    }
}

/// A loop on a current cell that is not zero runs its body once and then
/// runs as the loop does from where the body ended: it runs its body again
/// and again while the current cell is not zero. Entering the body and
/// ending the pass take a step each.
pub proof fn lemma_loop_runs_round(
    body: Seq<Instr>,
    from: Machine,
    mid: Machine,
    to: Machine,
    n1: nat,
    n2: nat,
)
    requires
        from.cell() != 0,
        runs_to(body, from, n1, mid),
        runs_to(seq![Instr::Loop(body)], mid, n2, to),
    ensures
        runs_to(seq![Instr::Loop(body)], from, n1 + n2 + 1, to),
{
    let code = seq![Instr::Loop(body)];
    let none = Seq::<Instr>::empty();
    let c = start(code, from);
    let outer = Frame { code, pc: 1 };
    // one step enters the body
    let entered = Config { machine: from, stack: seq![outer, Frame { code: body, pc: 0 }] };
    assert(step(c).stack =~= entered.stack) by {
        assert(c.stack.last() == c.stack[0]);
        assert(c.stack.drop_last() =~= Seq::<Frame>::empty());
    }
    // the body runs on top of the loop's frame as it runs by itself
    let inner = start(body, from);
    lemma_first_halt(inner, n1);
    let k = first_halt(inner, n1);
    let inner_end = run_steps(inner, k);
    lemma_run_proper(inner, k);
    lemma_step_frames(inner, k);
    assert(embed(inner, seq![outer], none, none).stack =~= entered.stack) by {
        assert(none + body + none =~= body);
    }
    lemma_run_embed(inner, seq![outer], none, none, k);
    let body_done = embed(inner_end, seq![outer], none, none);
    assert(run_steps(entered, k) == body_done);
    assert(body_done.stack =~= seq![outer, Frame { code: body, pc: body.len() as int }]) by {
        assert(none + body + none =~= body);
    }
    // one step ends the pass
    let d = start(code, mid);
    assert(d.stack.last() == d.stack[0]);
    assert(d.stack.drop_last() =~= Seq::<Frame>::empty());
    assert(body_done.stack.last() == Frame { code: body, pc: body.len() as int });
    assert(body_done.stack.drop_last() =~= seq![outer]);
    assert(n2 > 0);
    assert(run_steps(d, n2) == run_steps(step(d), (n2 - 1) as nat));
    assert(step(body_done) == step(d)) by {
        if mid.cell() != 0 {
            assert(step(body_done).stack =~= seq![outer, Frame { code: body, pc: 0 }]);
            assert(step(d).stack =~= seq![outer, Frame { code: body, pc: 0 }]);
        } else {
            assert(step(body_done).stack =~= seq![outer]);
            assert(step(d).stack =~= seq![outer]);
        }
    }
    // from there on the loop runs as it does from where the body ended
    lemma_run_steps_add(c, 1, k);
    assert(run_steps(c, 1) == run_steps(step(c), 0));
    lemma_run_steps_add(c, 1 + k, 1);
    assert(run_steps(body_done, 1) == run_steps(step(body_done), 0));
    lemma_run_steps_add(c, 1 + k + 1, (n2 - 1) as nat);
    lemma_halted_is_final(c, (1 + k + 1 + (n2 - 1)) as nat, n1 + n2 + 1);
}

} // verus!
