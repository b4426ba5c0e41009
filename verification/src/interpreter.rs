//! The execution engine: tokens, the input tape, and the interpreter that
//! runs a token sequence on its tape.

use crate::chance::random_byte;
use crate::clock::{clock_now, clock_span, out_of_time, span_nanos};
use crate::language::{symbol_instr, Instr};
use crate::machine::{
    apply, blank, decimal, halted, lemma_halted_is_final, lemma_run_steps_next, run_steps, start,
    step, Config, Frame, Machine, TAPE_CHUNK,
};
use crate::text::{bytes_of, push_decimal, text_bytes};
use time::SteadyTime;
use vstd::prelude::*;

verus! {

/// One instruction of a tokenized program.
#[allow(non_camel_case_types)]
#[derive(Debug)]
pub enum Token {
    /// `+`
    INC,
    /// `-`
    DEC,
    /// `>`
    RIGHT,
    /// `<`
    LEFT,
    /// `[..]`, with the tokens of the body
    LOOP(Vec<Token>),
    /// `,`
    GET,
    /// `.`
    PUT_CHAR,
    /// `0`: stores 0
    CONST0,
    /// `1`: stores 16
    CONST1,
    /// `2`: stores 32
    CONST2,
    /// `3`: stores 48
    CONST3,
    /// `4`: stores 64
    CONST4,
    /// `5`: stores 80
    CONST5,
    /// `6`: stores 96
    CONST6,
    /// `7`: stores 112
    CONST7,
    /// `8`: stores 128
    CONST8,
    /// `9`: stores 144
    CONST9,
    /// `A`: stores 160
    CONSTA,
    /// `B`: stores 176
    CONSTB,
    /// `C`: stores 192
    CONSTC,
    /// `D`: stores 208
    CONSTD,
    /// `E`: stores 224
    CONSTE,
    /// `F`: stores 240
    CONSTF,
    /// `!`
    PUT_INT,
    /// `@`
    SAVE,
    /// `*`
    LOAD,
}

/// The instruction that a token is.
pub open spec fn token_instr(token: Token) -> Instr
    decreases token,
{
    match token {
        Token::INC => Instr::Increment,
        Token::DEC => Instr::Decrement,
        Token::RIGHT => Instr::MoveRight,
        Token::LEFT => Instr::MoveLeft,
        Token::LOOP(body) => Instr::Loop(
            Seq::new(
                body@.len(),
                |i: int|
                    if 0 <= i < body@.len() {
                        token_instr(body@[i])
                    } else {
                        Instr::Increment
                    },
            ),
        ),
        Token::GET => Instr::ReadByte,
        Token::PUT_CHAR => Instr::WriteChar,
        Token::CONST0 => Instr::SetConstant(0),
        Token::CONST1 => Instr::SetConstant(1),
        Token::CONST2 => Instr::SetConstant(2),
        Token::CONST3 => Instr::SetConstant(3),
        Token::CONST4 => Instr::SetConstant(4),
        Token::CONST5 => Instr::SetConstant(5),
        Token::CONST6 => Instr::SetConstant(6),
        Token::CONST7 => Instr::SetConstant(7),
        Token::CONST8 => Instr::SetConstant(8),
        Token::CONST9 => Instr::SetConstant(9),
        Token::CONSTA => Instr::SetConstant(10),
        Token::CONSTB => Instr::SetConstant(11),
        Token::CONSTC => Instr::SetConstant(12),
        Token::CONSTD => Instr::SetConstant(13),
        Token::CONSTE => Instr::SetConstant(14),
        Token::CONSTF => Instr::SetConstant(15),
        Token::PUT_INT => Instr::WriteInt,
        Token::SAVE => Instr::SaveRegister,
        Token::LOAD => Instr::LoadRegister,
    }
}

/// The instruction sequence that a token sequence is.
pub open spec fn code_of(tokens: Seq<Token>) -> Seq<Instr> {
    Seq::new(tokens.len(), |i: int| token_instr(tokens[i]))
}

impl View for Token {
    type V = Instr;

    open spec fn view(&self) -> Instr {
        token_instr(*self)
    }
}

/// A loop token is the loop around the instructions of its body.
pub proof fn lemma_loop_token(body: Vec<Token>)
    ensures
        token_instr(Token::LOOP(body)) == Instr::Loop(code_of(body@)),
{
    match token_instr(Token::LOOP(body)) {
        Instr::Loop(inner) => {
            assert(inner =~= code_of(body@));
        },
        _ => {},
    }
}

/// A copy of a token that is not a loop.
fn copy_plain(token: &Token) -> (copy: Token)
    requires
        !(token is LOOP),
    ensures
        copy@ == token@,
{
    match token {
        Token::INC => Token::INC,
        Token::DEC => Token::DEC,
        Token::RIGHT => Token::RIGHT,
        Token::LEFT => Token::LEFT,
        Token::LOOP(_) => Token::INC,
        Token::GET => Token::GET,
        Token::PUT_CHAR => Token::PUT_CHAR,
        Token::CONST0 => Token::CONST0,
        Token::CONST1 => Token::CONST1,
        Token::CONST2 => Token::CONST2,
        Token::CONST3 => Token::CONST3,
        Token::CONST4 => Token::CONST4,
        Token::CONST5 => Token::CONST5,
        Token::CONST6 => Token::CONST6,
        Token::CONST7 => Token::CONST7,
        Token::CONST8 => Token::CONST8,
        Token::CONST9 => Token::CONST9,
        Token::CONSTA => Token::CONSTA,
        Token::CONSTB => Token::CONSTB,
        Token::CONSTC => Token::CONSTC,
        Token::CONSTD => Token::CONSTD,
        Token::CONSTE => Token::CONSTE,
        Token::CONSTF => Token::CONSTF,
        Token::PUT_INT => Token::PUT_INT,
        Token::SAVE => Token::SAVE,
        Token::LOAD => Token::LOAD,
    }
}

/// A copy of a token sequence.
pub fn copy_tokens(tokens: &Vec<Token>) -> (copy: Vec<Token>)
    ensures
        code_of(copy@) == code_of(tokens@),
    decreases tokens,
{
    let mut copy: Vec<Token> = Vec::new();
    let mut i: usize = 0;
    while i < tokens.len()
        invariant
            i <= tokens.len(),
            copy.len() == i,
            forall|j: int| 0 <= j < i ==> (#[trigger] copy[j])@ == tokens[j]@,
        decreases tokens.len() - i,
    {
        match &tokens[i] {
            Token::LOOP(body) => {
                let inner = copy_tokens(body);
                proof {
                    lemma_loop_token(*body);
                    lemma_loop_token(inner);
                }
                copy.push(Token::LOOP(inner));
            },
            plain => {
                copy.push(copy_plain(plain));
            },
        }
        i += 1;
    }
    assert(code_of(copy@) =~= code_of(tokens@));
    copy
}

impl Clone for Token {
    fn clone(&self) -> (copy: Token)
        ensures
            copy@ == self@,
    {
        match self {
            Token::LOOP(body) => {
                let inner = copy_tokens(body);
                proof {
                    lemma_loop_token(*body);
                    lemma_loop_token(inner);
                }
                Token::LOOP(inner)
            },
            plain => copy_plain(plain),
        }
    }
}

/// The token that a symbol other than a bracket stands for.
pub fn token_of_symbol(c: char) -> (token: Option<Token>)
    ensures
        match token {
            Some(t) => symbol_instr(c) == Some(t@) && !(t is LOOP),
            None => symbol_instr(c) is None,
        },
{
    match c {
        '+' => Some(Token::INC),
        '-' => Some(Token::DEC),
        '>' => Some(Token::RIGHT),
        '<' => Some(Token::LEFT),
        ',' => Some(Token::GET),
        '.' => Some(Token::PUT_CHAR),
        '!' => Some(Token::PUT_INT),
        '@' => Some(Token::SAVE),
        '*' => Some(Token::LOAD),
        '0' => Some(Token::CONST0),
        '1' => Some(Token::CONST1),
        '2' => Some(Token::CONST2),
        '3' => Some(Token::CONST3),
        '4' => Some(Token::CONST4),
        '5' => Some(Token::CONST5),
        '6' => Some(Token::CONST6),
        '7' => Some(Token::CONST7),
        '8' => Some(Token::CONST8),
        '9' => Some(Token::CONST9),
        'A' => Some(Token::CONSTA),
        'B' => Some(Token::CONSTB),
        'C' => Some(Token::CONSTC),
        'D' => Some(Token::CONSTD),
        'E' => Some(Token::CONSTE),
        'F' => Some(Token::CONSTF),
        _ => None,
    }
}

/// The bytes that a program can read, front first. Reading past the end gives
/// zero.
pub struct InputTape {
    stream: Vec<u8>,
}

impl View for InputTape {
    type V = Seq<u8>;

    closed spec fn view(&self) -> Seq<u8> {
        self.stream@
    }
}

impl Clone for InputTape {
    fn clone(&self) -> (copy: InputTape)
        ensures
            copy@ == self@,
    {
        InputTape { stream: self.stream.clone() }
    }
}

/// The bytes of the decimal numbers of `values`, one number after the other
/// with nothing between them.
pub open spec fn decimal_stream(values: Seq<u8>) -> Seq<u8>
    decreases values.len(),
{
    if values.len() == 0 {
        Seq::empty()
    } else {
        decimal_stream(values.drop_last()) + text_bytes(decimal(values.last()))
    }
}

impl InputTape {
    /// A tape without input.
    pub fn new() -> (tape: InputTape)
        ensures
            tape@ == Seq::<u8>::empty(),
    {
        InputTape { stream: Vec::new() }
    }

    /// A tape that holds the characters of `s`, each read as a byte.
    pub fn from_string(s: &str) -> (tape: InputTape)
        ensures
            tape@ == text_bytes(s@),
    {
        InputTape { stream: bytes_of(s) }
    }

    /// A tape that holds the decimal digits of each of `values` in turn.
    pub fn from_numbers(values: &Vec<u8>) -> (tape: InputTape)
        ensures
            tape@ == decimal_stream(values@),
    {
        let mut stream: Vec<u8> = Vec::new();
        let mut i: usize = 0;
        while i < values.len()
            invariant
                i <= values.len(),
                stream@ == decimal_stream(values@.take(i as int)),
            decreases values.len() - i,
        {
            let value: u8 = values[i];
            let ghost before = stream@;
            if value >= 100 {
                stream.push(48 + value / 100);
            }
            if value >= 10 {
                stream.push(48 + (value / 10) % 10);
            }
            stream.push(48 + value % 10);
            proof {
                let digits = decimal(value);
                assert(stream@ =~= before + text_bytes(digits));
                assert(values@.take(i + 1).drop_last() =~= values@.take(i as int));
                assert(values@.take(i + 1).last() == value);
            }
            i += 1;
        }
        assert(values@.take(values.len() as int) =~= values@);
        InputTape { stream }
    }

    /// A tape that holds the decimal digits of `len` random bytes.
    pub fn random(len: usize) -> (tape: InputTape)
        ensures
            exists|values: Seq<u8>| values.len() == len && tape@ == #[trigger] decimal_stream(values),
    {
        let mut values: Vec<u8> = Vec::new();
        let mut i: usize = 0;
        while i < len
            invariant
                i <= len,
                values.len() == i,
            decreases len - i,
        {
            values.push(random_byte());
            i += 1;
        }
        InputTape::from_numbers(&values)
    }

    /// The bytes that are left on the tape, front first.
    pub fn bytes(&self) -> (left: Vec<u8>)
        ensures
            left@ == self@,
    {
        let left = self.stream.clone();
        assert(left@ =~= self.stream@);
        left
    }

    /// Takes the first byte off the tape, or gives zero where none is left.
    pub fn read(&mut self) -> (byte: u8)
        ensures
            old(self)@.len() > 0 ==> byte == old(self)@[0] && final(self)@ == old(self)@.drop_first(),
            old(self)@.len() == 0 ==> byte == 0 && final(self)@ == old(self)@,
    {
        if self.stream.len() > 0 {
            let byte: u8 = self.stream.remove(0);
            assert(self.stream@ =~= old(self).stream@.drop_first());
            byte
        } else {
            0
        }
    }
}

/// Why a run ended before the program did.
#[derive(Debug, Clone, Copy, PartialEq, Eq, Structural)]
pub enum ExecError {
    /// The run took longer than the time budget.
    Timeout,
    /// The run used up its steps.
    OutOfSteps,
}

impl ExecError {
    /// What went wrong, in words.
    pub fn message(&self) -> (words: &'static str)
        ensures
            *self == ExecError::Timeout ==> words@ == "Computation took too long"@,
            *self == ExecError::OutOfSteps ==> words@ == "Computation took too many steps"@,
    {
        match self {
            ExecError::Timeout => "Computation took too long",
            ExecError::OutOfSteps => "Computation took too many steps",
        }
    }
}

/// An interpreter: a tape with its head, a register, the output written so
/// far, and the settings of a run.
pub struct Interpreter {
    /// The characters written so far.
    pub out_stream: String,
    /// An input tape for the caller's use; a run reads the tape it is given.
    pub in_stream: InputTape,
    mem: u8,
    table: Vec<u8>,
    dp: usize,
    print_output: bool,
    time_limit: bool,
    step_limit: u64,
}

impl Clone for Interpreter {
    fn clone(&self) -> (copy: Interpreter)
        ensures
            copy.same_settings(self),
            copy.same_state(self),
    {
        let copy = Interpreter {
            out_stream: self.out_stream.clone(),
            in_stream: self.in_stream.clone(),
            mem: self.mem,
            table: self.table.clone(),
            dp: self.dp,
            print_output: self.print_output,
            time_limit: self.time_limit,
            step_limit: self.step_limit,
        };
        assert(copy.table@ =~= self.table@);
        copy
    }
}

/// A token sequence that is being run, and the index of its next token.
struct RunFrame<'a> {
    code: &'a Vec<Token>,
    pc: usize,
}

/// The frames of an execution that a stack of run frames stands for.
spec fn frames_of(stack: Seq<RunFrame>) -> Seq<Frame> {
    Seq::new(stack.len(), |i: int| Frame { code: code_of(stack[i].code@), pc: stack[i].pc as int })
}

impl Interpreter {
    /// The cells of the tape.
    pub closed spec fn tape(&self) -> Seq<u8> {
        self.table@
    }

    /// The index of the current cell.
    pub closed spec fn head(&self) -> int {
        self.dp as int
    }

    /// The value of the register.
    pub closed spec fn register(&self) -> u8 {
        self.mem
    }

    /// The characters written so far, those of `out_stream`.
    pub closed spec fn output(&self) -> Seq<char> {
        self.out_stream@
    }

    /// The bytes of `in_stream`.
    pub closed spec fn spare_input(&self) -> Seq<u8> {
        self.in_stream@
    }

    /// Whether the output of a run is meant to be shown as well.
    pub closed spec fn prints(&self) -> bool {
        self.print_output
    }

    /// Whether a run is bounded by the time budget.
    pub closed spec fn timed(&self) -> bool {
        self.time_limit
    }

    /// The number of steps that a run may take.
    pub closed spec fn max_steps(&self) -> nat {
        self.step_limit as nat
    }

    /// The head is on the tape.
    pub open spec fn wf(&self) -> bool {
        0 <= self.head() < self.tape().len()
    }

    /// The state that a run on `input` starts from.
    pub open spec fn machine(&self, input: Seq<u8>) -> Machine {
        Machine {
            tape: self.tape(),
            head: self.head(),
            register: self.register(),
            input,
            output: self.output(),
        }
    }

    /// Whether two interpreters have the same tape, head, register and
    /// output.
    pub open spec fn same_state(&self, other: &Interpreter) -> bool {
        &&& self.tape() == other.tape()
        &&& self.head() == other.head()
        &&& self.register() == other.register()
        &&& self.output() == other.output()
    }

    /// Whether two interpreters have the same settings.
    pub open spec fn same_settings(&self, other: &Interpreter) -> bool {
        &&& self.prints() == other.prints()
        &&& self.timed() == other.timed()
        &&& self.max_steps() == other.max_steps()
        &&& self.spare_input() == other.spare_input()
    }

    /// An interpreter with a blank tape of [`TAPE_CHUNK`] cells, the head on
    /// the first, no output, no time limit and as many steps as can be
    /// counted.
    pub fn new() -> (fresh: Interpreter)
        ensures
            fresh.wf(),
            fresh.tape() == blank(TAPE_CHUNK as nat),
            fresh.head() == 0,
            fresh.register() == 0,
            fresh.output() == Seq::<char>::empty(),
            fresh.prints(),
            !fresh.timed(),
            fresh.max_steps() == u64::MAX,
            fresh.spare_input() == Seq::<u8>::empty(),
    {
        let mut table: Vec<u8> = Vec::new();
        let mut i: usize = 0;
        while i < TAPE_CHUNK
            invariant
                i <= TAPE_CHUNK,
                table@ == blank(i as nat),
            decreases TAPE_CHUNK - i,
        {
            table.push(0);
            assert(table@ =~= blank((i + 1) as nat));
            i += 1;
        }
        Interpreter {
            out_stream: String::new(),
            in_stream: InputTape::new(),
            mem: 0,
            table,
            dp: 0,
            print_output: true,
            time_limit: false,
            step_limit: u64::MAX,
        }
    }

    /// A copy that is set to show its output, or not to. An interpreter
    /// itself shows nothing: the setting is for the caller of a run, who
    /// finds what was written in `out_stream`.
    pub fn print(&self, p: bool) -> (copy: Interpreter)
        ensures
            copy.prints() == p,
            copy.timed() == self.timed(),
            copy.max_steps() == self.max_steps(),
            copy.spare_input() == self.spare_input(),
            copy.same_state(self),
    {
        let mut copy = self.clone();
        copy.print_output = p;
        copy
    }

    /// A copy with the time limit on or off.
    pub fn limit(&self, p: bool) -> (copy: Interpreter)
        ensures
            copy.prints() == self.prints(),
            copy.timed() == p,
            copy.max_steps() == self.max_steps(),
            copy.spare_input() == self.spare_input(),
            copy.same_state(self),
    {
        let mut copy = self.clone();
        copy.time_limit = p;
        copy
    }

    /// A copy whose runs take at most `steps` steps.
    pub fn budget(&self, steps: u64) -> (copy: Interpreter)
        ensures
            copy.prints() == self.prints(),
            copy.timed() == self.timed(),
            copy.max_steps() == steps,
            copy.spare_input() == self.spare_input(),
            copy.same_state(self),
    {
        let mut copy = self.clone();
        copy.step_limit = steps;
        copy
    }

    /// Clears the output, the register and every cell of the tape, and puts
    /// the head on the first cell. The tape keeps its length.
    pub fn reset(&mut self)
        requires
            old(self).wf(),
        ensures
            final(self).wf(),
            final(self).same_settings(old(self)),
            final(self).tape() == blank(old(self).tape().len()),
            final(self).head() == 0,
            final(self).register() == 0,
            final(self).output() == Seq::<char>::empty(),
    {
        self.out_stream = String::new();
        let cells: usize = self.table.len();
        let mut i: usize = 0;
        while i < cells
            invariant
                i <= cells,
                cells == self.table.len(),
                forall|j: int| 0 <= j < i ==> self.table@[j] == 0,
                self.same_settings(old(self)),
                self.out_stream@ == Seq::<char>::empty(),
            decreases cells - i,
        {
            self.table.set(i, 0);
            i += 1;
        }
        assert(self.table@ =~= blank(cells as nat));
        self.dp = 0;
        self.mem = 0;
    }

    /// Whether the output of a run is meant to be shown as well.
    pub fn shows_output(&self) -> (shown: bool)
        ensures
            shown == self.prints(),
    {
        self.print_output
    }

    /// Whether a run is bounded by the time budget.
    pub fn is_timed(&self) -> (timed: bool)
        ensures
            timed == self.timed(),
    {
        self.time_limit
    }

    /// The spare input tape, the value of `in_stream`.
    pub fn spare_tape(&self) -> (tape: &InputTape)
        ensures
            tape@ == self.spare_input(),
    {
        &self.in_stream
    }

    /// The characters written so far, the value of `out_stream`.
    pub fn written(&self) -> (text: &String)
        ensures
            text@ == self.output(),
    {
        &self.out_stream
    }

    /// The value of the current cell.
    pub fn return_val(&self) -> (value: u8)
        requires
            self.wf(),
        ensures
            value == self.machine(Seq::empty()).cell(),
    {
        self.table[self.dp]
    }

    /// How a run of `code` that starts from `begin` and returns `res` may
    /// leave the machine. A run that ends with the program leaves it as the
    /// execution does when it is over, within the steps allowed. A run that
    /// uses up its steps leaves it as the execution is after the last of
    /// them. A run that is stopped by the clock leaves it as the execution is
    /// after some smaller number of steps.
    pub open spec fn run_outcome(
        code: Seq<Instr>,
        begin: Machine,
        limit: nat,
        timed: bool,
        end: Machine,
        res: Result<u8, ExecError>,
    ) -> bool {
        let last = run_steps(start(code, begin), limit);
        match res {
            Ok(value) => halted(last) && end == last.machine && value == end.cell(),
            Err(ExecError::OutOfSteps) => !halted(last) && end == last.machine,
            Err(ExecError::Timeout) => timed && exists|n: nat|
                n < limit && !halted(#[trigger] run_steps(start(code, begin), n)) && end
                    == run_steps(start(code, begin), n).machine,
        }
    }

    /// However a run ends, it leaves the machine as the execution is after
    /// some number of steps.
    pub proof fn lemma_outcome_reachable(
        code: Seq<Instr>,
        begin: Machine,
        limit: nat,
        timed: bool,
        end: Machine,
        res: Result<u8, ExecError>,
    )
        requires
            Self::run_outcome(code, begin, limit, timed, end, res),
        ensures
            exists|n: nat| end == (#[trigger] run_steps(start(code, begin), n)).machine,
    {
        match res {
            Err(ExecError::Timeout) => {
                let n = choose|n: nat|
                    n < limit && !halted(#[trigger] run_steps(start(code, begin), n)) && end
                        == run_steps(start(code, begin), n).machine;
                assert(end == run_steps(start(code, begin), n).machine);
            },
            _ => {
                assert(end == run_steps(start(code, begin), limit).machine);
            },
        }
    }

    /// Runs without the time limit are deterministic: two runs of the same
    /// program from the same state of machine and input, with the same
    /// number of steps allowed, return the same and leave the same tape,
    /// head, register, input and output.
    pub proof fn lemma_untimed_run_is_determined(
        code: Seq<Instr>,
        begin: Machine,
        limit: nat,
        first_end: Machine,
        first_res: Result<u8, ExecError>,
        second_end: Machine,
        second_res: Result<u8, ExecError>,
    )
        requires
            Self::run_outcome(code, begin, limit, false, first_end, first_res),
            Self::run_outcome(code, begin, limit, false, second_end, second_res),
        ensures
            first_end == second_end,
            first_res == second_res,
    {
    }

    /// Runs `prog` on this interpreter's tape, register and output, reading
    /// from `input`. The run goes step by step as [`crate::machine::step`]
    /// says, for at most the interpreter's number of steps. With the time
    /// limit on, the clock is read before every step and the run stops once
    /// the budget is spent. A run that ends with the program returns the
    /// value of the current cell.
    ///
    /// Without the time limit the result and the state after the run are
    /// fixed by the program, the input and the state before the run.
    pub fn run(&mut self, prog: Vec<Token>, input: &mut InputTape) -> (res: Result<u8, ExecError>)
        requires
            old(self).wf(),
        ensures
            final(self).wf(),
            final(self).same_settings(old(self)),
            Self::run_outcome(
                code_of(prog@),
                old(self).machine(old(input)@),
                old(self).max_steps(),
                old(self).timed(),
                final(self).machine(final(input)@),
                res,
            ),
            !old(self).timed() ==> !(res == Err::<u8, ExecError>(ExecError::Timeout)),
    {
        self.execute(&prog, input)
    }

    /// Runs `prog` as [`Interpreter::run`] does, without taking it over.
    pub fn execute(&mut self, prog: &Vec<Token>, input: &mut InputTape) -> (res: Result<
        u8,
        ExecError,
    >)
        requires
            old(self).wf(),
        ensures
            final(self).wf(),
            final(self).same_settings(old(self)),
            Self::run_outcome(
                code_of(prog@),
                old(self).machine(old(input)@),
                old(self).max_steps(),
                old(self).timed(),
                final(self).machine(final(input)@),
                res,
            ),
            !old(self).timed() ==> !(res == Err::<u8, ExecError>(ExecError::Timeout)),
    {
        let ghost begin = start(code_of(prog@), self.machine(input@));
        let started: Option<SteadyTime> = if self.time_limit {
            Some(clock_now())
        } else {
            None
        };
        let mut stack: Vec<RunFrame> = Vec::new();
        stack.push(RunFrame { code: prog, pc: 0 });
        let mut used: u64 = 0;
        assert(frames_of(stack@) =~= begin.stack);
        loop
            invariant
                self.wf(),
                self.same_settings(old(self)),
                begin == start(code_of(prog@), old(self).machine(old(input)@)),
                used <= self.step_limit,
                stack.len() >= 1,
                forall|i: int| 0 <= i < stack.len() ==> (#[trigger] stack[i]).pc <= stack[i].code.len(),
                run_steps(begin, used as nat) == (Config {
                    machine: self.machine(input@),
                    stack: frames_of(stack@),
                }),
            decreases self.step_limit - used,
        {
            let ghost now = Config { machine: self.machine(input@), stack: frames_of(stack@) };
            let depth: usize = stack.len();
            let at_end: bool = stack[depth - 1].pc >= stack[depth - 1].code.len();
            assert(frames_of(stack@).last().pc == stack[depth - 1].pc);
            assert(frames_of(stack@).last().code.len() == stack[depth - 1].code.len());
            if depth == 1 && at_end {
                proof {
                    assert(halted(now));
                    lemma_halted_is_final(begin, used as nat, self.step_limit as nat);
                }
                return Ok(self.table[self.dp]);
            }
            assert(!halted(now));
            if used >= self.step_limit {
                return Err(ExecError::OutOfSteps);
            }
            if self.time_limit {
                match &started {
                    Some(since) => {
                        let reading = clock_now();
                        let span = clock_span(&reading, since);
                        if out_of_time(span_nanos(&span)) {
                            return Err(ExecError::Timeout);
                        }
                    },
                    None => {},
                }
            }
            let ghost below = frames_of(stack@).drop_last();
            let frame = stack.pop().unwrap();
            assert(frames_of(stack@) =~= below);
            if frame.pc < frame.code.len() {
                let code: &Vec<Token> = frame.code;
                let token: &Token = &code[frame.pc];
                stack.push(RunFrame { code, pc: frame.pc + 1 });
                assert(frames_of(stack@) =~= below.push(
                    Frame { code: code_of(code@), pc: frame.pc + 1 },
                ));
                match token {
                    Token::LOOP(body) => {
                        proof {
                            lemma_loop_token(*body);
                        }
                        if self.table[self.dp] != 0 {
                            let ghost under = frames_of(stack@);
                            stack.push(RunFrame { code: body, pc: 0 });
                            assert(frames_of(stack@) =~= under.push(
                                Frame { code: code_of(body@), pc: 0 },
                            ));
                        }
                    },
                    _ => {
                        self.apply_token(token, input);
                    },
                }
            } else if self.table[self.dp] != 0 {
                stack.push(RunFrame { code: frame.code, pc: 0 });
                assert(frames_of(stack@) =~= below.push(
                    Frame { code: code_of(frame.code@), pc: 0 },
                ));
            }
            proof {
                lemma_run_steps_next(begin, used as nat);
                assert(step(now) == (Config {
                    machine: self.machine(input@),
                    stack: frames_of(stack@),
                }));
            }
            used = used + 1;
        }
    }

    /// Runs one token that is not a loop.
    fn apply_token(&mut self, token: &Token, input: &mut InputTape)
        requires
            old(self).wf(),
            !(token is LOOP),
        ensures
            final(self).wf(),
            final(self).same_settings(old(self)),
            final(self).machine(final(input)@) == apply(token@, old(self).machine(old(input)@)),
    {
        let ghost before = self.machine(input@);
        let value: u8 = self.table[self.dp];
        match token {
            Token::INC => {
                self.table.set(self.dp, value.wrapping_add(1));
            },
            Token::DEC => {
                self.table.set(self.dp, value.wrapping_sub(1));
            },
            Token::RIGHT => {
                let cells: usize = self.table.len();
                self.dp = self.dp + 1;
                if self.dp >= cells {
                    let ghost short = self.table@;
                    let mut i: usize = 0;
                    while i < TAPE_CHUNK
                        invariant
                            i <= TAPE_CHUNK,
                            self.table@ == short + blank(i as nat),
                            self.dp == old(self).dp + 1,
                            self.mem == old(self).mem,
                            self.out_stream == old(self).out_stream,
                            self.same_settings(old(self)),
                        decreases TAPE_CHUNK - i,
                    {
                        self.table.push(0);
                        assert(self.table@ =~= short + blank((i + 1) as nat));
                        i += 1;
                    }
                }
            },
            Token::LEFT => {
                if self.dp > 0 {
                    self.dp = self.dp - 1;
                }
            },
            Token::GET => {
                let byte: u8 = input.read();
                self.table.set(self.dp, byte);
            },
            Token::PUT_CHAR => {
                self.out_stream.push(value as char);
            },
            Token::PUT_INT => {
                push_decimal(&mut self.out_stream, value);
            },
            Token::SAVE => {
                self.mem = value;
            },
            Token::LOAD => {
                self.table.set(self.dp, self.mem);
            },
            Token::CONST0 => {
                self.table.set(self.dp, 0);
            },
            Token::CONST1 => {
                self.table.set(self.dp, 16);
            },
            Token::CONST2 => {
                self.table.set(self.dp, 32);
            },
            Token::CONST3 => {
                self.table.set(self.dp, 48);
            },
            Token::CONST4 => {
                self.table.set(self.dp, 64);
            },
            Token::CONST5 => {
                self.table.set(self.dp, 80);
            },
            Token::CONST6 => {
                self.table.set(self.dp, 96);
            },
            Token::CONST7 => {
                self.table.set(self.dp, 112);
            },
            Token::CONST8 => {
                self.table.set(self.dp, 128);
            },
            Token::CONST9 => {
                self.table.set(self.dp, 144);
            },
            Token::CONSTA => {
                self.table.set(self.dp, 160);
            },
            Token::CONSTB => {
                self.table.set(self.dp, 176);
            },
            Token::CONSTC => {
                self.table.set(self.dp, 192);
            },
            Token::CONSTD => {
                self.table.set(self.dp, 208);
            },
            Token::CONSTE => {
                self.table.set(self.dp, 224);
            },
            Token::CONSTF => {
                self.table.set(self.dp, 240);
            },
            Token::LOOP(_) => {},
        }
        proof {
            let after = self.machine(input@);
            let wanted = apply(token@, before);
            assert(after.tape =~= wanted.tape);
            assert(after.input =~= wanted.input);
            assert(after.output =~= wanted.output);
        }
    }
}

} // verus!
