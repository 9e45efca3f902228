//! What a program means: an abstract machine that runs the intermediate
//! representation one step at a time.
//!
//! Generated code is meant to behave as this machine does. The machine
//! finds the other end of a loop by walking over the code, so its meaning
//! needs no table of jumps.

use vstd::prelude::*;

use crate::bf::ir::BfIR;

verus! {

/// What the machine is doing.
#[derive(Debug, Clone, Copy, PartialEq, Eq, Structural)]
pub enum Mode {
    /// Executing instructions.
    Run,
    /// Walking forward to the `Jnz` that closes the loop just skipped.
    Forward,
    /// Walking backward to the `Jz` that opens the loop to repeat.
    Backward,
}

/// How a run ended.
#[derive(Debug, Clone, Copy, PartialEq, Eq, Structural)]
pub enum Outcome {
    /// The program ran to its end.
    Finished,
    /// The data pointer was moved off the tape.
    PointerOverflow,
}

/// A state of the abstract machine.
pub struct State {
    /// The index of the next instruction; walking backward, the index
    /// behind the instruction to look at next.
    pub pc: int,
    pub mode: Mode,
    /// While walking: the number of inner loops entered and not yet left.
    pub nest: int,
    /// The index of the current cell.
    pub ptr: int,
    pub tape: Seq<u8>,
    /// The input not yet read.
    pub input: Seq<u8>,
    /// The output written so far.
    pub output: Seq<u8>,
    /// Whether the data pointer was moved off the tape.
    pub fault: bool,
}

impl State {
    /// The state in which a run begins: a tape of `cells` zeros with the
    /// data pointer on its first cell.
    pub open spec fn initial(cells: nat, input: Seq<u8>) -> State {
        State {
            pc: 0,
            mode: Mode::Run,
            nest: 0,
            ptr: 0,
            tape: Seq::new(cells, |i: int| 0u8),
            input,
            output: Seq::empty(),
            fault: false,
        }
    }

    /// The data pointer is on the tape and the state fits `code`.
    pub open spec fn valid(self, code: Seq<BfIR>) -> bool {
        &&& 0 <= self.ptr < self.tape.len()
        &&& 0 <= self.pc <= code.len()
        &&& 0 <= self.nest
        &&& self.mode is Run ==> self.nest == 0
        &&& self.mode is Forward ==> self.nest < self.pc
        &&& self.mode is Backward ==> self.nest + self.pc < code.len()
    }

    /// Whether the run is over.
    pub open spec fn halted(self, code: Seq<BfIR>) -> bool {
        ||| self.fault
        ||| self.pc < 0
        ||| (self.mode is Backward && self.pc == 0)
        ||| (!(self.mode is Backward) && self.pc >= code.len())
    }

    /// How the run ended, if it is over.
    pub open spec fn outcome(self, code: Seq<BfIR>) -> Option<Outcome> {
        if self.fault {
            Some(Outcome::PointerOverflow)
        } else if self.halted(code) {
            Some(Outcome::Finished)
        } else {
            None
        }
    }

    /// The state after executing `instruction`.
    pub open spec fn execute(self, instruction: BfIR) -> State {
        match instruction {
            BfIR::AddVal(n) => State {
                pc: self.pc + 1,
                tape: self.tape.update(self.ptr, ((self.tape[self.ptr] + n) % 256) as u8),
                ..self
            },
            BfIR::SubVal(n) => State {
                pc: self.pc + 1,
                tape: self.tape.update(self.ptr, ((self.tape[self.ptr] - n) % 256) as u8),
                ..self
            },
            BfIR::AddPtr(n) => if self.ptr + n >= self.tape.len() {
                State { fault: true, ..self }
            } else {
                State { pc: self.pc + 1, ptr: self.ptr + n, ..self }
            },
            BfIR::SubPtr(n) => if self.ptr - n < 0 {
                State { fault: true, ..self }
            } else {
                State { pc: self.pc + 1, ptr: self.ptr - n, ..self }
            },
            BfIR::GetByte => if self.input.len() == 0 {
                State { pc: self.pc + 1, ..self }
            } else {
                State {
                    pc: self.pc + 1,
                    tape: self.tape.update(self.ptr, self.input[0]),
                    input: self.input.drop_first(),
                    ..self
                }
            },
            BfIR::PutByte => State {
                pc: self.pc + 1,
                output: self.output.push(self.tape[self.ptr]),
                ..self
            },
            BfIR::Jz => if self.tape[self.ptr] == 0 {
                State { pc: self.pc + 1, mode: Mode::Forward, nest: 0, ..self }
            } else {
                State { pc: self.pc + 1, ..self }
            },
            BfIR::Jnz => if self.tape[self.ptr] != 0 {
                State { mode: Mode::Backward, nest: 0, ..self }
            } else {
                State { pc: self.pc + 1, ..self }
            },
        }
    }

    /// The state after walking forward over `instruction`.
    pub open spec fn pass_forward(self, instruction: BfIR) -> State {
        match instruction {
            BfIR::Jz => State { pc: self.pc + 1, nest: self.nest + 1, ..self },
            BfIR::Jnz => if self.nest == 0 {
                State { pc: self.pc + 1, mode: Mode::Run, ..self }
            } else {
                State { pc: self.pc + 1, nest: self.nest - 1, ..self }
            },
            _ => State { pc: self.pc + 1, ..self },
        }
    }

    /// The state after walking backward over `instruction`.
    pub open spec fn pass_backward(self, instruction: BfIR) -> State {
        match instruction {
            BfIR::Jnz => State { pc: self.pc - 1, nest: self.nest + 1, ..self },
            BfIR::Jz => if self.nest == 0 {
                State { mode: Mode::Run, ..self }
            } else {
                State { pc: self.pc - 1, nest: self.nest - 1, ..self }
            },
            _ => State { pc: self.pc - 1, ..self },
        }
    }
}

/// One step of the machine; a run that is over stays as it is.
pub open spec fn step(code: Seq<BfIR>, s: State) -> State {
    if s.halted(code) {
        s
    } else {
        match s.mode {
            Mode::Run => s.execute(code[s.pc]),
            Mode::Forward => s.pass_forward(code[s.pc]),
            Mode::Backward => s.pass_backward(code[s.pc - 1]),
        }
    }
}

/// The state after `n` steps.
pub open spec fn run(code: Seq<BfIR>, s: State, n: nat) -> State
    decreases n,
{
    if n == 0 {
        s
    } else {
        run(code, step(code, s), (n - 1) as nat)
    }
}

/// How a run of at most `n` steps from `s` ended, with its output; `None`
/// if it is not over by then.
pub open spec fn result_within(code: Seq<BfIR>, s: State, n: nat) -> Option<(Outcome, Seq<u8>)> {
    let last = run(code, s, n);
    match last.outcome(code) {
        Some(outcome) => Some((outcome, last.output)),
        None => None,
    }
}

/// A step keeps a valid state valid, and never changes the length of the
/// tape: no step writes outside it.
pub proof fn lemma_step_valid(code: Seq<BfIR>, s: State)
    requires
        s.valid(code),
    ensures
        step(code, s).valid(code),
        step(code, s).tape.len() == s.tape.len(),
{
}

/// A move of the data pointer to before the first cell or behind the last
/// one ends the run with `PointerOverflow`: the tape and the output stay as
/// they were, and no later step changes anything.
pub proof fn lemma_pointer_overflow(code: Seq<BfIR>, s: State)
    requires
        s.valid(code),
        !s.halted(code),
        s.mode is Run,
        match code[s.pc] {
            BfIR::AddPtr(n) => s.ptr + n >= s.tape.len(),
            BfIR::SubPtr(n) => s.ptr - n < 0,
            _ => false,
        },
    ensures
        step(code, s).outcome(code) == Some(Outcome::PointerOverflow),
        step(code, s).tape == s.tape,
        step(code, s).output == s.output,
        forall|n: nat| run(code, step(code, s), n) == step(code, s),
{
    let t = step(code, s);
    assert forall|n: nat| run(code, t, n) == t by {
        lemma_halted_stays(code, t, n);
    }
}

/// A move of the data pointer that stays on the tape is no fault.
pub proof fn lemma_pointer_move(code: Seq<BfIR>, s: State)
    requires
        s.valid(code),
        !s.halted(code),
        s.mode is Run,
        match code[s.pc] {
            BfIR::AddPtr(n) => s.ptr + n < s.tape.len(),
            BfIR::SubPtr(n) => s.ptr - n >= 0,
            _ => false,
        },
    ensures
        !step(code, s).fault,
        step(code, s).ptr == s.ptr + match code[s.pc] {
            BfIR::AddPtr(n) => n as int,
            BfIR::SubPtr(n) => -(n as int),
            _ => 0,
        },
{
}

/// Reading when the input is exhausted succeeds and leaves every cell as
/// it was.
pub proof fn lemma_read_at_end_of_input(code: Seq<BfIR>, s: State)
    requires
        s.valid(code),
        !s.halted(code),
        s.mode is Run,
        code[s.pc] is GetByte,
        s.input.len() == 0,
    ensures
        step(code, s) == (State { pc: s.pc + 1, ..s }),
        step(code, s).tape == s.tape,
        !step(code, s).fault,
{
}

/// A run that is over stays as it is, however many steps follow.
pub proof fn lemma_halted_stays(code: Seq<BfIR>, s: State, n: nat)
    requires
        s.halted(code),
    ensures
        run(code, s, n) == s,
    decreases n,
{
    if n > 0 {
        lemma_halted_stays(code, s, (n - 1) as nat);
    }
}

/// Running `a` steps and then `b` steps is running `a + b` steps.
pub proof fn lemma_run_split(code: Seq<BfIR>, s: State, a: nat, b: nat)
    ensures
        run(code, s, a + b) == run(code, run(code, s, a), b),
    decreases a,
{
    if a > 0 {
        lemma_run_split(code, step(code, s), (a - 1) as nat, b);
    }
}

/// Once a run is over, more steps change neither its outcome nor its output.
pub proof fn lemma_result_stable(code: Seq<BfIR>, s: State, n: nat, m: nat)
    requires
        n <= m,
        result_within(code, s, n) is Some,
    ensures
        result_within(code, s, m) == result_within(code, s, n),
{
    lemma_run_split(code, s, n, (m - n) as nat);
    lemma_halted_stays(code, run(code, s, n), (m - n) as nat);
}

/// A machine that can be run: the abstract machine over machine integers.
pub struct Machine {
    pub tape: Vec<u8>,
    pub ptr: usize,
    pub input: Vec<u8>,
    /// The number of input bytes read so far.
    pub taken: usize,
    pub output: Vec<u8>,
    pub pc: usize,
    pub mode: Mode,
    pub nest: usize,
    pub fault: bool,
}

impl View for Machine {
    type V = State;

    open spec fn view(&self) -> State {
        State {
            pc: self.pc as int,
            mode: self.mode,
            nest: self.nest as int,
            ptr: self.ptr as int,
            tape: self.tape@,
            input: self.input@.skip(self.taken as int),
            output: self.output@,
            fault: self.fault,
        }
    }
}

impl Machine {
    /// The machine is in a valid state for `code` and has read no more
    /// input than there is.
    pub open spec fn wf(&self, code: Seq<BfIR>) -> bool {
        self@.valid(code) && self.taken <= self.input.len()
    }

    /// A machine at the start of a run, with a tape of `cells` zeros.
    pub fn new(cells: usize, input: Vec<u8>) -> (machine: Machine)
        requires
            cells > 0,
        ensures
            machine@ == State::initial(cells as nat, input@),
            forall|code: Seq<BfIR>| machine.wf(code),
    {
        let tape: Vec<u8> = vec![0u8; cells];
        let machine = Machine {
            tape,
            ptr: 0,
            input,
            taken: 0,
            output: Vec::new(),
            pc: 0,
            mode: Mode::Run,
            nest: 0,
            fault: false,
        };
        proof {
            assert(machine.tape@ == Seq::new(cells as nat, |i: int| 0u8));
            assert(machine.input@.skip(0) == input@);
        }
        machine
    }

    /// How the run ended, if it is over.
    pub fn outcome(&self, code: &[BfIR]) -> (result: Option<Outcome>)
        requires
            self.wf(code@),
        ensures
            result == self@.outcome(code@),
    {
        if self.fault {
            Some(Outcome::PointerOverflow)
        } else if self.mode == Mode::Backward && self.pc == 0 {
            Some(Outcome::Finished)
        } else if self.mode != Mode::Backward && self.pc >= code.len() {
            Some(Outcome::Finished)
        } else {
            None
        }
    }

    /// Takes one step.
    ///
    /// The data pointer stays on the tape: a move that would take it off
    /// sets `fault` and changes nothing else. Reading at the end of the
    /// input leaves the cell as it was.
    pub fn step(&mut self, code: &[BfIR])
        requires
            old(self).wf(code@),
        ensures
            final(self).wf(code@),
            final(self)@ == step(code@, old(self)@),
            final(self).input == old(self).input,
    {
        if self.outcome(code).is_some() {
            return ;
        }
        match self.mode {
            Mode::Run => {
                match code[self.pc] {
                    BfIR::AddVal(n) => {
                        let cell = self.tape[self.ptr];
                        self.tape.set(self.ptr, cell.wrapping_add(n));
                        self.pc += 1;
                    },
                    BfIR::SubVal(n) => {
                        let cell = self.tape[self.ptr];
                        self.tape.set(self.ptr, cell.wrapping_sub(n));
                        self.pc += 1;
                    },
                    BfIR::AddPtr(n) => {
                        if n as usize >= self.tape.len() - self.ptr {
                            self.fault = true;
                        } else {
                            self.ptr += n as usize;
                            self.pc += 1;
                        }
                    },
                    BfIR::SubPtr(n) => {
                        if n as usize > self.ptr {
                            self.fault = true;
                        } else {
                            self.ptr -= n as usize;
                            self.pc += 1;
                        }
                    },
                    BfIR::GetByte => {
                        if self.taken < self.input.len() {
                            let byte = self.input[self.taken];
                            self.tape.set(self.ptr, byte);
                            proof {
                                assert(self.input@.skip(self.taken as int).drop_first()
                                    == self.input@.skip(self.taken + 1));
                            }
                            self.taken += 1;
                        }
                        self.pc += 1;
                    },
                    BfIR::PutByte => {
                        let cell = self.tape[self.ptr];
                        self.output.push(cell);
                        self.pc += 1;
                    },
                    BfIR::Jz => {
                        if self.tape[self.ptr] == 0 {
                            self.mode = Mode::Forward;
                            self.nest = 0;
                        }
                        self.pc += 1;
                    },
                    BfIR::Jnz => {
                        if self.tape[self.ptr] != 0 {
                            self.mode = Mode::Backward;
                            self.nest = 0;
                        } else {
                            self.pc += 1;
                        }
                    },
                }
            },
            Mode::Forward => {
                match code[self.pc] {
                    BfIR::Jz => {
                        self.nest += 1;
                    },
                    BfIR::Jnz => {
                        if self.nest == 0 {
                            self.mode = Mode::Run;
                        } else {
                            self.nest -= 1;
                        }
                    },
                    _ => {},
                }
                self.pc += 1;
            },
            Mode::Backward => {
                match code[self.pc - 1] {
                    BfIR::Jnz => {
                        self.nest += 1;
                        self.pc -= 1;
                    },
                    BfIR::Jz => {
                        if self.nest == 0 {
                            self.mode = Mode::Run;
                        } else {
                            self.nest -= 1;
                            self.pc -= 1;
                        }
                    },
                    _ => {
                        self.pc -= 1;
                    },
                }
            },
        }
    }

    /// Takes steps until the run is over, but no more than `limit`.
    ///
    /// Returns how the run ended, or `None` if it is not over after
    /// `limit` steps.
    pub fn run(&mut self, code: &[BfIR], limit: u64) -> (result: Option<Outcome>)
        requires
            old(self).wf(code@),
        ensures
            final(self).wf(code@),
            final(self)@ == run(code@, old(self)@, limit as nat),
            result == final(self)@.outcome(code@),
            final(self).input == old(self).input,
    {
        let mut done: u64 = 0;
        let ghost start = self@;
        while done < limit && self.outcome(code).is_none()
            invariant
                done <= limit,
                self.wf(code@),
                self@ == run(code@, start, done as nat),
                self.input == old(self).input,
            decreases limit - done,
        {
            proof {
                lemma_run_split(code@, start, done as nat, 1);
                assert(run(code@, self@, 1) == step(code@, self@)) by {
                    assert(run(code@, step(code@, self@), 0) == step(code@, self@));
                }
            }
            self.step(code);
            done += 1;
        }
        proof {
            if done < limit {
                lemma_run_split(code@, start, done as nat, (limit - done) as nat);
                lemma_halted_stays(code@, self@, (limit - done) as nat);
            }
        }
        self.outcome(code)
    }
}

/// Runs `code` from the start on a tape of `cells` zeros, for at most
/// `limit` steps, and returns how the run ended with the output written.
pub fn interpret(code: &[BfIR], cells: usize, input: Vec<u8>, limit: u64) -> (result: (
    Option<Outcome>,
    Vec<u8>,
))
    requires
        cells > 0,
    ensures
        result.0 == run(code@, State::initial(cells as nat, input@), limit as nat).outcome(code@),
        result.1@ == run(code@, State::initial(cells as nat, input@), limit as nat).output,
{
    let mut machine = Machine::new(cells, input);
    let outcome = machine.run(code, limit);
    (outcome, machine.output)
}

} // verus!
