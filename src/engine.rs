use vstd::prelude::*;

use crate::instruction::{is_marker, Instruction};
use crate::resolver::{
    balanced, calc_wormholes, describes, is_pair, lemma_markers_resolved, lemma_partner_unique,
    lemma_resolution_unique,
    partners, resolves, JumpTable, ResolveError,
};

verus! {

/// The state of a run, as a mathematical value.
pub struct Machine {
    pub tape: Seq<u8>,
    pub cursor: nat,
    pub pc: nat,
    pub output: Seq<u8>,
}

/// The state a run starts from: one zero cell, everything else at zero or empty.
pub open spec fn initial() -> Machine {
    Machine { tape: seq![0u8], cursor: 0, pc: 0, output: Seq::empty() }
}

/// The cursor points into the tape.
pub open spec fn machine_wf(m: Machine) -> bool {
    m.cursor < m.tape.len()
}

/// Adds one modulo 256.
pub open spec fn wrap_inc(v: u8) -> u8 {
    ((v as int + 1) % 256) as u8
}

/// Subtracts one modulo 256.
pub open spec fn wrap_dec(v: u8) -> u8 {
    ((v as int + 255) % 256) as u8
}

/// Why a run stopped before the end of its program.
#[derive(Clone, Copy, Debug, PartialEq, Eq, Structural)]
pub enum Fault {
    /// The instruction at this offset moved the cursor left of the first cell.
    CursorUnderflow(usize),
    /// The loop marker at this offset has no usable entry in the jump table.
    MissingJump(usize),
}

/// What executing one instruction does to a machine.
pub enum Transition {
    /// The program counter is past the last instruction: nothing to execute.
    Halted,
    /// The instruction ran and left this state.
    Moved(Machine),
    /// The instruction could not run; the state is unchanged.
    Failed(Fault),
}

/// The partner recorded for the marker at `pc`, if the table has one that
/// lies inside the program.
pub open spec fn jump_target(prog: Seq<Instruction>, jumps: Seq<Option<usize>>, pc: nat) -> Option<
    nat,
> {
    if pc < jumps.len() && jumps[pc as int] is Some && jumps[pc as int]->0 < prog.len() {
        Some(jumps[pc as int]->0 as nat)
    } else {
        None
    }
}

/// Moves the program counter just past the partner of the marker at `pc`.
pub open spec fn jump(prog: Seq<Instruction>, jumps: Seq<Option<usize>>, m: Machine) -> Transition {
    match jump_target(prog, jumps, m.pc) {
        Some(t) => Transition::Moved(Machine { pc: t + 1, ..m }),
        None => Transition::Failed(Fault::MissingJump(m.pc as usize)),
    }
}

/// Executes the instruction at the program counter.
pub open spec fn step_spec(prog: Seq<Instruction>, jumps: Seq<Option<usize>>, m: Machine) -> Transition {
    if m.pc >= prog.len() {
        Transition::Halted
    } else {
        let cell = m.tape[m.cursor as int];
        let next = Machine { pc: m.pc + 1, ..m };
        match prog[m.pc as int] {
            Instruction::Next => {
                let c = m.cursor + 1;
                Transition::Moved(
                    Machine {
                        cursor: c,
                        tape: if c < m.tape.len() {
                            m.tape
                        } else {
                            m.tape.push(0u8)
                        },
                        ..next
                    },
                )
            },
            Instruction::Previous => if m.cursor == 0 {
                Transition::Failed(Fault::CursorUnderflow(m.pc as usize))
            } else {
                Transition::Moved(Machine { cursor: (m.cursor - 1) as nat, ..next })
            },
            Instruction::Increment => Transition::Moved(
                Machine { tape: m.tape.update(m.cursor as int, wrap_inc(cell)), ..next },
            ),
            Instruction::Decrease => Transition::Moved(
                Machine { tape: m.tape.update(m.cursor as int, wrap_dec(cell)), ..next },
            ),
            Instruction::LoopStart => if cell == 0 {
                jump(prog, jumps, m)
            } else {
                Transition::Moved(next)
            },
            Instruction::LoopEnd => if cell != 0 {
                jump(prog, jumps, m)
            } else {
                Transition::Moved(next)
            },
            Instruction::Print => Transition::Moved(Machine { output: m.output.push(cell), ..next }),
        }
    }
}

/// How a run of at most a given number of instructions ended.
pub enum Outcome {
    /// The program counter left the program.
    Finished,
    /// An instruction could not run.
    Failed(Fault),
    /// The budget of instructions ran out first.
    OutOfSteps,
}

/// Runs from `m`, executing at most `fuel` instructions; the final state and
/// how the run ended.
pub open spec fn run_from(
    prog: Seq<Instruction>,
    jumps: Seq<Option<usize>>,
    m: Machine,
    fuel: nat,
) -> (Machine, Outcome)
    decreases fuel,
{
    if m.pc >= prog.len() {
        (m, Outcome::Finished)
    } else if fuel == 0 {
        (m, Outcome::OutOfSteps)
    } else {
        match step_spec(prog, jumps, m) {
            Transition::Moved(m2) => run_from(prog, jumps, m2, (fuel - 1) as nat),
            Transition::Failed(f) => (m, Outcome::Failed(f)),
            Transition::Halted => (m, Outcome::Finished),
        }
    }
}

/// The jump table of a balanced program.
pub open spec fn jump_table_of(prog: Seq<Instruction>) -> Seq<Option<usize>> {
    choose|t: Seq<Option<usize>>| resolves(prog, t)
}

/// Why a run produced no complete output.
#[derive(Debug)]
pub enum RunError {
    /// The loop markers do not pair up; nothing ran.
    Malformed(ResolveError),
    /// An instruction could not run; `output` holds what was emitted before.
    Fault { fault: Fault, output: Vec<u8> },
    /// The budget of instructions ran out; `output` holds what was emitted.
    OutOfSteps { output: Vec<u8> },
}

/// `r` reports the end of a run that stopped in state `end.0` for reason `end.1`.
pub open spec fn reports(r: Result<Vec<u8>, RunError>, end: (Machine, Outcome)) -> bool {
    match end.1 {
        Outcome::Finished => r matches Ok(out) && out@ == end.0.output,
        Outcome::Failed(f) => r matches Err(RunError::Fault { fault, output }) && fault == f
            && output@ == end.0.output,
        Outcome::OutOfSteps => r matches Err(RunError::OutOfSteps { output }) && output@
            == end.0.output,
    }
}

/// In a program without loop markers, every instruction that does not fault
/// hands over to the one after it, and only `Print` emits: one byte, the
/// current cell, after what was emitted before.
pub proof fn lemma_straight_line_step(prog: Seq<Instruction>, jumps: Seq<Option<usize>>, m: Machine)
    requires
        machine_wf(m),
        m.pc < prog.len(),
        forall|i: int| 0 <= i < prog.len() ==> !is_marker(#[trigger] prog[i]),
    ensures
        match step_spec(prog, jumps, m) {
            Transition::Moved(m2) => {
                &&& machine_wf(m2)
                &&& m2.pc == m.pc + 1
                &&& m2.output == if prog[m.pc as int] is Print {
                    m.output.push(m.tape[m.cursor as int])
                } else {
                    m.output
                }
            },
            Transition::Failed(f) => prog[m.pc as int] is Previous && m.cursor == 0 && f
                == Fault::CursorUnderflow(m.pc as usize),
            Transition::Halted => false,
        },
{
    assert(!is_marker(prog[m.pc as int]));
}

/// The number of `Print` instructions from offset `i` to the end.
pub open spec fn prints_from(prog: Seq<Instruction>, i: int) -> nat
    decreases prog.len() - i,
{
    if i < 0 || i >= prog.len() {
        0
    } else {
        (if prog[i] is Print {
            1nat
        } else {
            0nat
        }) + prints_from(prog, i + 1)
    }
}

/// A program without loop markers runs its instructions once each, in
/// order: given as many steps as instructions remain, the run either faults
/// or finishes past the last instruction, and never runs out of steps. What
/// was emitted before stays in front, and a finished run has emitted one byte
/// for each `Print` it passed.
pub proof fn lemma_straight_line_run(
    prog: Seq<Instruction>,
    jumps: Seq<Option<usize>>,
    m: Machine,
    fuel: nat,
)
    requires
        machine_wf(m),
        m.pc <= prog.len(),
        fuel >= prog.len() - m.pc,
        forall|i: int| 0 <= i < prog.len() ==> !is_marker(#[trigger] prog[i]),
    ensures
        !(run_from(prog, jumps, m, fuel).1 is OutOfSteps),
        run_from(prog, jumps, m, fuel).1 is Finished ==> run_from(prog, jumps, m, fuel).0.pc
            == prog.len(),
        run_from(prog, jumps, m, fuel).0.output.len() >= m.output.len(),
        run_from(prog, jumps, m, fuel).0.output.take(m.output.len() as int) == m.output,
        run_from(prog, jumps, m, fuel).1 is Finished ==> run_from(prog, jumps, m, fuel).0.output.len()
            == m.output.len() + prints_from(prog, m.pc as int),
    decreases prog.len() - m.pc,
{
    if m.pc < prog.len() {
        lemma_straight_line_step(prog, jumps, m);
        if let Transition::Moved(m2) = step_spec(prog, jumps, m) {
            lemma_straight_line_run(prog, jumps, m2, (fuel - 1) as nat);
            let out = run_from(prog, jumps, m2, (fuel - 1) as nat).0.output;
            assert(out.take(m.output.len() as int) == out.take(m2.output.len() as int).take(
                m.output.len() as int,
            ));
            assert(m2.output.take(m.output.len() as int) == m.output);
        }
    } else {
        assert(m.output.take(m.output.len() as int) == m.output);
    }
}

/// A loop entered with a nonzero cell runs its body: the loop start hands
/// over to the first instruction of the body. When the loop end finds the
/// cell still nonzero, it hands over to that same instruction, so the body
/// runs again.
pub proof fn lemma_loop_repeats(
    prog: Seq<Instruction>,
    jumps: Seq<Option<usize>>,
    m: Machine,
    s: int,
    e: int,
)
    requires
        resolves(prog, jumps),
        is_pair(prog, s, e),
        machine_wf(m),
        m.tape[m.cursor as int] != 0,
    ensures
        m.pc == s ==> step_spec(prog, jumps, m) == Transition::Moved(
            Machine { pc: (s + 1) as nat, ..m },
        ),
        m.pc == e ==> step_spec(prog, jumps, m) == Transition::Moved(
            Machine { pc: (s + 1) as nat, ..m },
        ),
{
    assert(partners(prog, e, s));
    let c = jumps[e]->0 as int;
    assert(partners(prog, e, c));
    lemma_partner_unique(prog, c, s, e);
}

/// A balanced program never consults a missing jump-table entry: with its
/// own table, no run of it fails for want of one.
pub proof fn lemma_no_missing_jump(
    prog: Seq<Instruction>,
    jumps: Seq<Option<usize>>,
    m: Machine,
    fuel: nat,
)
    requires
        balanced(prog),
        resolves(prog, jumps),
        machine_wf(m),
    ensures
        !(run_from(prog, jumps, m, fuel).1 matches Outcome::Failed(Fault::MissingJump(_))),
    decreases fuel,
{
    if m.pc < prog.len() && fuel > 0 {
        let i = m.pc as int;
        if prog[i] is LoopStart || prog[i] is LoopEnd {
            lemma_markers_resolved(prog, jumps, i);
        }
        if let Transition::Moved(m2) = step_spec(prog, jumps, m) {
            lemma_no_missing_jump(prog, jumps, m2, (fuel - 1) as nat);
        }
    }
}

/// Moving left from the first cell always faults, naming the instruction.
pub proof fn lemma_move_left_at_zero(prog: Seq<Instruction>, jumps: Seq<Option<usize>>, m: Machine)
    requires
        m.pc < prog.len(),
        prog[m.pc as int] is Previous,
        m.cursor == 0,
    ensures
        step_spec(prog, jumps, m) == Transition::Failed(Fault::CursorUnderflow(m.pc as usize)),
{
}

/// The tape, cursor, program counter and output of one run.
pub struct Engine {
    tape: Vec<u8>,
    cursor: usize,
    pc: usize,
    output: Vec<u8>,
}

impl View for Engine {
    type V = Machine;

    closed spec fn view(&self) -> Machine {
        Machine {
            tape: self.tape@,
            cursor: self.cursor as nat,
            pc: self.pc as nat,
            output: self.output@,
        }
    }
}

impl Engine {
    /// The cursor points into the tape.
    pub open spec fn wf(&self) -> bool {
        machine_wf(self@)
    }

    /// A fresh engine: one zero cell, cursor and program counter at 0, no output.
    pub fn new() -> (r: Engine)
        ensures
            r@ == initial(),
            r.wf(),
    {
        let r = Engine { tape: vec![0u8], cursor: 0, pc: 0, output: Vec::new() };
        assert(r@.tape == seq![0u8]);
        r
    }

    /// Whether the program counter has left the program.
    pub fn is_halted(&self, program: &Vec<Instruction>) -> (r: bool)
        ensures
            r == (self@.pc >= program@.len()),
    {
        self.pc >= program.len()
    }

    /// The bytes emitted so far.
    pub fn output(&self) -> (r: &Vec<u8>)
        ensures
            r@ == self@.output,
    {
        &self.output
    }

    /// Gives up the engine for the bytes it emitted.
    pub fn into_output(self) -> (r: Vec<u8>)
        ensures
            r@ == self@.output,
    {
        self.output
    }

    /// Moves the program counter just past the partner of the current marker.
    fn jump(&mut self, program: &Vec<Instruction>, table: &JumpTable) -> (r: Result<(), Fault>)
        requires
            old(self).wf(),
            old(self)@.pc < program@.len(),
        ensures
            final(self).wf(),
            match jump(program@, table@, old(self)@) {
                Transition::Moved(m) => r is Ok && final(self)@ == m,
                Transition::Failed(f) => r == Err::<(), Fault>(f) && final(self)@ == old(self)@,
                Transition::Halted => false,
            },
    {
        match table.target(self.pc) {
            Some(t) => {
                if t < program.len() {
                    self.pc = t + 1;
                    Ok(())
                } else {
                    Err(Fault::MissingJump(self.pc))
                }
            },
            None => Err(Fault::MissingJump(self.pc)),
        }
    }

    /// Executes the instruction at the program counter. On a fault the engine
    /// is left as it was.
    pub fn step(&mut self, program: &Vec<Instruction>, table: &JumpTable) -> (r: Result<(), Fault>)
        requires
            old(self).wf(),
            old(self)@.pc < program@.len(),
        ensures
            final(self).wf(),
            match step_spec(program@, table@, old(self)@) {
                Transition::Moved(m) => r is Ok && final(self)@ == m,
                Transition::Failed(f) => r == Err::<(), Fault>(f) && final(self)@ == old(self)@,
                Transition::Halted => false,
            },
    {
        let cell = self.tape[self.cursor];
        let tape_len = self.tape.len();
        let program_len = program.len();
        assert(self.cursor < tape_len && self.pc < program_len);
        match program[self.pc] {
            Instruction::Next => {
                self.cursor = self.cursor + 1;
                if self.cursor >= self.tape.len() {
                    self.tape.push(0u8);
                }
            },
            Instruction::Previous => {
                if self.cursor == 0 {
                    return Err(Fault::CursorUnderflow(self.pc));
                }
                self.cursor = self.cursor - 1;
            },
            Instruction::Increment => {
                self.tape.set(self.cursor, cell.wrapping_add(1));
            },
            Instruction::Decrease => {
                self.tape.set(self.cursor, cell.wrapping_sub(1));
            },
            Instruction::LoopStart => {
                if cell == 0 {
                    return self.jump(program, table);
                }
            },
            Instruction::LoopEnd => {
                if cell != 0 {
                    return self.jump(program, table);
                }
            },
            Instruction::Print => {
                self.output.push(cell);
            },
        }
        self.pc = self.pc + 1;
        Ok(())
    }
}

/// Runs a program, executing at most `max_steps` instructions: resolves its
/// loops, then steps an engine from the initial state until the program
/// counter leaves the program, an instruction faults or the budget runs out.
pub fn run_hand_ast(instructions: &Vec<Instruction>, max_steps: u64) -> (r: Result<
    Vec<u8>,
    RunError,
>)
    ensures
        !balanced(instructions@) ==> (r matches Err(RunError::Malformed(e)) && describes(
            instructions@,
            e,
        )),
        balanced(instructions@) ==> reports(
            r,
            run_from(instructions@, jump_table_of(instructions@), initial(), max_steps as nat),
        ),
        !(r matches Err(RunError::Fault { fault: Fault::MissingJump(_), output: _ })),
{
    let ghost prog = instructions@;
    let table = match calc_wormholes(instructions) {
        Ok(t) => t,
        Err(e) => {
            return Err(RunError::Malformed(e));
        },
    };
    proof {
        assert(resolves(prog, table@));
        lemma_resolution_unique(prog, table@, jump_table_of(prog));
        lemma_no_missing_jump(prog, table@, initial(), max_steps as nat);
    }
    let ghost jumps = table@;
    let mut engine = Engine::new();
    let mut left: u64 = max_steps;
    loop
        invariant
            instructions@ == prog,
            balanced(prog),
            jumps == jump_table_of(prog),
            table@ == jumps,
            !(run_from(prog, jumps, initial(), max_steps as nat).1 matches Outcome::Failed(
                Fault::MissingJump(_),
            )),
            engine.wf(),
            run_from(prog, jumps, initial(), max_steps as nat) == run_from(
                prog,
                jumps,
                engine@,
                left as nat,
            ),
        decreases left,
    {
        if engine.is_halted(instructions) {
            return Ok(engine.into_output());
        }
        if left == 0 {
            return Err(RunError::OutOfSteps { output: engine.into_output() });
        }
        match engine.step(instructions, &table) {
            Ok(()) => {},
            Err(f) => {
                return Err(RunError::Fault { fault: f, output: engine.into_output() });
            },
        }
        left = left - 1;
    }
}

} // verus!
