//! The executor: walks an assembled instruction list with a program
//! counter over a fixed-size tape of wrapping 8-bit cells addressed by a
//! wrapping cursor. Its semantics is pinned by a small-step machine model:
//! every executable step is proved equal to one step of the model.
//!
//! Console I/O is kept outside: input arrives as a sequence of already-read
//! lines, output is returned as the sequence of emitted bytes. A host that
//! wants interactive blocking I/O drives [`ExecutionState::step`] itself,
//! one instruction at a time.

use vstd::prelude::*;

use crate::assembler::balanced;
use crate::assembler::collapse;
use crate::assembler::lemma_plus_run_collapses;
use crate::assembler::lex_spec;
use crate::assembler::spec_assemble;
use crate::assembler::assemble;
use crate::input::parse_cell;
use crate::input::parse_cell_spec;
use crate::tokens::ASTEntry;
use crate::tokens::AssembleError;
use crate::tokens::MEMORY_SIZE;
use crate::tokens::Tokens;
use crate::tokens::entry_wf;
use crate::tokens::insts_wf;
use vstd::arithmetic::div_mod::lemma_add_mod_noop_right;
use vstd::arithmetic::div_mod::lemma_mod_add_multiples_vanish;
use vstd::arithmetic::div_mod::lemma_mod_division_less_than_divisor;
use vstd::arithmetic::div_mod::lemma_small_mod;
use vstd::arithmetic::div_mod::lemma_sub_mod_noop_right;

verus! {

/// The model of the executor's own state: tape contents, cursor, and
/// program counter.
#[verifier::ext_equal]
pub ghost struct CoreState {
    /// One value per tape cell.
    pub tape: Seq<u8>,
    /// The current cell index.
    pub cursor: nat,
    /// The current instruction index; anything at or past the end of the
    /// instruction list is the terminal state.
    pub pc: nat,
}

/// The model of a whole run in flight: the executor state plus the input
/// lines not yet consumed and the output bytes emitted so far.
#[verifier::ext_equal]
pub ghost struct MachineState {
    /// The executor's own state.
    pub core: CoreState,
    /// Input lines still to be read, in order.
    pub inputs: Seq<Seq<char>>,
    /// Bytes emitted so far, in order.
    pub outputs: Seq<u8>,
}

/// The executor state every run starts from: an all-zero tape of the fixed
/// length, cursor and program counter at 0.
pub open spec fn init_core() -> CoreState {
    CoreState { tape: Seq::new(MEMORY_SIZE as nat, |m: int| 0u8), cursor: 0, pc: 0 }
}

/// A fresh machine about to run on the given input lines.
pub open spec fn init_machine(inputs: Seq<Seq<char>>) -> MachineState {
    MachineState { core: init_core(), inputs, outputs: Seq::empty() }
}

/// The executor state invariant: full-length tape, cursor on the tape.
pub open spec fn core_wf(c: CoreState) -> bool {
    c.tape.len() == MEMORY_SIZE && c.cursor < MEMORY_SIZE
}

/// Whether the instruction about to execute is `TakeInput`, so that the
/// step consumes one input line.
pub open spec fn step_consumes(insts: Seq<ASTEntry>, c: CoreState) -> bool {
    c.pc < insts.len() && insts[c.pc as int].token == Tokens::TakeInput
}

/// The bytes one step emits: the current cell, repeat-count many times,
/// when the instruction is `Print`; nothing otherwise.
pub open spec fn step_emit(insts: Seq<ASTEntry>, c: CoreState) -> Seq<u8> {
    if c.pc < insts.len() && insts[c.pc as int].token == Tokens::Print {
        Seq::new(insts[c.pc as int].repeat as nat, |q: int| c.tape[c.cursor as int])
    } else {
        Seq::empty()
    }
}

/// One step of the executor proper (`line` is the input line read for a
/// `TakeInput` instruction, `None` when input is exhausted), with n the
/// repeat count and cell the current cell:
/// - `Increment`/`Decrement`: cell gains/loses n, wrapping modulo 256;
/// - `ShiftRight`/`ShiftLeft`: cursor moves n, wrapping modulo the tape
///   length;
/// - `Print`: no state change (the emitted bytes are [`step_emit`]);
/// - `TakeInput`: the parsed line value replaces the cell, or the cell is
///   left unchanged when the line does not parse;
/// - `StartLoop`: on a zero cell the program counter jumps just past the
///   matching `EndLoop`, otherwise it falls through;
/// - `EndLoop`: on a non-zero cell the program counter jumps back onto the
///   matching `StartLoop`, otherwise it falls through.
/// A terminal state steps to itself.
pub open spec fn step_core(insts: Seq<ASTEntry>, c: CoreState, line: Option<Seq<char>>) -> CoreState {
    if c.pc >= insts.len() {
        c
    } else {
        let e = insts[c.pc as int];
        let cell = c.tape[c.cursor as int];
        match e.token {
            Tokens::Increment => CoreState {
                tape: c.tape.update(c.cursor as int, (((cell as int) + e.repeat) % 256) as u8),
                cursor: c.cursor,
                pc: c.pc + 1,
            },
            Tokens::Decrement => CoreState {
                tape: c.tape.update(c.cursor as int, (((cell as int) - e.repeat) % 256) as u8),
                cursor: c.cursor,
                pc: c.pc + 1,
            },
            Tokens::ShiftRight => CoreState {
                tape: c.tape,
                cursor: ((((c.cursor as int) + e.repeat) % (MEMORY_SIZE as int)) as nat),
                pc: c.pc + 1,
            },
            Tokens::ShiftLeft => CoreState {
                tape: c.tape,
                cursor: ((((c.cursor as int) - e.repeat) % (MEMORY_SIZE as int)) as nat),
                pc: c.pc + 1,
            },
            Tokens::Print => CoreState { tape: c.tape, cursor: c.cursor, pc: c.pc + 1 },
            Tokens::TakeInput => {
                let parsed = match line {
                    Some(l) => parse_cell_spec(l),
                    None => None,
                };
                match parsed {
                    Some(v) => CoreState {
                        tape: c.tape.update(c.cursor as int, v),
                        cursor: c.cursor,
                        pc: c.pc + 1,
                    },
                    None => CoreState { tape: c.tape, cursor: c.cursor, pc: c.pc + 1 },
                }
            },
            Tokens::StartLoop => {
                if cell == 0 {
                    CoreState { tape: c.tape, cursor: c.cursor, pc: (e.matching_bracket->0 + 1) as nat }
                } else {
                    CoreState { tape: c.tape, cursor: c.cursor, pc: c.pc + 1 }
                }
            },
            Tokens::EndLoop => {
                if cell != 0 {
                    CoreState { tape: c.tape, cursor: c.cursor, pc: e.matching_bracket->0 as nat }
                } else {
                    CoreState { tape: c.tape, cursor: c.cursor, pc: c.pc + 1 }
                }
            },
        }
    }
}

/// One step of the whole machine: the executor steps with the next input
/// line (consumed exactly by `TakeInput`; exhausted input reads as `None`),
/// and emitted bytes are appended to the output.
pub open spec fn machine_step(insts: Seq<ASTEntry>, m: MachineState) -> MachineState {
    let line = if step_consumes(insts, m.core) && m.inputs.len() > 0 {
        Some(m.inputs[0])
    } else {
        None
    };
    MachineState {
        core: step_core(insts, m.core, line),
        inputs: if step_consumes(insts, m.core) && m.inputs.len() > 0 {
            m.inputs.skip(1)
        } else {
            m.inputs
        },
        outputs: m.outputs + step_emit(insts, m.core),
    }
}

/// A machine that has run off the end of the instruction list.
pub open spec fn machine_halted(insts: Seq<ASTEntry>, m: MachineState) -> bool {
    m.core.pc >= insts.len()
}

/// The machine after at most `fuel` steps: stepping stops early the moment
/// the program counter reaches the end of the instruction list.
pub open spec fn run_upto(insts: Seq<ASTEntry>, m: MachineState, fuel: nat) -> MachineState
    decreases fuel,
{
    if fuel == 0 || machine_halted(insts, m) {
        m
    } else {
        run_upto(insts, machine_step(insts, m), (fuel - 1) as nat)
    }
}

/// Peeling one more step off the end of a bounded run.
proof fn lemma_run_upto_snoc(insts: Seq<ASTEntry>, m: MachineState, k: nat)
    requires
        !machine_halted(insts, run_upto(insts, m, k)),
    ensures
        run_upto(insts, m, k + 1) == machine_step(insts, run_upto(insts, m, k)),
    decreases k,
{
    if k == 0 {
        assert(run_upto(insts, m, 1) == run_upto(insts, machine_step(insts, m), 0));
    } else if machine_halted(insts, m) {
        assert(run_upto(insts, m, k) == m);
    } else {
        lemma_run_upto_snoc(insts, machine_step(insts, m), (k - 1) as nat);
        assert(run_upto(insts, m, k + 1) == run_upto(insts, machine_step(insts, m), k));
    }
}

/// Once halted, more fuel changes nothing.
proof fn lemma_run_upto_stable(insts: Seq<ASTEntry>, m: MachineState, k: nat, f: nat)
    requires
        k <= f,
        machine_halted(insts, run_upto(insts, m, k)),
    ensures
        run_upto(insts, m, f) == run_upto(insts, m, k),
    decreases k,
{
    if k == 0 || machine_halted(insts, m) {
        assert(run_upto(insts, m, k) == m);
    } else {
        lemma_run_upto_stable(insts, machine_step(insts, m), (k - 1) as nat, (f - 1) as nat);
    }
}

/// The input line handed to one executable step, as the model sees it.
pub open spec fn line_view(input: Option<&str>) -> Option<Seq<char>> {
    match input {
        Some(s) => Some(s@),
        None => None,
    }
}

/// The executor's mutable state, owned by one run: the tape, the cell
/// cursor, and the program counter.
pub struct ExecutionState {
    /// The tape cells; always exactly the fixed tape length.
    pub tape: Vec<u8>,
    /// The current cell index; always on the tape.
    pub cursor: usize,
    /// The current instruction index.
    pub pc: usize,
}

impl View for ExecutionState {
    type V = CoreState;

    open spec fn view(&self) -> CoreState {
        CoreState { tape: self.tape@, cursor: self.cursor as nat, pc: self.pc as nat }
    }
}

impl ExecutionState {
    /// A fresh executor state: all-zero tape, cursor and program counter
    /// at 0.
    pub fn new() -> (r: ExecutionState)
        ensures
            r@ == init_core(),
            core_wf(r@),
    {
        let mut tape: Vec<u8> = Vec::new();
        let mut i: usize = 0;
        while i < MEMORY_SIZE
            invariant
                i <= MEMORY_SIZE,
                tape@.len() == i,
                forall|m: int| 0 <= m < i ==> tape@[m] == 0u8,
            decreases MEMORY_SIZE - i,
        {
            tape.push(0u8);
            i = i + 1;
        }
        proof {
            assert(tape@ =~= init_core().tape);
        }
        ExecutionState { tape, cursor: 0, pc: 0 }
    }

    /// Whether the run is over: the program counter has reached the end of
    /// the instruction list.
    pub fn is_halted(&self, insts: &Vec<ASTEntry>) -> (r: bool)
        ensures
            r == machine_halted(insts@, MachineState { core: self@, inputs: Seq::empty(), outputs: Seq::empty() }),
    {
        self.pc >= insts.len()
    }

    /// Whether the next step executes `TakeInput` and so wants an input
    /// line from the host.
    pub fn wants_input(&self, insts: &Vec<ASTEntry>) -> (r: bool)
        ensures
            r == step_consumes(insts@, self@),
    {
        self.pc < insts.len() && insts[self.pc].token == Tokens::TakeInput
    }

    /// Executes exactly one instruction: the executable counterpart of one
    /// [`step_core`] step. `input` is the line read for a `TakeInput`
    /// instruction (`None` when input is exhausted; it is ignored by every
    /// other instruction), and the returned bytes are what the step emits.
    #[verifier::loop_isolation(false)]
    #[verifier::rlimit(50)]
    pub fn step(&mut self, insts: &Vec<ASTEntry>, input: Option<&str>) -> (emitted: Vec<u8>)
        requires
            insts_wf(insts@),
            core_wf(old(self)@),
            old(self)@.pc < insts@.len(),
        ensures
            core_wf(final(self)@),
            final(self)@ == step_core(insts@, old(self)@, line_view(input)),
            emitted@ == step_emit(insts@, old(self)@),
    {
        let n: usize = insts.len();
        proof {
            assert(insts@.len() == n);
            assert(entry_wf(insts@, self.pc as int));
        }
        let e = insts[self.pc];
        let cur = self.cursor;
        let cell = self.tape[cur];
        let mut emitted: Vec<u8> = Vec::new();
        match e.token {
            Tokens::Increment => {
                let add8: u8 = (e.repeat % 256) as u8;
                self.tape[cur] = cell.wrapping_add(add8);
                self.pc = self.pc + 1;
                proof {
                    lemma_add_mod_noop_right(cell as int, e.repeat as int, 256);
                    lemma_small_mod(cell as nat, 256);
                    assert(self@ =~= step_core(insts@, old(self)@, line_view(input)));
                }
            },
            Tokens::Decrement => {
                let sub8: u8 = (e.repeat % 256) as u8;
                self.tape[cur] = cell.wrapping_sub(sub8);
                self.pc = self.pc + 1;
                proof {
                    lemma_sub_mod_noop_right(cell as int, e.repeat as int, 256);
                    lemma_small_mod(cell as nat, 256);
                    lemma_mod_add_multiples_vanish((cell as int) - ((e.repeat as int) % 256), 256);
                    assert(self@ =~= step_core(insts@, old(self)@, line_view(input)));
                }
            },
            Tokens::ShiftRight => {
                let delta: usize = e.repeat % MEMORY_SIZE;
                self.cursor = (self.cursor + delta) % MEMORY_SIZE;
                self.pc = self.pc + 1;
                proof {
                    lemma_add_mod_noop_right(old(self).cursor as int, e.repeat as int, MEMORY_SIZE as int);
                    lemma_mod_division_less_than_divisor(
                        (old(self).cursor as int) + (e.repeat as int),
                        MEMORY_SIZE as int,
                    );
                    assert(self@ =~= step_core(insts@, old(self)@, line_view(input)));
                }
            },
            Tokens::ShiftLeft => {
                let delta: usize = e.repeat % MEMORY_SIZE;
                self.cursor = (self.cursor + MEMORY_SIZE - delta) % MEMORY_SIZE;
                self.pc = self.pc + 1;
                proof {
                    lemma_sub_mod_noop_right(old(self).cursor as int, e.repeat as int, MEMORY_SIZE as int);
                    lemma_mod_add_multiples_vanish(
                        (old(self).cursor as int) - ((e.repeat as int) % (MEMORY_SIZE as int)),
                        MEMORY_SIZE as int,
                    );
                    lemma_mod_division_less_than_divisor(
                        (old(self).cursor as int) - (e.repeat as int),
                        MEMORY_SIZE as int,
                    );
                    assert(self@ =~= step_core(insts@, old(self)@, line_view(input)));
                }
            },
            Tokens::Print => {
                let mut q: usize = 0;
                while q < e.repeat
                    invariant
                        q <= e.repeat,
                        emitted@.len() == q,
                        forall|m: int| 0 <= m < q ==> emitted@[m] == cell,
                    decreases e.repeat - q,
                {
                    emitted.push(cell);
                    q = q + 1;
                }
                self.pc = self.pc + 1;
                proof {
                    assert(emitted@ =~= step_emit(insts@, old(self)@));
                    assert(self@ =~= step_core(insts@, old(self)@, line_view(input)));
                }
            },
            Tokens::TakeInput => {
                let parsed: Option<u8> = match input {
                    Some(l) => parse_cell(l),
                    None => None,
                };
                match parsed {
                    Some(v) => {
                        self.tape[cur] = v;
                    },
                    None => {},
                }
                self.pc = self.pc + 1;
                proof {
                    assert(self@ =~= step_core(insts@, old(self)@, line_view(input)));
                }
            },
            Tokens::StartLoop => {
                if cell == 0 {
                    self.pc = e.matching_bracket.unwrap() + 1;
                } else {
                    self.pc = self.pc + 1;
                }
                proof {
                    assert(self@ =~= step_core(insts@, old(self)@, line_view(input)));
                }
            },
            Tokens::EndLoop => {
                if cell != 0 {
                    self.pc = e.matching_bracket.unwrap();
                } else {
                    self.pc = self.pc + 1;
                }
                proof {
                    assert(self@ =~= step_core(insts@, old(self)@, line_view(input)));
                }
            },
        }
        emitted
    }
}

/// What a bounded run of a program hands back.
#[derive(Debug)]
pub struct ExecOutcome {
    /// The final tape contents.
    pub tape: Vec<u8>,
    /// Every byte the program emitted, in order.
    pub output: Vec<u8>,
    /// Whether the program ran to completion within the step budget; when
    /// false, tape and output are a snapshot after exactly the budgeted
    /// number of steps.
    pub halted: bool,
}

/// Runs an assembled instruction list for at most `max_steps` steps on an
/// all-zero tape. `inputs` holds the input lines in the order the `,`
/// instructions will read them; once they run out, reads behave as
/// end-of-input (a parse failure, leaving the cell unchanged). The result
/// is exactly the machine model's state after the bounded run.
pub fn execute(insts: &Vec<ASTEntry>, inputs: &Vec<String>, max_steps: u64) -> (r: ExecOutcome)
    requires
        insts_wf(insts@),
    ensures
        ({
            let m = run_upto(insts@, init_machine(inputs.deep_view()), max_steps as nat);
            &&& r.tape@ == m.core.tape
            &&& r.output@ == m.outputs
            &&& r.halted == machine_halted(insts@, m)
        }),
{
    let ghost m0 = init_machine(inputs.deep_view());
    let mut st = ExecutionState::new();
    let mut out: Vec<u8> = Vec::new();
    let mut next_input: usize = 0;
    let mut steps: u64 = 0;
    while steps < max_steps && st.pc < insts.len()
        invariant
            insts_wf(insts@),
            core_wf(st@),
            steps <= max_steps,
            next_input <= inputs@.len(),
            m0 == init_machine(inputs.deep_view()),
            ({
                let m = run_upto(insts@, m0, steps as nat);
                &&& m.core == st@
                &&& m.outputs == out@
                &&& m.inputs == inputs.deep_view().skip(next_input as int)
            }),
        decreases max_steps - steps,
    {
        let ghost m_cur = run_upto(insts@, m0, steps as nat);
        let wants = st.wants_input(insts);
        let mut line_opt: Option<&str> = None;
        if wants && next_input < inputs.len() {
            line_opt = Some(inputs[next_input].as_str());
            next_input = next_input + 1;
        }
        proof {
            assert(inputs.deep_view().len() == inputs@.len());
            if step_consumes(insts@, m_cur.core) && m_cur.inputs.len() > 0 {
                assert(m_cur.inputs[0] == inputs.deep_view()[next_input - 1]);
                assert(inputs.deep_view()[next_input - 1] == inputs@[next_input - 1]@);
                assert(m_cur.inputs.skip(1) =~= inputs.deep_view().skip(next_input as int));
            }
        }
        let mut emitted = st.step(insts, line_opt);
        out.append(&mut emitted);
        proof {
            lemma_run_upto_snoc(insts@, m0, steps as nat);
            assert(run_upto(insts@, m0, (steps + 1) as nat) =~= MachineState {
                core: st@,
                inputs: inputs.deep_view().skip(next_input as int),
                outputs: out@,
            });
        }
        steps = steps + 1;
    }
    proof {
        if steps < max_steps {
            lemma_run_upto_stable(insts@, m0, steps as nat, max_steps as nat);
        }
    }
    let halted_now = st.pc >= insts.len();
    ExecOutcome { tape: st.tape, output: out, halted: halted_now }
}

/// Assembles and then executes a program, with a step budget: the whole
/// pipeline of one run. Fails with `UnbalancedBrackets` exactly when the
/// program's brackets do not nest correctly; otherwise the outcome is the
/// machine model's state after running the assembled program on the given
/// input lines for at most `max_steps` steps.
pub fn run(program: String, inputs: &Vec<String>, max_steps: u64) -> (r: Result<
    ExecOutcome,
    AssembleError,
>)
    ensures
        r is Ok <==> balanced(lex_spec(program@)),
        r matches Err(e) ==> e == AssembleError::UnbalancedBrackets,
        r matches Ok(out) ==> ({
            let insts = spec_assemble(lex_spec(program@))->0;
            let m = run_upto(insts, init_machine(inputs.deep_view()), max_steps as nat);
            &&& out.tape@ == m.core.tape
            &&& out.output@ == m.outputs
            &&& out.halted == machine_halted(insts, m)
        }),
{
    let insts = match assemble(program) {
        Ok(v) => v,
        Err(e) => {
            return Err(e);
        },
    };
    Ok(execute(&insts, inputs, max_steps))
}

/// Cursor movement wraps at both tape ends: a single `<` at cursor 0 moves
/// the cursor to the last tape index, and a single `>` at the last index
/// moves it back to 0.
pub proof fn lemma_cursor_wraps(insts: Seq<ASTEntry>, c: CoreState, line: Option<Seq<char>>)
    requires
        core_wf(c),
        c.pc < insts.len(),
        insts[c.pc as int].repeat == 1,
    ensures
        insts[c.pc as int].token == Tokens::ShiftLeft && c.cursor == 0 ==> step_core(
            insts,
            c,
            line,
        ).cursor == MEMORY_SIZE - 1,
        insts[c.pc as int].token == Tokens::ShiftRight && c.cursor == MEMORY_SIZE - 1
            ==> step_core(insts, c, line).cursor == 0,
{
    let m = MEMORY_SIZE as int;
    assert((0 - 1) % m == m - 1) by {
        lemma_mod_add_multiples_vanish(-1, m);
        lemma_small_mod((m - 1) as nat, m as nat);
    }
    assert(((m - 1) + 1) % m == 0) by {
        lemma_mod_add_multiples_vanish(0, m);
        lemma_small_mod(0, m as nat);
    }
}

proof fn lemma_many_increments(k: usize, inputs: Seq<Seq<char>>, j: nat)
    requires
        1 <= k,
        j <= k,
    ensures
        ({
            let many = Seq::new(
                k as nat,
                |m: int| ASTEntry { token: Tokens::Increment, repeat: 1, matching_bracket: None },
            );
            let mj = run_upto(many, init_machine(inputs), j);
            &&& mj.core.pc == j
            &&& mj.core.cursor == 0
            &&& mj.core.tape.len() == MEMORY_SIZE
            &&& mj.core.tape[0] == (j % 256) as u8
            &&& (forall|q: int| 1 <= q < MEMORY_SIZE ==> mj.core.tape[q] == 0u8)
            &&& mj.inputs == inputs
            &&& mj.outputs == Seq::<u8>::empty()
        }),
    decreases j,
{
    let many = Seq::new(
        k as nat,
        |m: int| ASTEntry { token: Tokens::Increment, repeat: 1, matching_bracket: None },
    );
    if j == 0 {
        assert(run_upto(many, init_machine(inputs), 0) == init_machine(inputs));
        assert(init_core().tape[0] == 0u8);
    } else {
        lemma_many_increments(k, inputs, (j - 1) as nat);
        let prev = run_upto(many, init_machine(inputs), (j - 1) as nat);
        assert(!machine_halted(many, prev));
        lemma_run_upto_snoc(many, init_machine(inputs), (j - 1) as nat);
        let stepped = machine_step(many, prev);
        assert(many[prev.core.pc as int].token == Tokens::Increment);
        assert(stepped.core.tape[0] == (((prev.core.tape[0] as int) + 1) % 256) as u8);
        assert((((j - 1) % 256) + 1) % 256 == j % 256) by {
            lemma_add_mod_noop_right(1, j - 1, 256);
        }
        assert(stepped.outputs =~= prev.outputs);
    }
}

/// Run-length collapsing is observationally transparent for `+`: the one
/// collapsed instruction carrying repeat count k leaves exactly the tape
/// that k separate single increments leave, with the same (empty) output,
/// and both programs halt.
pub proof fn lemma_collapsed_increment_equiv(k: usize, inputs: Seq<Seq<char>>)
    requires
        1 <= k,
    ensures
        ({
            let single = collapse(Seq::new(k as nat, |m: int| Tokens::Increment));
            let many = Seq::new(
                k as nat,
                |m: int| ASTEntry { token: Tokens::Increment, repeat: 1, matching_bracket: None },
            );
            let m1 = run_upto(single, init_machine(inputs), 1);
            let m2 = run_upto(many, init_machine(inputs), k as nat);
            &&& m1.core.tape == m2.core.tape
            &&& m1.outputs == m2.outputs
            &&& machine_halted(single, m1)
            &&& machine_halted(many, m2)
        }),
{
    lemma_plus_run_collapses(k);
    let single = collapse(Seq::new(k as nat, |m: int| Tokens::Increment));
    let many = Seq::new(
        k as nat,
        |m: int| ASTEntry { token: Tokens::Increment, repeat: 1, matching_bracket: None },
    );
    let start = init_machine(inputs);
    assert(!machine_halted(single, run_upto(single, start, 0)));
    lemma_run_upto_snoc(single, start, 0);
    let m1 = run_upto(single, start, 1);
    assert(m1 == machine_step(single, start));
    assert(single[0].token == Tokens::Increment && single[0].repeat == k);
    lemma_many_increments(k, inputs, k as nat);
    let m2 = run_upto(many, start, k as nat);
    assert(m1.core.tape =~= m2.core.tape) by {
        assert(init_core().tape[0] == 0u8);
        assert(m1.core.tape == init_core().tape.update(0, (((0) + k) % 256) as u8));
        assert(m2.core.tape[0] == (k % 256) as u8);
        assert(forall|q: int| 1 <= q < MEMORY_SIZE ==> m2.core.tape[q] == 0u8);
    }
    assert(m1.outputs =~= m2.outputs);
}

} // verus!
