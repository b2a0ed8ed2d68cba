use vstd::prelude::*;
use vstd::arithmetic::power2::{
    pow2, lemma2_to64, lemma2_to64_rest, lemma_pow2_pos, lemma_pow2_strictly_increases,
};
use vstd::arithmetic::div_mod::{lemma_basic_div, lemma_div_is_ordered_by_denominator};
use vstd::bits::lemma_u64_shr_is_div;

verus! {

/// Largest number of instructions that one execution may take before it is
/// abandoned with `MachineError::StepLimitExceeded`.
pub const STEP_LIMIT: u64 = 1000000;

/// Why an execution stopped without halting normally.
#[derive(Clone, Copy, Debug, PartialEq, Eq, Structural)]
pub enum MachineError {
    /// Combo operand 7 was read, an opcode or operand lay outside `0..=7`,
    /// an instruction had no operand, or a jump left the program.
    MalformedProgram,
    /// The program was still running after `STEP_LIMIT` instructions.
    StepLimitExceeded,
}

/// The eight instructions, by their numeric code.
#[derive(Clone, Copy, Debug, PartialEq, Eq, Structural)]
pub enum Opcode {
    Adv,
    Bxl,
    Bst,
    Jnz,
    Bxc,
    Out,
    Bdv,
    Cdv,
}

pub open spec fn opcode_of(code: u64) -> Option<Opcode> {
    if code == 0 {
        Some(Opcode::Adv)
    } else if code == 1 {
        Some(Opcode::Bxl)
    } else if code == 2 {
        Some(Opcode::Bst)
    } else if code == 3 {
        Some(Opcode::Jnz)
    } else if code == 4 {
        Some(Opcode::Bxc)
    } else if code == 5 {
        Some(Opcode::Out)
    } else if code == 6 {
        Some(Opcode::Bdv)
    } else if code == 7 {
        Some(Opcode::Cdv)
    } else {
        None
    }
}

impl Opcode {
    pub fn from_code(code: u64) -> (r: Option<Opcode>)
        ensures
            r == opcode_of(code),
    {
        match code {
            0 => Some(Opcode::Adv),
            1 => Some(Opcode::Bxl),
            2 => Some(Opcode::Bst),
            3 => Some(Opcode::Jnz),
            4 => Some(Opcode::Bxc),
            5 => Some(Opcode::Out),
            6 => Some(Opcode::Bdv),
            7 => Some(Opcode::Cdv),
            _ => None,
        }
    }

    /// Executes this instruction with `operand` on `computer`.
    pub fn apply(self, computer: &mut Computer, operand: u64) -> (r: Result<Option<u64>, MachineError>)
        requires
            old(computer).regs.inst_ptr + 2 <= old(computer).program.len(),
        ensures
            final(computer).program == old(computer).program,
            outcome_matches(
                r,
                final(computer).regs,
                apply_of(self, old(computer).regs, operand, old(computer).program.len() as nat),
            ),
    {
        match self {
            Opcode::Adv => computer.adv(operand),
            Opcode::Bxl => computer.bxl(operand),
            Opcode::Bst => computer.bst(operand),
            Opcode::Jnz => computer.jnz(operand),
            Opcode::Bxc => computer.bxc(operand),
            Opcode::Out => computer.out(operand),
            Opcode::Bdv => computer.bdv(operand),
            Opcode::Cdv => computer.cdv(operand),
        }
    }
}

/// The three registers and the instruction pointer.
#[derive(Clone, Copy, Debug, PartialEq, Eq, Structural)]
pub struct Registers {
    pub a: u64,
    pub b: u64,
    pub c: u64,
    pub inst_ptr: usize,
}

/// The machine's state before the first instruction, with `a` in register A.
pub open spec fn initial(a: u64) -> Registers {
    Registers { a, b: 0, c: 0, inst_ptr: 0 }
}

/// Value of a combo operand: 0 to 3 stand for themselves, 4 to 6 read
/// A, B and C, and 7 (or anything larger) has no value.
pub open spec fn combo_of(r: Registers, operand: u64) -> Option<u64> {
    if operand <= 3 {
        Some(operand)
    } else if operand == 4 {
        Some(r.a)
    } else if operand == 5 {
        Some(r.b)
    } else if operand == 6 {
        Some(r.c)
    } else {
        None
    }
}

/// `floor(a / 2^v)`.
pub open spec fn shifted(a: u64, v: u64) -> u64 {
    (a as nat / pow2(v as nat)) as u64
}

pub open spec fn with_a(r: Registers, a: u64) -> Registers {
    Registers { a, b: r.b, c: r.c, inst_ptr: r.inst_ptr }
}

pub open spec fn with_b(r: Registers, b: u64) -> Registers {
    Registers { a: r.a, b, c: r.c, inst_ptr: r.inst_ptr }
}

pub open spec fn with_c(r: Registers, c: u64) -> Registers {
    Registers { a: r.a, b: r.b, c, inst_ptr: r.inst_ptr }
}

pub open spec fn jumped(r: Registers, target: int) -> Registers {
    Registers { a: r.a, b: r.b, c: r.c, inst_ptr: target as usize }
}

/// `r` with the instruction pointer moved past the current instruction.
pub open spec fn advanced(r: Registers) -> Registers {
    jumped(r, r.inst_ptr + 2)
}

/// What one instruction does to the registers, and the digit it emits, in a
/// program of `len` entries.
pub open spec fn apply_of(op: Opcode, r: Registers, operand: u64, len: nat) -> Result<
    (Registers, Option<u64>),
    MachineError,
> {
    match op {
        Opcode::Bxl => Ok((with_b(advanced(r), r.b ^ operand), None)),
        Opcode::Bxc => Ok((with_b(advanced(r), r.b ^ r.c), None)),
        Opcode::Jnz => if r.a == 0 {
            Ok((advanced(r), None))
        } else if operand % 2 == 0 && operand < len {
            Ok((jumped(r, operand as int), None))
        } else {
            Err(MachineError::MalformedProgram)
        },
        _ => match combo_of(r, operand) {
            None => Err(MachineError::MalformedProgram),
            Some(v) => match op {
                Opcode::Adv => Ok((with_a(advanced(r), shifted(r.a, v)), None)),
                Opcode::Bst => Ok((with_b(advanced(r), v % 8), None)),
                Opcode::Out => Ok((advanced(r), Some(v % 8))),
                Opcode::Bdv => Ok((with_b(advanced(r), shifted(r.a, v)), None)),
                _ => Ok((with_c(advanced(r), shifted(r.a, v)), None)),
            },
        },
    }
}

/// One cycle: fetch the instruction at the pointer and apply it.
pub open spec fn step_of(r: Registers, p: Seq<u64>) -> Result<(Registers, Option<u64>), MachineError> {
    if r.inst_ptr + 1 < p.len() && p[r.inst_ptr + 1] <= 7 {
        match opcode_of(p[r.inst_ptr as int]) {
            Some(op) => apply_of(op, r, p[r.inst_ptr + 1], p.len()),
            None => Err(MachineError::MalformedProgram),
        }
    } else {
        Err(MachineError::MalformedProgram)
    }
}

/// Output digits of one step, as a sequence.
pub open spec fn emitted(o: Option<u64>) -> Seq<u64> {
    match o {
        Some(v) => seq![v],
        None => Seq::empty(),
    }
}

/// `s` followed by the outputs in `r`, or the error in `r`.
pub open spec fn prepend(s: Seq<u64>, r: Result<Seq<u64>, MachineError>) -> Result<
    Seq<u64>,
    MachineError,
> {
    match r {
        Ok(t) => Ok(s + t),
        Err(e) => Err(e),
    }
}

/// Everything the machine emits from state `r` on, given at most `fuel`
/// more instructions: it halts once the pointer reaches the end.
pub open spec fn run_of(r: Registers, p: Seq<u64>, fuel: nat) -> Result<Seq<u64>, MachineError>
    decreases fuel,
{
    if r.inst_ptr >= p.len() {
        Ok(Seq::empty())
    } else if fuel == 0 {
        Err(MachineError::StepLimitExceeded)
    } else {
        match step_of(r, p) {
            Err(e) => Err(e),
            Ok((next, o)) => prepend(emitted(o), run_of(next, p, (fuel - 1) as nat)),
        }
    }
}

/// The first digit the machine emits from state `r` on, or `None` where it
/// halts first, given at most `fuel` more instructions.
pub open spec fn first_output_from(r: Registers, p: Seq<u64>, fuel: nat) -> Result<
    Option<u64>,
    MachineError,
>
    decreases fuel,
{
    if r.inst_ptr >= p.len() {
        Ok(None)
    } else if fuel == 0 {
        Err(MachineError::StepLimitExceeded)
    } else {
        match step_of(r, p) {
            Err(e) => Err(e),
            Ok((next, o)) => match o {
                Some(v) => Ok(Some(v)),
                None => first_output_from(next, p, (fuel - 1) as nat),
            },
        }
    }
}

/// The full output of program `p` started with `a` in register A.
pub open spec fn execution(a: u64, p: Seq<u64>) -> Result<Seq<u64>, MachineError> {
    run_of(initial(a), p, STEP_LIMIT as nat)
}

/// The first output digit of program `p` started with `a` in register A.
pub open spec fn first_output(a: u64, p: Seq<u64>) -> Result<Option<u64>, MachineError> {
    first_output_from(initial(a), p, STEP_LIMIT as nat)
}

pub open spec fn seq_result(r: Result<Vec<u64>, MachineError>) -> Result<Seq<u64>, MachineError> {
    match r {
        Ok(v) => Ok(v@),
        Err(e) => Err(e),
    }
}

/// An instruction method returned `r` and left `after` in the registers, as
/// `expected` says.
pub open spec fn outcome_matches(
    r: Result<Option<u64>, MachineError>,
    after: Registers,
    expected: Result<(Registers, Option<u64>), MachineError>,
) -> bool {
    match expected {
        Ok((regs, o)) => r == Ok::<Option<u64>, MachineError>(o) && after == regs,
        Err(e) => r == Err::<Option<u64>, MachineError>(e),
    }
}

/// A machine loaded with a program.
pub struct Computer {
    pub regs: Registers,
    pub program: Vec<u64>,
}

impl Computer {
    /// A machine about to run `program` with `a` in register A.
    pub fn new(a: u64, program: Vec<u64>) -> (r: Computer)
        ensures
            r.regs == initial(a),
            r.program == program,
    {
        Computer { regs: Registers { a, b: 0, c: 0, inst_ptr: 0 }, program }
    }

    /// Clears B, C and the pointer and loads `a` into register A.
    pub fn reset(&mut self, a: u64)
        ensures
            final(self).program == old(self).program,
            final(self).regs == initial(a),
    {
        self.regs = Registers { a, b: 0, c: 0, inst_ptr: 0 };
    }

    /// Executes the instruction at the pointer.
    pub fn step(&mut self) -> (r: Result<Option<u64>, MachineError>)
        requires
            old(self).regs.inst_ptr < old(self).program.len(),
        ensures
            final(self).program == old(self).program,
            outcome_matches(r, final(self).regs, step_of(old(self).regs, old(self).program@)),
    {
        let ip = self.regs.inst_ptr;
        if ip + 1 >= self.program.len() {
            return Err(MachineError::MalformedProgram);
        }
        let operand = self.program[ip + 1];
        if operand > 7 {
            return Err(MachineError::MalformedProgram);
        }
        match Opcode::from_code(self.program[ip]) {
            Some(opcode) => opcode.apply(self, operand),
            None => Err(MachineError::MalformedProgram),
        }
    }

    /// Runs until the pointer leaves the program, and returns every digit
    /// emitted on the way.
    pub fn run(&mut self) -> (r: Result<Vec<u64>, MachineError>)
        ensures
            final(self).program == old(self).program,
            seq_result(r) == run_of(old(self).regs, old(self).program@, STEP_LIMIT as nat),
    {
        let mut out: Vec<u64> = Vec::new();
        let mut steps: u64 = 0;
        while self.regs.inst_ptr < self.program.len()
            invariant
                self.program == old(self).program,
                steps <= STEP_LIMIT,
                prepend(out@, run_of(self.regs, self.program@, (STEP_LIMIT - steps) as nat))
                    == run_of(old(self).regs, old(self).program@, STEP_LIMIT as nat),
            decreases STEP_LIMIT - steps,
        {
            if steps == STEP_LIMIT {
                return Err(MachineError::StepLimitExceeded);
            }
            let ghost before = self.regs;
            let ghost out_before = out@;
            match self.step() {
                Err(e) => {
                    return Err(e);
                },
                Ok(o) => {
                    if let Some(v) = o {
                        out.push(v);
                    }
                    steps = steps + 1;
                    proof {
                        let rest = run_of(self.regs, self.program@, (STEP_LIMIT - steps) as nat);
                        assert(out@ == out_before + emitted(o));
                        match rest {
                            Ok(t) => {
                                assert(out_before + (emitted(o) + t) == out@ + t);
                            },
                            Err(e) => {},
                        }
                    }
                },
            }
        }
        proof {
            assert(out@ + Seq::<u64>::empty() == out@);
        }
        Ok(out)
    }

    /// Runs until the first digit is emitted, and returns it; `None` where
    /// the machine halts without emitting one.
    pub fn run_until_output(&mut self) -> (r: Result<Option<u64>, MachineError>)
        ensures
            final(self).program == old(self).program,
            r == first_output_from(old(self).regs, old(self).program@, STEP_LIMIT as nat),
    {
        let mut steps: u64 = 0;
        while self.regs.inst_ptr < self.program.len()
            invariant
                self.program == old(self).program,
                steps <= STEP_LIMIT,
                first_output_from(self.regs, self.program@, (STEP_LIMIT - steps) as nat)
                    == first_output_from(old(self).regs, old(self).program@, STEP_LIMIT as nat),
            decreases STEP_LIMIT - steps,
        {
            if steps == STEP_LIMIT {
                return Err(MachineError::StepLimitExceeded);
            }
            match self.step() {
                Err(e) => {
                    return Err(e);
                },
                Ok(Some(v)) => {
                    return Ok(Some(v));
                },
                Ok(None) => {
                    steps = steps + 1;
                },
            }
        }
        Ok(None)
    }
    /// The value of combo operand `op`.
    pub fn get_combo(&self, op: u64) -> (r: Result<u64, MachineError>)
        ensures
            match combo_of(self.regs, op) {
                Some(v) => r == Ok::<u64, MachineError>(v),
                None => r == Err::<u64, MachineError>(MachineError::MalformedProgram),
            },
    {
        match op {
            0..=3 => Ok(op),
            4 => Ok(self.regs.a),
            5 => Ok(self.regs.b),
            6 => Ok(self.regs.c),
            _ => Err(MachineError::MalformedProgram),
        }
    }

    /// Register A divided by two to the power of the combo operand.
    pub fn divide(&self, op: u64) -> (r: Result<u64, MachineError>)
        ensures
            match combo_of(self.regs, op) {
                Some(v) => r == Ok::<u64, MachineError>(shifted(self.regs.a, v)) && (v == 0
                    ==> shifted(self.regs.a, v) == self.regs.a) && (v >= 64 ==> shifted(
                    self.regs.a,
                    v,
                ) == 0),
                None => r == Err::<u64, MachineError>(MachineError::MalformedProgram),
            },
    {
        let v = self.get_combo(op)?;
        let a = self.regs.a;
        proof {
            lemma_shifted_bounds(a, v);
        }
        if v >= 64 {
            Ok(0)
        } else {
            proof {
                lemma_u64_shr_is_div(a, v);
            }
            Ok(a >> v)
        }
    }

    /// Moves the pointer past the current instruction.
    pub fn advance_inst_ptr(&mut self)
        requires
            old(self).regs.inst_ptr + 2 <= old(self).program.len(),
        ensures
            final(self).program == old(self).program,
            final(self).regs == advanced(old(self).regs),
    {
        self.regs.inst_ptr = self.regs.inst_ptr + 2;
    }

    /// `adv`: A becomes A divided by two to the power of the combo operand.
    pub fn adv(&mut self, op: u64) -> (r: Result<Option<u64>, MachineError>)
        requires
            old(self).regs.inst_ptr + 2 <= old(self).program.len(),
        ensures
            final(self).program == old(self).program,
            outcome_matches(
                r,
                final(self).regs,
                apply_of(Opcode::Adv, old(self).regs, op, old(self).program.len() as nat),
            ),
    {
        self.regs.a = self.divide(op)?;
        self.advance_inst_ptr();
        Ok(None)
    }

    /// `bxl`: B becomes B XOR the literal operand.
    pub fn bxl(&mut self, op: u64) -> (r: Result<Option<u64>, MachineError>)
        requires
            old(self).regs.inst_ptr + 2 <= old(self).program.len(),
        ensures
            final(self).program == old(self).program,
            outcome_matches(
                r,
                final(self).regs,
                apply_of(Opcode::Bxl, old(self).regs, op, old(self).program.len() as nat),
            ),
    {
        self.regs.b = self.regs.b ^ op;
        self.advance_inst_ptr();
        Ok(None)
    }

    /// `bst`: B becomes the combo operand modulo 8.
    pub fn bst(&mut self, op: u64) -> (r: Result<Option<u64>, MachineError>)
        requires
            old(self).regs.inst_ptr + 2 <= old(self).program.len(),
        ensures
            final(self).program == old(self).program,
            outcome_matches(
                r,
                final(self).regs,
                apply_of(Opcode::Bst, old(self).regs, op, old(self).program.len() as nat),
            ),
    {
        self.regs.b = self.get_combo(op)? % 8;
        self.advance_inst_ptr();
        Ok(None)
    }

    /// `jnz`: where A is not 0, jumps to the literal operand; else moves on.
    pub fn jnz(&mut self, op: u64) -> (r: Result<Option<u64>, MachineError>)
        requires
            old(self).regs.inst_ptr + 2 <= old(self).program.len(),
        ensures
            final(self).program == old(self).program,
            outcome_matches(
                r,
                final(self).regs,
                apply_of(Opcode::Jnz, old(self).regs, op, old(self).program.len() as nat),
            ),
    {
        if self.regs.a == 0 {
            self.advance_inst_ptr();
        } else if op % 2 == 0 && op < self.program.len() as u64 {
            self.regs.inst_ptr = op as usize;
        } else {
            return Err(MachineError::MalformedProgram);
        }
        Ok(None)
    }

    /// `bxc`: B becomes B XOR C; the operand is not read.
    pub fn bxc(&mut self, op: u64) -> (r: Result<Option<u64>, MachineError>)
        requires
            old(self).regs.inst_ptr + 2 <= old(self).program.len(),
        ensures
            final(self).program == old(self).program,
            outcome_matches(
                r,
                final(self).regs,
                apply_of(Opcode::Bxc, old(self).regs, op, old(self).program.len() as nat),
            ),
    {
        self.regs.b = self.regs.b ^ self.regs.c;
        self.advance_inst_ptr();
        Ok(None)
    }

    /// `out`: emits the combo operand modulo 8.
    pub fn out(&mut self, op: u64) -> (r: Result<Option<u64>, MachineError>)
        requires
            old(self).regs.inst_ptr + 2 <= old(self).program.len(),
        ensures
            final(self).program == old(self).program,
            outcome_matches(
                r,
                final(self).regs,
                apply_of(Opcode::Out, old(self).regs, op, old(self).program.len() as nat),
            ),
    {
        let v = self.get_combo(op)? % 8;
        self.advance_inst_ptr();
        Ok(Some(v))
    }

    /// `bdv`: B becomes A divided by two to the power of the combo operand.
    pub fn bdv(&mut self, op: u64) -> (r: Result<Option<u64>, MachineError>)
        requires
            old(self).regs.inst_ptr + 2 <= old(self).program.len(),
        ensures
            final(self).program == old(self).program,
            outcome_matches(
                r,
                final(self).regs,
                apply_of(Opcode::Bdv, old(self).regs, op, old(self).program.len() as nat),
            ),
    {
        self.regs.b = self.divide(op)?;
        self.advance_inst_ptr();
        Ok(None)
    }

    /// `cdv`: C becomes A divided by two to the power of the combo operand.
    pub fn cdv(&mut self, op: u64) -> (r: Result<Option<u64>, MachineError>)
        requires
            old(self).regs.inst_ptr + 2 <= old(self).program.len(),
        ensures
            final(self).program == old(self).program,
            outcome_matches(
                r,
                final(self).regs,
                apply_of(Opcode::Cdv, old(self).regs, op, old(self).program.len() as nat),
            ),
    {
        self.regs.c = self.divide(op)?;
        self.advance_inst_ptr();
        Ok(None)
    }
}

/// Runs `program` from `initial_a` until it halts and returns every digit it
/// emitted, in order.
pub fn execute(initial_a: u64, program: &Vec<u64>) -> (r: Result<Vec<u64>, MachineError>)
    ensures
        seq_result(r) == execution(initial_a, program@),
{
    let mut computer = Computer::new(initial_a, program.clone());
    proof {
        assert(computer.program@ =~= program@);
    }
    computer.run()
}

/// Runs `program` from `initial_a` only until it emits its first digit, and
/// returns that digit; `None` where it halts without emitting one.
pub fn execute_until_first_output(initial_a: u64, program: &Vec<u64>) -> (r: Result<
    Option<u64>,
    MachineError,
>)
    ensures
        r == first_output(initial_a, program@),
{
    let mut computer = Computer::new(initial_a, program.clone());
    proof {
        assert(computer.program@ =~= program@);
    }
    computer.run_until_output()
}

/// The output of a run is fixed by the starting value of A and the program
/// alone: two runs from the same value on the same program emit the same
/// digits, or fail in the same way.
pub proof fn lemma_execution_deterministic(a: u64, prog: Seq<u64>, b: u64, other: Seq<u64>)
    requires
        a == b,
        prog == other,
    ensures
        execution(a, prog) == execution(b, other),
        first_output(a, prog) == first_output(b, other),
{
}

proof fn lemma_first_output_from_is_head(r: Registers, p: Seq<u64>, fuel: nat)
    ensures
        run_of(r, p, fuel) is Ok ==> first_output_from(r, p, fuel) == Ok::<Option<u64>, MachineError>(
            if run_of(r, p, fuel)->Ok_0.len() > 0 {
                Some(run_of(r, p, fuel)->Ok_0[0])
            } else {
                None
            },
        ),
    decreases fuel,
{
    if r.inst_ptr < p.len() && fuel > 0 {
        match step_of(r, p) {
            Err(e) => {},
            Ok((next, o)) => {
                lemma_first_output_from_is_head(next, p, (fuel - 1) as nat);
                match run_of(next, p, (fuel - 1) as nat) {
                    Ok(t) => {
                        if o is Some {
                            assert((emitted(o) + t)[0] == o->Some_0);
                        } else {
                            assert(emitted(o) + t =~= t);
                        }
                    },
                    Err(e) => {},
                }
            },
        }
    }
}

/// Stopping at the first emitted digit gives the first digit of the full
/// run, whenever the full run succeeds with some output; and `None` where it
/// succeeds with none.
pub proof fn lemma_first_output_is_head(a: u64, p: Seq<u64>)
    ensures
        execution(a, p) is Ok && execution(a, p)->Ok_0.len() > 0 ==> first_output(a, p)
            == Ok::<Option<u64>, MachineError>(Some(execution(a, p)->Ok_0[0])),
        execution(a, p) is Ok && execution(a, p)->Ok_0.len() == 0 ==> first_output(a, p)
            == Ok::<Option<u64>, MachineError>(None),
{
    lemma_first_output_from_is_head(initial(a), p, STEP_LIMIT as nat);
}

/// Every digit a run emits is below 8.
pub proof fn lemma_outputs_octal(r: Registers, p: Seq<u64>, fuel: nat)
    ensures
        run_of(r, p, fuel) is Ok ==> forall|i: int|
            0 <= i < run_of(r, p, fuel)->Ok_0.len() ==> #[trigger] run_of(r, p, fuel)->Ok_0[i] < 8,
    decreases fuel,
{
    if r.inst_ptr < p.len() && fuel > 0 {
        match step_of(r, p) {
            Err(e) => {},
            Ok((next, o)) => {
                lemma_outputs_octal(next, p, (fuel - 1) as nat);
            },
        }
    }
}

/// `adv`, `bdv` and `cdv` store `floor(A / 2^v)` in A, B and C, where `v` is
/// the value of the combo operand: A itself where `v` is 0, and 0 where `v`
/// is 64 or more.
pub proof fn lemma_division_instructions(r: Registers, operand: u64, len: nat)
    requires
        combo_of(r, operand) is Some,
    ensures
        ({
            let v = combo_of(r, operand)->Some_0;
            let q = r.a as nat / pow2(v as nat);
            &&& apply_of(Opcode::Adv, r, operand, len) == Ok::<_, MachineError>(
                (with_a(advanced(r), q as u64), None::<u64>),
            )
            &&& apply_of(Opcode::Bdv, r, operand, len) == Ok::<_, MachineError>(
                (with_b(advanced(r), q as u64), None::<u64>),
            )
            &&& apply_of(Opcode::Cdv, r, operand, len) == Ok::<_, MachineError>(
                (with_c(advanced(r), q as u64), None::<u64>),
            )
            &&& v == 0 ==> q == r.a
            &&& v >= 64 ==> q == 0
        }),
{
    lemma_shifted_bounds(r.a, combo_of(r, operand)->Some_0);
}

/// `jnz` leaves the flow alone where A is 0, moving on by one instruction,
/// and otherwise sets the pointer to exactly its literal operand.
pub proof fn lemma_jump_instruction(r: Registers, operand: u64, len: nat)
    requires
        operand % 2 == 0,
        operand < len,
        r.inst_ptr + 2 <= len <= usize::MAX,
    ensures
        r.a == 0 ==> apply_of(Opcode::Jnz, r, operand, len) == Ok::<_, MachineError>(
            (advanced(r), None::<u64>),
        ),
        r.a == 0 ==> advanced(r).inst_ptr == r.inst_ptr + 2,
        r.a != 0 ==> apply_of(Opcode::Jnz, r, operand, len) == Ok::<_, MachineError>(
            (jumped(r, operand as int), None::<u64>),
        ),
        r.a != 0 ==> jumped(r, operand as int).inst_ptr == operand,
{
}

/// `out` emits the value of its combo operand modulo 8 and changes no
/// register.
pub proof fn lemma_output_instruction(r: Registers, operand: u64, len: nat)
    requires
        combo_of(r, operand) is Some,
    ensures
        apply_of(Opcode::Out, r, operand, len) == Ok::<_, MachineError>(
            (advanced(r), Some(combo_of(r, operand)->Some_0 % 8)),
        ),
{
}

proof fn lemma_shifted_bounds(a: u64, v: u64)
    ensures
        shifted(a, v) == a as nat / pow2(v as nat),
        v == 0 ==> shifted(a, v) == a,
        v >= 64 ==> shifted(a, v) == 0,
{
    lemma2_to64();
    lemma2_to64_rest();
    lemma_pow2_pos(v as nat);
    lemma_div_is_ordered_by_denominator(a as int, 1, pow2(v as nat) as int);
    if v > 64 {
        lemma_pow2_strictly_increases(64, v as nat);
    }
    if v >= 64 {
        lemma_basic_div(a as int, pow2(v as nat) as int);
    }
}

} // verus!
