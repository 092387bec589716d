//! The execution engine: a fixed-size wrap-around tape of cells, a program
//! counter and a data pointer, stepped over a compiled program against a
//! byte channel.
//!
//! The meaning of execution is a small-step relation on `ExecState`
//! (`step`, `run`); `Machine::execute` is proved to leave machine and
//! channel exactly in some terminal state of that relation.

use vstd::prelude::*;

verus! {

use vstd::arithmetic::div_mod::lemma_add_mod_noop;
use vstd::arithmetic::div_mod::lemma_mod_add_multiples_vanish;
use vstd::arithmetic::div_mod::lemma_mod_bound;
use vstd::arithmetic::div_mod::lemma_mod_sub_multiples_vanish;
use vstd::arithmetic::div_mod::lemma_small_mod;
use vstd::arithmetic::div_mod::lemma_sub_mod_noop;

use crate::channel::ByteChannel;
use crate::program::Instruction;
use crate::program::Program;
use crate::value::Value;

/// The observable state of one execution: the tape cells as integers below
/// the cell modulus, the program counter, the data pointer, the input not
/// yet read, and the output written so far.
#[verifier::ext_equal]
pub struct ExecState {
    pub mem: Seq<nat>,
    pub pc: int,
    pub ptr: int,
    pub input: Seq<u8>,
    pub output: Seq<u8>,
}

/// The tape index addressed by `offset` relative to the data pointer,
/// wrapped modulo the tape length: never out of range, never a fault.
pub open spec fn tape_index(s: ExecState, offset: isize) -> int {
    (s.ptr + offset) % (s.mem.len() as int)
}

/// What one instruction does to the state.  Arithmetic wraps within the
/// cell width; reading from an exhausted input zero-fills the cell; a
/// bracket advances the real pointer by its offset and jumps when its cell
/// test says so.  The counter always advances by one afterwards.
pub open spec fn effect(inst: Instruction, m: nat, s: ExecState) -> ExecState
    recommends
        s.mem.len() > 0,
        m > 0,
{
    match inst {
        Instruction::Add { offset, amount } => {
            let i = tape_index(s, offset);
            ExecState {
                mem: s.mem.update(i, (((s.mem[i] + amount) % (m as int)) as nat)),
                pc: s.pc + 1,
                ..s
            }
        },
        Instruction::Output { offset } => {
            let i = tape_index(s, offset);
            ExecState { output: s.output.push(((s.mem[i] % 256) as u8)), pc: s.pc + 1, ..s }
        },
        Instruction::Input { offset } => {
            let i = tape_index(s, offset);
            if s.input.len() > 0 {
                ExecState {
                    mem: s.mem.update(i, s.input[0] as nat),
                    input: s.input.drop_first(),
                    pc: s.pc + 1,
                    ..s
                }
            } else {
                ExecState { mem: s.mem.update(i, 0), pc: s.pc + 1, ..s }
            }
        },
        Instruction::Open { offset, close_index } => {
            let i = tape_index(s, offset);
            let target = if s.mem[i] == 0 {
                close_index as int
            } else {
                s.pc
            };
            ExecState { pc: target + 1, ptr: i, ..s }
        },
        Instruction::Close { offset, open_index } => {
            let i = tape_index(s, offset);
            let target = if s.mem[i] != 0 {
                open_index as int
            } else {
                s.pc
            };
            ExecState { pc: target + 1, ptr: i, ..s }
        },
    }
}

/// One step of the engine: the effect of the instruction at `s.pc`.
pub open spec fn step(prog: Seq<Instruction>, m: nat, s: ExecState) -> ExecState
    recommends
        0 <= s.pc < prog.len(),
        s.mem.len() > 0,
        m > 0,
{
    effect(prog[s.pc], m, s)
}

/// The state after `k` steps, stopping early once the program counter has
/// left the instruction sequence.
pub open spec fn run(prog: Seq<Instruction>, m: nat, s: ExecState, k: nat) -> ExecState
    decreases k,
{
    if k == 0 || !(0 <= s.pc < prog.len()) {
        s
    } else {
        run(prog, m, step(prog, m, s), (k - 1) as nat)
    }
}

/// Running one more step from a non-terminal state appends one `step`.
pub proof fn lemma_run_step(prog: Seq<Instruction>, m: nat, s: ExecState, k: nat)
    requires
        0 <= run(prog, m, s, k).pc < prog.len(),
    ensures
        run(prog, m, s, (k + 1) as nat) == step(prog, m, run(prog, m, s, k)),
    decreases k,
{
    if !(0 <= s.pc < prog.len()) {
        assert(run(prog, m, s, k) == s);
        assert(false);
    } else if k == 0 {
        assert(run(prog, m, s, k) == s);
        assert(run(prog, m, s, 1) == run(prog, m, step(prog, m, s), 0));
    } else {
        assert(run(prog, m, s, k) == run(prog, m, step(prog, m, s), (k - 1) as nat));
        lemma_run_step(prog, m, step(prog, m, s), (k - 1) as nat);
        assert(run(prog, m, s, (k + 1) as nat) == run(prog, m, step(prog, m, s), k));
        assert(run(prog, m, step(prog, m, s), (((k - 1) as nat) + 1) as nat) == run(
            prog,
            m,
            step(prog, m, s),
            k,
        ));
    }
}

/// Runs compose: stepping `k1 + k2` times is stepping `k2` times from the
/// state after `k1` steps.  An execution interrupted by an exhausted fuel
/// budget therefore continues exactly where it stopped when handed fresh
/// fuel.
pub proof fn lemma_run_compose(prog: Seq<Instruction>, m: nat, s: ExecState, k1: nat, k2: nat)
    ensures
        run(prog, m, s, (k1 + k2) as nat) == run(prog, m, run(prog, m, s, k1), k2),
    decreases k1,
{
    if k1 > 0 && 0 <= s.pc < prog.len() {
        lemma_run_compose(prog, m, step(prog, m, s), (k1 - 1) as nat, k2);
    }
}

/// A run that has left the instruction sequence stays put: taking more
/// steps changes nothing.
pub proof fn lemma_run_stuck(prog: Seq<Instruction>, m: nat, s: ExecState, k: nat, k2: nat)
    requires
        k <= k2,
        !(0 <= run(prog, m, s, k).pc < prog.len()),
    ensures
        run(prog, m, s, k2) == run(prog, m, s, k),
    decreases k2,
{
    if k > 0 && 0 <= s.pc < prog.len() {
        lemma_run_stuck(prog, m, step(prog, m, s), (k - 1) as nat, (k2 - 1) as nat);
    }
}

/// The addressed tape index always lands inside the tape, whatever the
/// pointer and offset: moving past either end wraps to the opposite end.
pub proof fn lemma_tape_index_wraps(s: ExecState, offset: isize)
    requires
        s.mem.len() > 0,
    ensures
        0 <= tape_index(s, offset) < s.mem.len(),
        tape_index(s, offset) == (s.ptr + offset) % (s.mem.len() as int),
{
}

/// Executing an input instruction against an exhausted channel leaves the
/// addressed cell at zero and reads nothing.
pub proof fn lemma_input_on_exhausted_channel(prog: Seq<Instruction>, m: nat, s: ExecState)
    requires
        0 <= s.pc < prog.len(),
        prog[s.pc] matches Instruction::Input { .. },
        s.input.len() == 0,
        s.mem.len() > 0,
    ensures
        prog[s.pc] matches Instruction::Input { offset } ==> step(prog, m, s).mem[tape_index(
            s,
            offset,
        )] == 0,
        step(prog, m, s).input == s.input,
        step(prog, m, s).output == s.output,
{
}

/// The tape index `pointer + offset`, wrapped modulo the tape length `n`.
fn wrap_index(pointer: usize, offset: isize, n: usize) -> (r: usize)
    requires
        0 < n,
        pointer < n,
        2 * n <= usize::MAX,
    ensures
        r < n,
        r as int == (pointer + offset) % (n as int),
{
    proof {
        lemma_small_mod(pointer as nat, n as nat);
    }
    if offset >= 0 {
        let m = (offset as usize) % n;
        proof {
            lemma_mod_bound(offset as int, n as int);
            lemma_add_mod_noop(pointer as int, offset as int, n as int);
            assert((pointer + m) % (n as int) == (pointer + offset) % (n as int));
            if pointer + m < n {
                lemma_small_mod((pointer + m) as nat, n as nat);
            } else {
                lemma_mod_sub_multiples_vanish(pointer + m, n as int);
                lemma_small_mod((pointer + m - n) as nat, n as nat);
            }
        }
        if pointer < n - m {
            pointer + m
        } else {
            pointer + m - n
        }
    } else {
        let neg: usize = if offset == isize::MIN {
            (isize::MAX as usize) + 1
        } else {
            (-offset) as usize
        };
        let m = neg % n;
        proof {
            assert(neg as int == -(offset as int));
            lemma_mod_bound(neg as int, n as int);
            lemma_sub_mod_noop(pointer as int, neg as int, n as int);
            assert((pointer - m) % (n as int) == (pointer + offset) % (n as int));
            if m <= pointer {
                lemma_small_mod((pointer - m) as nat, n as nat);
            } else {
                lemma_mod_add_multiples_vanish(pointer - m, n as int);
                lemma_small_mod((pointer + n - m) as nat, n as nat);
            }
        }
        if m <= pointer {
            pointer - m
        } else {
            pointer + n - m
        }
    }
}

/// An execution engine instantiated at one cell width: the tape, the data
/// pointer and the program counter.  Created fresh per run.
pub struct Machine<T> {
    pub memory: Vec<T>,
    pub pointer: usize,
    pub pc: usize,
}

impl<T: Value> Machine<T> {
    /// The tape contents as mathematical integers.
    pub open spec fn mem(self) -> Seq<nat> {
        self.memory@.map_values(|t: T| t.as_nat())
    }

    /// A machine is well formed when its tape is non-empty, small enough
    /// for wrap-around index arithmetic, and its pointer is on the tape.
    pub open spec fn wf(self) -> bool {
        &&& 1 <= self.memory@.len()
        &&& 2 * self.memory@.len() <= usize::MAX as int
        &&& (self.pointer as int) < self.memory@.len()
    }

    /// This machine's observable state joined with a channel's.
    pub open spec fn state_with(self, ch: ByteChannel) -> ExecState {
        ExecState {
            mem: self.mem(),
            pc: self.pc as int,
            ptr: self.pointer as int,
            input: ch.remaining(),
            output: ch.written(),
        }
    }

    /// A fresh machine: `size` zeroed cells, pointer and counter at zero.
    pub fn new(size: usize) -> (r: Machine<T>)
        requires
            1 <= size,
            2 * size <= usize::MAX,
        ensures
            r.wf(),
            r.mem().len() == size,
            forall|i: int| 0 <= i < size ==> r.mem()[i] == 0,
            r.pointer == 0,
            r.pc == 0,
    {
        let mut memory: Vec<T> = Vec::new();
        while memory.len() < size
            invariant
                memory@.len() <= size,
                forall|i: int|
                    0 <= i < memory@.len() ==> (#[trigger] memory@[i]).as_nat() == 0,
            decreases size - memory@.len(),
        {
            memory.push(T::zero());
        }
        let r = Machine { memory, pointer: 0, pc: 0 };
        proof {
            assert(forall|i: int| 0 <= i < size ==> r.mem()[i] == 0);
        }
        r
    }

    /// The cell at a tape index, for inspection.
    pub fn cell(&self, index: usize) -> (r: T)
        requires
            index < self.memory@.len(),
        ensures
            r == self.memory@[index as int],
            r.as_nat() == self.mem()[index as int],
    {
        self.memory[index]
    }

    /// Overwrite the cell at a tape index.
    pub fn set_cell(&mut self, index: usize, value: T)
        requires
            index < old(self).memory@.len(),
        ensures
            final(self).memory@ == old(self).memory@.update(index as int, value),
            final(self).mem() == old(self).mem().update(index as int, value.as_nat()),
            final(self).pointer == old(self).pointer,
            final(self).pc == old(self).pc,
    {
        self.memory.set(index, value);
        proof {
            assert(self.mem() =~= old(self).mem().update(index as int, value.as_nat()));
        }
    }

    /// Step the program against the channel for at most `fuel` steps,
    /// returning whether it ran to completion (the counter fell off the end
    /// of the instruction sequence).  On return, machine and channel
    /// together — tape, pointer, unread input, written output — are exactly
    /// the state of the small-step semantics after `fuel` steps (which is
    /// the terminal state whenever one is reached within the budget).  A
    /// non-terminating program never completes, whatever the budget; the
    /// caller may keep handing in fresh fuel.
    pub fn execute(&mut self, program: &Program, channel: &mut ByteChannel, fuel: u64) -> (done:
        bool)
        requires
            old(self).wf(),
            old(channel).wf(),
        ensures
            final(self).wf(),
            final(channel).wf(),
            final(self).memory@.len() == old(self).memory@.len(),
            ({
                let f = run(
                    program@,
                    T::modulus(),
                    old(self).state_with(*old(channel)),
                    fuel as nat,
                );
                &&& f == (ExecState { pc: f.pc, ..final(self).state_with(*final(channel)) })
                &&& (done <==> f.pc >= program@.len())
                &&& (done <==> final(self).pc as int >= program@.len())
            }),
    {
        let ghost init = old(self).state_with(*old(channel));
        let ghost modulus = T::modulus();
        let ghost mut steps: nat = 0;
        let mut remaining: u64 = fuel;
        let n = program.instructions.len();
        while self.pc < n && remaining > 0
            invariant
                self.wf(),
                channel.wf(),
                n == program.instructions@.len(),
                self.memory@.len() == old(self).memory@.len(),
                steps + remaining == fuel,
                ({
                    let cur = run(program@, modulus, init, steps);
                    &&& cur == (ExecState { pc: cur.pc, ..self.state_with(*channel) })
                    &&& cur.pc == self.pc as int || (cur.pc >= n && self.pc >= n)
                }),
                modulus == T::modulus(),
            decreases remaining,
        {
            remaining = remaining - 1;
            proof {
                lemma_run_step(program@, modulus, init, steps);
            }
            let ghost cur = run(program@, modulus, init, steps);
            let ghost next = step(program@, modulus, cur);
            let inst = program.instructions[self.pc];
            match inst {
                Instruction::Add { offset, amount } => {
                    let i = wrap_index(self.pointer, offset, self.memory.len());
                    let mut cell = self.memory[i];
                    proof {
                        cell.lemma_bounds();
                    }
                    cell.add(amount);
                    self.memory.set(i, cell);
                    proof {
                        assert(self.mem() =~= cur.mem.update(
                            tape_index(cur, offset),
                            (((cur.mem[tape_index(cur, offset)] + amount) % (
                            modulus as int)) as nat),
                        ));
                    }
                },
                Instruction::Output { offset } => {
                    let i = wrap_index(self.pointer, offset, self.memory.len());
                    let cell = self.memory[i];
                    proof {
                        cell.lemma_bounds();
                    }
                    let b = cell.get_byte();
                    channel.write_byte(b);
                    proof {
                        assert(b as nat == cur.mem[tape_index(cur, offset)] % 256);
                        assert(channel.written() =~= cur.output.push(
                            ((cur.mem[tape_index(cur, offset)] % 256) as u8),
                        ));
                    }
                },
                Instruction::Input { offset } => {
                    let i = wrap_index(self.pointer, offset, self.memory.len());
                    let b = match channel.read_byte() {
                        Some(b) => b,
                        None => 0,
                    };
                    let mut cell = self.memory[i];
                    cell.set_byte(b);
                    self.memory.set(i, cell);
                    proof {
                        if cur.input.len() > 0 {
                            assert(self.mem() =~= cur.mem.update(
                                tape_index(cur, offset),
                                cur.input[0] as nat,
                            ));
                        } else {
                            assert(self.mem() =~= cur.mem.update(tape_index(cur, offset), 0));
                        }
                    }
                },
                Instruction::Open { offset, close_index } => {
                    let i = wrap_index(self.pointer, offset, self.memory.len());
                    let cell = self.memory[i];
                    if cell.is_zero() {
                        self.pc = close_index;
                    }
                    self.pointer = i;
                },
                Instruction::Close { offset, open_index } => {
                    let i = wrap_index(self.pointer, offset, self.memory.len());
                    let cell = self.memory[i];
                    if !cell.is_zero() {
                        self.pc = open_index;
                    }
                    self.pointer = i;
                },
            }
            if self.pc < usize::MAX {
                self.pc = self.pc + 1;
            }
            proof {
                steps = steps + 1;
                assert(run(program@, modulus, init, steps) == next);
                assert(next == (ExecState { pc: next.pc, ..self.state_with(*channel) }));
            }
        }
        proof {
            if steps < fuel as nat {
                lemma_run_stuck(program@, modulus, init, steps, fuel as nat);
            }
        }
        self.pc >= n
    }
}

} // verus!
