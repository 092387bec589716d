//! Folding correctness for straight-line code: compiling a bracket-free
//! source and executing the result leaves exactly the tape, output and
//! unread input that a naive one-instruction-per-character interpretation
//! of the source leaves, for every source, input, tape size and cell width.

use vstd::prelude::*;

verus! {

use vstd::arithmetic::div_mod::lemma_add_mod_noop;
use vstd::arithmetic::div_mod::lemma_add_mod_noop_right;
use vstd::arithmetic::div_mod::lemma_mod_bound;
use vstd::arithmetic::div_mod::lemma_small_mod;

use crate::machine::ExecState;
use crate::machine::effect;
use crate::machine::run;
use crate::machine::step;
use crate::program::CompileError;
use crate::program::Instruction;
use crate::program::bumped;
use crate::program::compilation;
use crate::program::flushed;
use crate::program::fold_init;
use crate::program::fold_upto;
use crate::program::has_key;
use crate::program::key_index;

/// An instruction sequence with no loop brackets.
pub open spec fn straight(instrs: Seq<Instruction>) -> bool {
    forall|j: int|
        0 <= j < instrs.len() ==> match #[trigger] instrs[j] {
            Instruction::Open { .. } => false,
            Instruction::Close { .. } => false,
            _ => true,
        }
}

/// The combined effect of an instruction sequence, applied left to right.
pub open spec fn effects(instrs: Seq<Instruction>, m: nat, s: ExecState) -> ExecState
    decreases instrs.len(),
{
    if instrs.len() == 0 {
        s
    } else {
        effects(instrs.drop_first(), m, effect(instrs[0], m, s))
    }
}

/// Effects compose across concatenation.
pub proof fn lemma_effects_concat(a: Seq<Instruction>, b: Seq<Instruction>, m: nat, s: ExecState)
    ensures
        effects(a + b, m, s) == effects(b, m, effects(a, m, s)),
    decreases a.len(),
{
    if a.len() == 0 {
        assert(a + b =~= b);
    } else {
        assert((a + b).drop_first() =~= a.drop_first() + b);
        assert((a + b)[0] == a[0]);
        lemma_effects_concat(a.drop_first(), b, m, effect(a[0], m, s));
    }
}

/// On a straight-line program, running to the end is exactly the combined
/// effect of the instructions from the counter onward, and the counter
/// lands one past the end.
pub proof fn lemma_run_straight(prog: Seq<Instruction>, m: nat, s: ExecState)
    requires
        straight(prog),
        0 <= s.pc <= prog.len(),
    ensures
        run(prog, m, s, (prog.len() - s.pc) as nat) == effects(
            prog.subrange(s.pc, prog.len() as int),
            m,
            s,
        ),
        effects(prog.subrange(s.pc, prog.len() as int), m, s).pc == prog.len() as int,
    decreases prog.len() - s.pc,
{
    let tail = prog.subrange(s.pc, prog.len() as int);
    if s.pc == prog.len() {
        assert(tail =~= Seq::<Instruction>::empty());
        assert(run(prog, m, s, 0) == s);
    } else {
        let s2 = step(prog, m, s);
        assert(tail[0] == prog[s.pc]);
        assert(s2 == effect(tail[0], m, s));
        assert(s2.pc == s.pc + 1) by {
            match prog[s.pc] {
                Instruction::Add { .. } => {},
                Instruction::Output { .. } => {},
                Instruction::Input { .. } => {},
                Instruction::Open { .. } => {
                    assert(false);
                },
                Instruction::Close { .. } => {
                    assert(false);
                },
            }
        }
        lemma_run_straight(prog, m, s2);
        assert(tail.drop_first() =~= prog.subrange(s2.pc, prog.len() as int));
        assert(run(prog, m, s, (prog.len() - s.pc) as nat) == run(
            prog,
            m,
            s2,
            (prog.len() - s2.pc) as nat,
        ));
    }
}

/// The total delta the accumulator will apply to the tape cell `c`, given
/// the data pointer `base` at the last synchronization point and the tape
/// length `n`: the sum of the deltas of every entry whose offset addresses
/// that cell.
pub open spec fn delta_sum(pending: Seq<(isize, i32)>, base: int, n: int, c: int) -> int
    decreases pending.len(),
{
    if pending.len() == 0 {
        0
    } else {
        (if (base + pending[0].0) % n == c {
            pending[0].1 as int
        } else {
            0
        }) + delta_sum(pending.drop_first(), base, n, c)
    }
}

/// Appending an entry adds its contribution to the sum.
proof fn lemma_delta_sum_push(
    pending: Seq<(isize, i32)>,
    e: (isize, i32),
    base: int,
    n: int,
    c: int,
)
    ensures
        delta_sum(pending.push(e), base, n, c) == delta_sum(pending, base, n, c) + (if (base
            + e.0) % n == c {
            e.1 as int
        } else {
            0
        }),
    decreases pending.len(),
{
    if pending.len() == 0 {
        assert(pending.push(e)[0] == e);
        assert(pending.push(e).drop_first() =~= Seq::<(isize, i32)>::empty());
        assert(delta_sum(pending.push(e).drop_first(), base, n, c) == 0);
    } else {
        assert(pending.push(e).drop_first() =~= pending.drop_first().push(e));
        assert(pending.push(e)[0] == pending[0]);
        lemma_delta_sum_push(pending.drop_first(), e, base, n, c);
        assert(delta_sum(pending.push(e), base, n, c) == (if (base + pending[0].0) % n == c {
            pending[0].1 as int
        } else {
            0
        }) + delta_sum(pending.drop_first().push(e), base, n, c));
    }
}

/// Changing one entry's delta, keeping its offset, shifts the sum by the
/// difference at the addressed cell alone.
proof fn lemma_delta_sum_update(
    pending: Seq<(isize, i32)>,
    k: int,
    d2: i32,
    base: int,
    n: int,
    c: int,
)
    requires
        0 <= k < pending.len(),
    ensures
        delta_sum(pending.update(k, (pending[k].0, d2)), base, n, c) == delta_sum(
            pending,
            base,
            n,
            c,
        ) + (if (base + pending[k].0) % n == c {
            d2 - pending[k].1
        } else {
            0
        }),
    decreases pending.len(),
{
    let updated = pending.update(k, (pending[k].0, d2));
    if k == 0 {
        assert(updated.drop_first() =~= pending.drop_first());
        assert(updated[0] == (pending[0].0, d2));
    } else {
        assert(updated.drop_first() =~= pending.drop_first().update(k - 1, (pending[k].0, d2)));
        assert(updated[0] == pending[0]);
        assert(pending.drop_first()[k - 1] == pending[k]);
        lemma_delta_sum_update(pending.drop_first(), k - 1, d2, base, n, c);
    }
}

/// Accumulating one more delta at an offset shifts the sum by that delta at
/// the addressed cell alone.
proof fn lemma_delta_sum_bump(
    pending: Seq<(isize, i32)>,
    offset: isize,
    d: i32,
    base: int,
    n: int,
    c: int,
)
    requires
        -1 <= d <= 1,
        forall|k: int|
            0 <= k < pending.len() ==> -0x7fff_fffe <= (#[trigger] pending[k]).1 <= 0x7fff_fffe,
    ensures
        delta_sum(bumped(pending, offset, d), base, n, c) == delta_sum(pending, base, n, c) + (if (
        base + offset) % n == c {
            d as int
        } else {
            0
        }),
{
    if has_key(pending, offset) {
        let k = key_index(pending, offset);
        assert(0 <= k < pending.len() && pending[k].0 == offset);
        assert((pending[k].1 + d) as i32 == pending[k].1 + d);
        lemma_delta_sum_update(pending, k, (pending[k].1 + d) as i32, base, n, c);
    } else {
        lemma_delta_sum_push(pending, (offset, d), base, n, c);
    }
}

/// Well-formedness of a state for the equivalence argument: a non-empty
/// tape, the pointer on it, and every cell below the modulus.
pub open spec fn state_wf(s: ExecState, m: nat) -> bool {
    &&& s.mem.len() >= 1
    &&& 0 <= s.ptr < s.mem.len()
    &&& forall|c: int| 0 <= c < s.mem.len() ==> (#[trigger] s.mem[c]) < m
}

/// The combined effect of flushing an accumulator: each cell gains the
/// accumulated delta addressed to it, modulo the cell width; pointer,
/// input and output stay; the counter advances once per emitted `Add`.
proof fn lemma_effects_flush(pending: Seq<(isize, i32)>, m: nat, s: ExecState)
    requires
        m >= 1,
        state_wf(s, m),
    ensures
        ({
            let f = effects(flushed(pending), m, s);
            &&& f.ptr == s.ptr
            &&& f.input == s.input
            &&& f.output == s.output
            &&& f.pc == s.pc + pending.len()
            &&& f.mem.len() == s.mem.len()
            &&& forall|c: int|
                0 <= c < s.mem.len() ==> (#[trigger] f.mem[c]) as int == (s.mem[c] + delta_sum(
                    pending,
                    s.ptr,
                    s.mem.len() as int,
                    c,
                )) % (m as int)
        }),
    decreases pending.len(),
{
    let n = s.mem.len() as int;
    if pending.len() == 0 {
        assert forall|c: int| 0 <= c < n implies (#[trigger] s.mem[c]) as int == (s.mem[c]
            + delta_sum(pending, s.ptr, n, c)) % (m as int) by {
            lemma_small_mod(s.mem[c], m);
        }
    } else {
        let p0 = pending[0];
        let c0 = (s.ptr + p0.0) % n;
        lemma_mod_bound(s.ptr + p0.0, n);
        let s1 = effect(Instruction::Add { offset: p0.0, amount: p0.1 }, m, s);
        assert(flushed(pending)[0] == Instruction::Add { offset: p0.0, amount: p0.1 });
        assert(flushed(pending).drop_first() =~= flushed(pending.drop_first()));
        assert(s1.mem[c0] as int == (s.mem[c0] + p0.1) % (m as int));
        assert(state_wf(s1, m)) by {
            assert forall|c: int| 0 <= c < n implies (#[trigger] s1.mem[c]) < m by {
                if c == c0 {
                    lemma_mod_bound(s.mem[c0] + p0.1, m as int);
                } else {
                    assert(s1.mem[c] == s.mem[c]);
                }
            }
        }
        lemma_effects_flush(pending.drop_first(), m, s1);
        let f = effects(flushed(pending), m, s);
        assert(f == effects(flushed(pending.drop_first()), m, s1));
        assert forall|c: int| 0 <= c < n implies (#[trigger] f.mem[c]) as int == (s.mem[c]
            + delta_sum(pending, s.ptr, n, c)) % (m as int) by {
            let rest = delta_sum(pending.drop_first(), s.ptr, n, c);
            assert(f.mem[c] as int == (s1.mem[c] + rest) % (m as int));
            if c == c0 {
                assert(delta_sum(pending, s.ptr, n, c) == p0.1 + rest);
                assert(((s.mem[c0] + p0.1) % (m as int) + rest) % (m as int) == (s.mem[c0] + p0.1
                    + rest) % (m as int)) by {
                    lemma_add_mod_noop(s.mem[c0] + p0.1, rest, m as int);
                    lemma_add_mod_noop_right((s.mem[c0] + p0.1) % (m as int), rest, m as int);
                }
            } else {
                assert(delta_sum(pending, s.ptr, n, c) == rest);
                assert(s1.mem[c] == s.mem[c]);
            }
        }
    }
}

/// Reducing the left operand modulo `n` first does not change a sum's
/// residue.
proof fn lemma_mod_shift(x: int, d: int, n: int)
    requires
        1 <= n,
    ensures
        ((x % n) + d) % n == (x + d) % n,
{
    lemma_add_mod_noop(x, d, n);
    lemma_add_mod_noop_right(x % n, d, n);
}

/// A source with no loop brackets.
pub open spec fn bracket_free(src: Seq<char>) -> bool {
    forall|i: int| 0 <= i < src.len() ==> src[i] != '[' && src[i] != ']'
}

/// One source character interpreted naively, one instruction per character:
/// moves wrap the pointer, increments wrap the cell, output and input move
/// single bytes, and everything else is ignored.
pub open spec fn naive_char(c: char, m: nat, s: ExecState) -> ExecState
    recommends
        s.mem.len() > 0,
        m >= 1,
{
    let n = s.mem.len() as int;
    if c == '>' {
        ExecState { ptr: (s.ptr + 1) % n, ..s }
    } else if c == '<' {
        ExecState { ptr: (s.ptr - 1) % n, ..s }
    } else if c == '+' {
        ExecState { mem: s.mem.update(s.ptr, (((s.mem[s.ptr] as int + 1) % (m as int)) as nat)), ..s }
    } else if c == '-' {
        ExecState { mem: s.mem.update(s.ptr, (((s.mem[s.ptr] as int - 1) % (m as int)) as nat)), ..s }
    } else if c == '.' {
        ExecState { output: s.output.push(((s.mem[s.ptr] % 256) as u8)), ..s }
    } else if c == ',' {
        if s.input.len() > 0 {
            ExecState {
                mem: s.mem.update(s.ptr, s.input[0] as nat),
                input: s.input.drop_first(),
                ..s
            }
        } else {
            ExecState { mem: s.mem.update(s.ptr, 0), ..s }
        }
    } else {
        s
    }
}

/// The naive interpretation of the first `i` source characters.
pub open spec fn naive_upto(src: Seq<char>, m: nat, i: int, s0: ExecState) -> ExecState
    decreases i,
{
    if i <= 0 {
        s0
    } else {
        naive_char(src[i - 1], m, naive_upto(src, m, i - 1, s0))
    }
}

/// The simulation between the folding compiler and the naive
/// interpretation, by induction over the source: after any prefix, running
/// the instructions emitted so far has not moved the pointer, agrees with
/// the naive state on input and output, and the naive tape is the executed
/// tape with the still-accumulated deltas applied; the naive pointer is the
/// starting pointer shifted by the accumulated virtual offset.
pub proof fn lemma_straight_sim(src: Seq<char>, m: nat, s0: ExecState, i: int)
    requires
        0 <= i <= src.len(),
        src.len() <= 0x7fff_ffff,
        bracket_free(src),
        m >= 256,
        state_wf(s0, m),
    ensures
        fold_upto(src, i) matches Ok(st) && ({
            let n = s0.mem.len() as int;
            let e = effects(st.instrs, m, s0);
            let nv = naive_upto(src, m, i, s0);
            &&& st.opens.len() == 0
            &&& straight(st.instrs)
            &&& e.ptr == s0.ptr
            &&& e.input == nv.input
            &&& e.output == nv.output
            &&& e.mem.len() == n
            &&& nv.mem.len() == n
            &&& nv.ptr == (s0.ptr + st.offset) % n
            &&& forall|c: int|
                0 <= c < n ==> (#[trigger] nv.mem[c]) as int == (e.mem[c] + delta_sum(
                    st.pending,
                    s0.ptr,
                    n,
                    c,
                )) % (m as int)
            &&& forall|c: int| 0 <= c < n ==> (#[trigger] e.mem[c]) < m
            &&& forall|c: int| 0 <= c < n ==> (#[trigger] nv.mem[c]) < m
        }),
    decreases i,
{
    let n = s0.mem.len() as int;
    if i == 0 {
        assert(effects(fold_init().instrs, m, s0) == s0);
        lemma_small_mod(s0.ptr as nat, n as nat);
        assert forall|c: int| 0 <= c < n implies (#[trigger] s0.mem[c]) as int == (s0.mem[c]
            + delta_sum(fold_init().pending, s0.ptr, n, c)) % (m as int) by {
            lemma_small_mod(s0.mem[c], m);
        }
    } else {
        lemma_straight_sim(src, m, s0, i - 1);
        crate::program::lemma_fold_inv(src, i - 1);
        let st = fold_upto(src, i - 1)->Ok_0;
        let c = src[i - 1];
        assert(c != '[' && c != ']');
        let e = effects(st.instrs, m, s0);
        let nv = naive_upto(src, m, i - 1, s0);
        let nv2 = naive_upto(src, m, i, s0);
        assert(nv2 == naive_char(c, m, nv));
        if c == '>' || c == '<' {
            let d: int = if c == '>' {
                1
            } else {
                -1
            };
            let st2 = fold_upto(src, i)->Ok_0;
            assert(st2.offset as int == st.offset + d);
            assert(nv2.ptr == (nv.ptr + d) % n);
            lemma_mod_shift(s0.ptr + st.offset, d, n);
            assert(nv2.ptr == (s0.ptr + st2.offset) % n);
        } else if c == '+' || c == '-' {
            let d: i32 = if c == '+' {
                1i32
            } else {
                -1i32
            };
            let st2 = fold_upto(src, i)->Ok_0;
            assert(st2.pending == bumped(st.pending, st.offset, d));
            let cell = (s0.ptr + st.offset) % n;
            assert(nv.ptr == cell);
            lemma_mod_bound(s0.ptr + st.offset, n);
            assert forall|c2: int| 0 <= c2 < n implies (#[trigger] nv2.mem[c2]) as int == (
            e.mem[c2] + delta_sum(st2.pending, s0.ptr, n, c2)) % (m as int) by {
                lemma_delta_sum_bump(st.pending, st.offset, d, s0.ptr, n, c2);
                if c2 == cell {
                    assert(nv2.mem[c2] as int == (nv.mem[c2] + d) % (m as int));
                    lemma_mod_shift(e.mem[c2] + delta_sum(st.pending, s0.ptr, n, c2), d as int, m as int);
                } else {
                    assert(nv2.mem[c2] == nv.mem[c2]);
                }
            }
            assert forall|c2: int| 0 <= c2 < n implies (#[trigger] nv2.mem[c2]) < m by {
                if c2 == cell {
                    lemma_mod_bound(nv.mem[cell] + d, m as int);
                } else {
                    assert(nv2.mem[c2] == nv.mem[c2]);
                }
            }
        } else if c == '.' || c == ',' {
            let st2 = fold_upto(src, i)->Ok_0;
            let emitted: Instruction = if c == '.' {
                Instruction::Output { offset: st.offset }
            } else {
                Instruction::Input { offset: st.offset }
            };
            let flushed_adds = flushed(st.pending);
            let tail = seq![emitted];
            assert(st2.instrs == st.instrs + flushed_adds + tail);
            lemma_effects_concat(st.instrs + flushed_adds, tail, m, s0);
            lemma_effects_concat(st.instrs, flushed_adds, m, s0);
            lemma_effects_flush(st.pending, m, e);
            let ef = effects(flushed_adds, m, e);
            assert(ef.mem =~= nv.mem) by {
                assert forall|c2: int| 0 <= c2 < n implies ef.mem[c2] == nv.mem[c2] by {
                    assert(ef.mem[c2] as int == (e.mem[c2] + delta_sum(
                        st.pending,
                        s0.ptr,
                        n,
                        c2,
                    )) % (m as int));
                }
            }
            let cell = (s0.ptr + st.offset) % n;
            assert(nv.ptr == cell);
            lemma_mod_bound(s0.ptr + st.offset, n);
            let e2 = effects(st2.instrs, m, s0);
            assert(e2 == effects(tail, m, ef));
            assert(tail.drop_first() =~= Seq::<Instruction>::empty());
            assert(tail[0] == emitted);
            assert(effects(tail, m, ef) == effects(tail.drop_first(), m, effect(emitted, m, ef)));
            assert(effects(tail.drop_first(), m, effect(emitted, m, ef)) == effect(emitted, m, ef));
            assert(e2 == effect(emitted, m, ef));
            assert(straight(st2.instrs)) by {
                assert forall|j: int| 0 <= j < st2.instrs.len() implies match #[trigger] st2.instrs[j] {
                    Instruction::Open { .. } => false,
                    Instruction::Close { .. } => false,
                    _ => true,
                } by {
                    if j < st.instrs.len() {
                        assert(st2.instrs[j] == st.instrs[j]);
                    } else if j < st.instrs.len() + flushed_adds.len() {
                        assert(st2.instrs[j] == flushed_adds[j - st.instrs.len()]);
                    } else {
                        assert(st2.instrs[j] == emitted);
                    }
                }
            }
            if c == '.' {
                assert(nv2.output == nv.output.push(((nv.mem[nv.ptr] % 256) as u8)));
                assert(e2.output == ef.output.push(((ef.mem[cell] % 256) as u8)));
                assert(ef.mem[cell] == nv.mem[nv.ptr]);
            } else {
                if nv.input.len() > 0 {
                    assert(nv2.mem == nv.mem.update(cell, nv.input[0] as nat));
                    assert(e2.mem == ef.mem.update(cell, ef.input[0] as nat));
                } else {
                    assert(nv2.mem == nv.mem.update(cell, 0nat));
                    assert(e2.mem == ef.mem.update(cell, 0nat));
                }
            }
            assert forall|c2: int| 0 <= c2 < n implies (#[trigger] nv2.mem[c2]) as int == (
            e2.mem[c2] + delta_sum(st2.pending, s0.ptr, n, c2)) % (m as int) by {
                assert(delta_sum(st2.pending, s0.ptr, n, c2) == 0);
                assert(nv2.mem[c2] == e2.mem[c2]);
                assert(nv2.mem[c2] < m);
                lemma_small_mod(nv2.mem[c2], m);
            }
        } else {
            assert(fold_upto(src, i)->Ok_0 == st);
            assert(nv2 == nv);
        }
    }
}

/// Folding is a pure optimization on straight-line code: compiling any
/// bracket-free source and running the whole result leaves exactly the
/// tape, the output bytes and the unread input of the naive
/// one-instruction-per-character interpretation, for every starting tape,
/// input and cell width — and the real pointer never moves, since every
/// emitted instruction carries its own offset.
pub proof fn lemma_folding_unobservable(src: Seq<char>, m: nat, s0: ExecState)
    requires
        src.len() <= 0x7fff_ffff,
        bracket_free(src),
        m >= 256,
        state_wf(s0, m),
        s0.pc == 0,
    ensures
        compilation(src) matches Ok(instrs) && ({
            let f = run(instrs, m, s0, instrs.len() as nat);
            let nv = naive_upto(src, m, src.len() as int, s0);
            &&& f.pc == instrs.len() as int
            &&& f.mem == nv.mem
            &&& f.output == nv.output
            &&& f.input == nv.input
            &&& f.ptr == s0.ptr
        }),
{
    let n = s0.mem.len() as int;
    let i = src.len() as int;
    lemma_straight_sim(src, m, s0, i);
    let st = fold_upto(src, i)->Ok_0;
    let instrs = st.instrs + flushed(st.pending);
    assert(compilation(src) == Ok::<Seq<Instruction>, CompileError>(instrs));
    let e = effects(st.instrs, m, s0);
    let nv = naive_upto(src, m, i, s0);
    lemma_effects_concat(st.instrs, flushed(st.pending), m, s0);
    lemma_effects_flush(st.pending, m, e);
    let f0 = effects(instrs, m, s0);
    assert(f0.mem =~= nv.mem) by {
        assert forall|c2: int| 0 <= c2 < n implies f0.mem[c2] == nv.mem[c2] by {
            assert(f0.mem[c2] as int == (e.mem[c2] + delta_sum(st.pending, s0.ptr, n, c2)) % (
            m as int));
        }
    }
    assert(straight(instrs)) by {
        assert forall|j: int| 0 <= j < instrs.len() implies match #[trigger] instrs[j] {
            Instruction::Open { .. } => false,
            Instruction::Close { .. } => false,
            _ => true,
        } by {
            if j < st.instrs.len() {
                assert(instrs[j] == st.instrs[j]);
            } else {
                assert(instrs[j] == flushed(st.pending)[j - st.instrs.len()]);
            }
        }
    }
    lemma_run_straight(instrs, m, s0);
    assert(instrs.subrange(0, instrs.len() as int) =~= instrs);
}

} // verus!
