//! The compiler: source text to a flat instruction sequence with folded
//! pointer moves and cell increments and with all loop jump targets resolved.
//!
//! The meaning of compilation is given by a character-by-character fold over
//! the source (`fold_char`, `fold_upto`, `compilation`); the executable
//! `Program::compile` is proved to return exactly that fold's result.

use vstd::prelude::*;

verus! {

/// One compiled operation.  `offset` is always relative to the data pointer
/// as it stood immediately after the previous loop bracket (or program
/// start); an `Open` or `Close` advances the real pointer by its `offset`
/// when executed, the other instructions leave the pointer unchanged.
#[derive(Clone, Copy, Debug, PartialEq, Eq, Structural)]
pub enum Instruction {
    /// Add the signed `amount` to the cell at `pointer + offset`, wrapping
    /// within the cell's width.
    Add { offset: isize, amount: i32 },
    /// Write the low byte of the cell at `pointer + offset` to the channel.
    Output { offset: isize },
    /// Read one byte from the channel into the cell at `pointer + offset`,
    /// zero on end of stream.
    Input { offset: isize },
    /// Loop entry; if the cell at `pointer + offset` is zero, jump to
    /// `close_index`.  Always advances the pointer by `offset`.
    Open { offset: isize, close_index: usize },
    /// Loop back-edge; if the cell at `pointer + offset` is non-zero, jump
    /// back to `open_index`.  Always advances the pointer by `offset`.
    Close { offset: isize, open_index: usize },
}

/// The two ways compilation can refuse a source text.
#[derive(Clone, Copy, Debug, PartialEq, Eq, Structural)]
pub enum CompileError {
    /// End of input was reached with at least one loop still open.
    UnmatchedOpen,
    /// A loop-end token appeared with no open loop pending.
    UnmatchedClose,
}

/// A compiled program: an immutable, flat instruction sequence.
#[derive(Debug)]
pub struct Program {
    pub instructions: Vec<Instruction>,
}

impl View for Program {
    type V = Seq<Instruction>;

    open spec fn view(&self) -> Seq<Instruction> {
        self.instructions@
    }
}

/// The compiler's state after consuming a prefix of the source: the
/// instructions emitted so far, the accumulated (offset, delta) pairs not yet
/// flushed (in first-touch order, offsets distinct), the virtual pointer
/// offset since the last bracket, and the stack of indices of `Open`
/// instructions whose `close_index` is still unresolved.
#[verifier::ext_equal]
pub struct FoldState {
    pub instrs: Seq<Instruction>,
    pub pending: Seq<(isize, i32)>,
    pub offset: isize,
    pub opens: Seq<usize>,
}

/// Whether some accumulated delta sits at `offset`.
pub open spec fn has_key(pending: Seq<(isize, i32)>, offset: isize) -> bool {
    exists|k: int| 0 <= k < pending.len() && pending[k].0 == offset
}

/// The position of the accumulated delta at `offset`.
pub open spec fn key_index(pending: Seq<(isize, i32)>, offset: isize) -> int {
    choose|k: int| 0 <= k < pending.len() && pending[k].0 == offset
}

/// Add `delta` to the accumulated entry at `offset`, creating the entry at
/// the end if absent.
pub open spec fn bumped(pending: Seq<(isize, i32)>, offset: isize, delta: i32) -> Seq<
    (isize, i32),
> {
    if has_key(pending, offset) {
        let k = key_index(pending, offset);
        pending.update(k, (offset, (pending[k].1 + delta) as i32))
    } else {
        pending.push((offset, delta))
    }
}

/// The accumulated deltas, flushed into `Add` instructions in first-touch
/// order.
pub open spec fn flushed(pending: Seq<(isize, i32)>) -> Seq<Instruction> {
    pending.map_values(|p: (isize, i32)| Instruction::Add { offset: p.0, amount: p.1 })
}

/// Resolve the `Open` at `open_index` to jump to `close_index`; anything
/// other than an in-range `Open` is left untouched.
pub open spec fn patch_open(
    instrs: Seq<Instruction>,
    open_index: usize,
    close_index: usize,
) -> Seq<Instruction> {
    if (open_index as int) < instrs.len() {
        match instrs[open_index as int] {
            Instruction::Open { offset, close_index: _ } => instrs.update(
                open_index as int,
                Instruction::Open { offset, close_index },
            ),
            _ => instrs,
        }
    } else {
        instrs
    }
}

/// The compiler's state before any input.
pub open spec fn fold_init() -> FoldState {
    FoldState {
        instrs: Seq::<Instruction>::empty(),
        pending: Seq::<(isize, i32)>::empty(),
        offset: 0,
        opens: Seq::<usize>::empty(),
    }
}

/// Consume one source character.  Pointer moves and increments only change
/// the accumulated state; output, input and brackets first flush the
/// accumulated deltas and then emit themselves; a bracket also resets the
/// virtual offset, since the emitted instruction carries it.  Every other
/// character is ignored.
pub open spec fn fold_char(st: FoldState, c: char) -> Result<FoldState, CompileError> {
    if c == '>' {
        Ok(FoldState { offset: (st.offset + 1) as isize, ..st })
    } else if c == '<' {
        Ok(FoldState { offset: (st.offset - 1) as isize, ..st })
    } else if c == '+' {
        Ok(FoldState { pending: bumped(st.pending, st.offset, 1), ..st })
    } else if c == '-' {
        Ok(FoldState { pending: bumped(st.pending, st.offset, -1i32), ..st })
    } else if c == '.' {
        Ok(
            FoldState {
                instrs: st.instrs + flushed(st.pending) + seq![
                    Instruction::Output { offset: st.offset },
                ],
                pending: Seq::<(isize, i32)>::empty(),
                ..st
            },
        )
    } else if c == ',' {
        Ok(
            FoldState {
                instrs: st.instrs + flushed(st.pending) + seq![
                    Instruction::Input { offset: st.offset },
                ],
                pending: Seq::<(isize, i32)>::empty(),
                ..st
            },
        )
    } else if c == '[' {
        let instrs = st.instrs + flushed(st.pending) + seq![
            Instruction::Open { offset: st.offset, close_index: 0 },
        ];
        Ok(
            FoldState {
                instrs,
                pending: Seq::<(isize, i32)>::empty(),
                offset: 0,
                opens: st.opens.push((instrs.len() - 1) as usize),
            },
        )
    } else if c == ']' {
        if st.opens.len() == 0 {
            Err(CompileError::UnmatchedClose)
        } else {
            let open_index = st.opens.last();
            let with_close = st.instrs + flushed(st.pending) + seq![
                Instruction::Close { offset: st.offset, open_index },
            ];
            let close_index = (with_close.len() - 1) as usize;
            Ok(
                FoldState {
                    instrs: patch_open(with_close, open_index, close_index),
                    pending: Seq::<(isize, i32)>::empty(),
                    offset: 0,
                    opens: st.opens.drop_last(),
                },
            )
        }
    } else {
        Ok(st)
    }
}

/// The compiler's state after the first `n` source characters.
pub open spec fn fold_upto(src: Seq<char>, n: int) -> Result<FoldState, CompileError>
    decreases n,
{
    if n <= 0 {
        Ok(fold_init())
    } else {
        match fold_upto(src, n - 1) {
            Ok(st) => fold_char(st, src[n - 1]),
            Err(e) => Err(e),
        }
    }
}

/// What compiling a whole source text yields: the fold over every character,
/// a final flush of the accumulated deltas, and a refusal if any loop is
/// still open.
pub open spec fn compilation(src: Seq<char>) -> Result<Seq<Instruction>, CompileError> {
    match fold_upto(src, src.len() as int) {
        Ok(st) => if st.opens.len() > 0 {
            Err(CompileError::UnmatchedOpen)
        } else {
            Ok(st.instrs + flushed(st.pending))
        },
        Err(e) => Err(e),
    }
}

/// Whether an instruction is a loop entry.
pub open spec fn is_open(inst: Instruction) -> bool {
    inst matches Instruction::Open { .. }
}

/// Bounds that hold of the compiler's state after `i` characters: the
/// virtual offset and every accumulated delta are at most `i` in magnitude,
/// the emitted and accumulated entries together number at most `i`, the
/// accumulated offsets are distinct, and the open-loop stack is a strictly
/// increasing list of indices of `Open` instructions.
pub open spec fn fold_inv(st: FoldState, i: int) -> bool {
    &&& -i <= st.offset as int <= i
    &&& st.instrs.len() + st.pending.len() <= i
    &&& forall|k: int|
        0 <= k < st.pending.len() ==> -i <= (#[trigger] st.pending[k]).1 as int <= i
    &&& forall|k1: int, k2: int|
        0 <= k1 < k2 < st.pending.len() ==> st.pending[k1].0 != st.pending[k2].0
    &&& forall|j: int|
        0 <= j < st.opens.len() ==> ((#[trigger] st.opens[j]) as int) < st.instrs.len()
    &&& forall|j: int|
        0 <= j < st.opens.len() ==> is_open(#[trigger] st.instrs[st.opens[j] as int])
    &&& forall|j1: int, j2: int|
        0 <= j1 < j2 < st.opens.len() ==> st.opens[j1] < st.opens[j2]
}

/// The bounds above follow by induction over the fold.
pub proof fn lemma_fold_inv(src: Seq<char>, i: int)
    requires
        0 <= i <= src.len(),
        src.len() <= 0x7fff_ffff,
        fold_upto(src, i) is Ok,
    ensures
        fold_upto(src, i) matches Ok(st) && fold_inv(st, i),
    decreases i,
{
    if i > 0 {
        lemma_fold_inv(src, i - 1);
        let st = fold_upto(src, i - 1)->Ok_0;
        let c = src[i - 1];
        if c == '+' || c == '-' {
            let delta: i32 = if c == '+' {
                1i32
            } else {
                -1i32
            };
            if has_key(st.pending, st.offset) {
                let k = key_index(st.pending, st.offset);
                assert(0 <= k < st.pending.len() && st.pending[k].0 == st.offset);
            }
            assert(fold_inv(fold_char(st, c)->Ok_0, i));
        } else if c == ']' {
            if st.opens.len() > 0 {
                let st2 = fold_char(st, c)->Ok_0;
                let open_index = st.opens.last();
                assert(is_open(st.instrs[open_index as int]));
                assert forall|j: int| 0 <= j < st2.opens.len() implies is_open(
                    #[trigger] st2.instrs[st2.opens[j] as int],
                ) by {
                    assert(st2.opens[j] == st.opens[j]);
                    assert((st.opens[j] as int) < st.instrs.len());
                }
                assert(fold_inv(st2, i));
            }
        }
    }
}

/// Once the fold fails, every longer prefix fails the same way.
pub proof fn lemma_error_persists(src: Seq<char>, i: int, j: int)
    requires
        0 <= i <= j <= src.len(),
        fold_upto(src, i) is Err,
    ensures
        fold_upto(src, j) == fold_upto(src, i),
    decreases j - i,
{
    if j > i {
        lemma_error_persists(src, i, j - 1);
    }
}

/// Add `delta` to the accumulated entry at `offset`, creating it if absent.
fn bump_pending(pending: &mut Vec<(isize, i32)>, offset: isize, delta: i32)
    requires
        -1 <= delta <= 1,
        forall|k: int|
            0 <= k < old(pending)@.len() ==> -0x7fff_fffe <= (#[trigger] old(
                pending,
            )@[k]).1 <= 0x7fff_fffe,
        forall|k1: int, k2: int|
            0 <= k1 < k2 < old(pending)@.len() ==> old(pending)@[k1].0 != old(pending)@[k2].0,
    ensures
        final(pending)@ == bumped(old(pending)@, offset, delta),
{
    let len = pending.len();
    let mut j: usize = 0;
    while j < len
        invariant
            pending@ == old(pending)@,
            len == pending@.len(),
            j <= len,
            forall|k: int| 0 <= k < j ==> (#[trigger] pending@[k]).0 != offset,
            -1 <= delta <= 1,
            forall|k: int|
                0 <= k < pending@.len() ==> -0x7fff_fffe <= (#[trigger] pending@[k]).1
                    <= 0x7fff_fffe,
            forall|k1: int, k2: int|
                0 <= k1 < k2 < pending@.len() ==> pending@[k1].0 != pending@[k2].0,
        decreases len - j,
    {
        let (o, d) = pending[j];
        if o == offset {
            pending.set(j, (o, d + delta));
            proof {
                assert(has_key(old(pending)@, offset));
                let k = key_index(old(pending)@, offset);
                assert(0 <= k < old(pending)@.len() && old(pending)@[k].0 == offset);
                assert(k == j as int);
                assert(pending@ =~= bumped(old(pending)@, offset, delta));
            }
            return ;
        }
        j += 1;
    }
    pending.push((offset, delta));
    proof {
        assert(!has_key(old(pending)@, offset));
        assert(pending@ =~= bumped(old(pending)@, offset, delta));
    }
}

/// Move every accumulated delta into the instruction list, as `Add`
/// instructions in first-touch order, and empty the accumulator.
fn flush_pending(instructions: &mut Vec<Instruction>, pending: &mut Vec<(isize, i32)>)
    ensures
        final(instructions)@ == old(instructions)@ + flushed(old(pending)@),
        final(pending)@ == Seq::<(isize, i32)>::empty(),
{
    let len = pending.len();
    let mut j: usize = 0;
    while j < len
        invariant
            pending@ == old(pending)@,
            len == pending@.len(),
            j <= len,
            instructions@ == old(instructions)@ + flushed(pending@.take(j as int)),
        decreases len - j,
    {
        let (o, d) = pending[j];
        instructions.push(Instruction::Add { offset: o, amount: d });
        proof {
            assert(flushed(pending@.take(j + 1)) =~= flushed(pending@.take(j as int)).push(
                Instruction::Add { offset: o, amount: d },
            ));
            assert(instructions@ =~= old(instructions)@ + flushed(pending@.take(j + 1)));
        }
        j += 1;
    }
    proof {
        assert(pending@.take(len as int) =~= pending@);
    }
    pending.clear();
}

impl Program {
    /// Compile source text into a program.  Exactly six command characters
    /// and the two brackets are meaningful; every other character is
    /// ignored.  The result is precisely the fold `compilation` over the
    /// source's characters: adjacent moves and increments folded, loop
    /// targets resolved, and a refusal whenever the brackets do not match.
    ///
    /// The length bound is forced by the instruction encoding: an `Add`
    /// amount must fit in its fixed-width field, and a source of at most
    /// `i32::MAX` characters cannot overflow it.
    pub fn compile(source: &str) -> (r: Result<Program, CompileError>)
        requires
            source@.len() <= 0x7fff_ffff,
        ensures
            match r {
                Ok(p) => compilation(source@) == Ok::<Seq<Instruction>, CompileError>(p@),
                Err(e) => compilation(source@) == Err::<Seq<Instruction>, CompileError>(e),
            },
    {
        let n = source.unicode_len();
        let mut instructions: Vec<Instruction> = Vec::new();
        let mut pending: Vec<(isize, i32)> = Vec::new();
        let mut offset: isize = 0;
        let mut open_stack: Vec<usize> = Vec::new();
        let mut i: usize = 0;
        proof {
            assert(fold_upto(source@, 0) =~= Ok::<FoldState, CompileError>(fold_init()));
    }
        while i < n
            invariant
                n as int == source@.len(),
                source@.len() <= 0x7fff_ffff,
                i <= n,
                fold_upto(source@, i as int) == Ok::<FoldState, CompileError>(
                    FoldState {
                        instrs: instructions@,
                        pending: pending@,
                        offset: offset,
                        opens: open_stack@,
                    },
                ),
            decreases n - i,
        {
            proof {
                lemma_fold_inv(source@, i as int);
            }
            let ghost st = FoldState {
                instrs: instructions@,
                pending: pending@,
                offset: offset,
                opens: open_stack@,
            };
            let c = source.get_char(i);
            match c {
                '>' => {
                    offset = offset + 1;
                },
                '<' => {
                    offset = offset - 1;
                },
                '+' => {
                    bump_pending(&mut pending, offset, 1);
                },
                '-' => {
                    bump_pending(&mut pending, offset, -1);
                },
                '.' => {
                    flush_pending(&mut instructions, &mut pending);
                    instructions.push(Instruction::Output { offset });
                    proof {
                        assert(instructions@ =~= st.instrs + flushed(st.pending) + seq![
                            Instruction::Output { offset: st.offset },
                        ]);
                    }
                },
                ',' => {
                    flush_pending(&mut instructions, &mut pending);
                    instructions.push(Instruction::Input { offset });
                    proof {
                        assert(instructions@ =~= st.instrs + flushed(st.pending) + seq![
                            Instruction::Input { offset: st.offset },
                        ]);
                    }
                },
                '[' => {
                    flush_pending(&mut instructions, &mut pending);
                    instructions.push(Instruction::Open { offset, close_index: 0 });
                    let open_index = instructions.len() - 1;
                    open_stack.push(open_index);
                    offset = 0;
                    proof {
                        assert(instructions@ =~= st.instrs + flushed(st.pending) + seq![
                            Instruction::Open { offset: st.offset, close_index: 0 },
                        ]);
                    }
                },
                ']' => {
                    flush_pending(&mut instructions, &mut pending);
                    if open_stack.len() == 0 {
                        proof {
                            lemma_error_persists(source@, i + 1, source@.len() as int);
                        }
                        return Err(CompileError::UnmatchedClose);
                    }
                    let open_index = open_stack[open_stack.len() - 1];
                    open_stack.pop();
                    instructions.push(Instruction::Close { offset, open_index });
                    let close_index = instructions.len() - 1;
                    let existing = instructions[open_index];
                    match existing {
                        Instruction::Open { offset: open_offset, close_index: _ } => {
                            instructions.set(
                                open_index,
                                Instruction::Open { offset: open_offset, close_index },
                            );
                        },
                        _ => {},
                    }
                    offset = 0;
                    proof {
                        let with_close = st.instrs + flushed(st.pending) + seq![
                            Instruction::Close { offset: st.offset, open_index },
                        ];
                        assert(instructions@ =~= patch_open(
                            with_close,
                            open_index,
                            (with_close.len() - 1) as usize,
                        ));
                        assert(open_stack@ =~= st.opens.drop_last());
                    }
                },
                _ => {
                },
            }
            i += 1;
        }
        if open_stack.len() > 0 {
            return Err(CompileError::UnmatchedOpen);
        }
        flush_pending(&mut instructions, &mut pending);
        Ok(Program { instructions })
    }
}

} // verus!
