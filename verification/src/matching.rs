//! Laws about bracket structure: a well-bracketed source always compiles,
//! and its `Open`/`Close` jump targets come out mutually consistent, while
//! the two failure kinds are exactly a bracket-depth drop below zero
//! (`UnmatchedClose`) and a positive depth at end of input (`UnmatchedOpen`).

use vstd::prelude::*;

verus! {

use crate::program::CompileError;
use crate::program::FoldState;
use crate::program::Instruction;
use crate::program::compilation;
use crate::program::fold_char;
use crate::program::fold_init;
use crate::program::fold_inv;
use crate::program::fold_upto;
use crate::program::is_open;
use crate::program::lemma_error_persists;
use crate::program::lemma_fold_inv;

/// The nesting depth at the end of a source prefix: loop entries minus loop
/// ends.
pub open spec fn depth(src: Seq<char>) -> int
    decreases src.len(),
{
    if src.len() == 0 {
        0
    } else {
        depth(src.drop_last()) + (if src.last() == '[' {
            1int
        } else if src.last() == ']' {
            -1int
        } else {
            0int
        })
    }
}

/// Well-bracketed: no prefix closes more loops than it has opened, and every
/// opened loop is closed by the end.
pub open spec fn well_bracketed(src: Seq<char>) -> bool {
    &&& forall|i: int| 0 <= i <= src.len() ==> depth(#[trigger] src.take(i)) >= 0
    &&& depth(src) == 0
}

/// Entry `i` of the instruction sequence has consistent loop links, given
/// the stack of still-unresolved `Open` indices: every `Close` points back
/// to an earlier, already-resolved `Open` that points to it, and every
/// `Open` is either still on the stack or points ahead to a `Close` that
/// points back to it.
pub open spec fn entry_linked(instrs: Seq<Instruction>, opens: Seq<usize>, i: int) -> bool {
    match instrs[i] {
        Instruction::Close { open_index, .. } => {
            &&& (open_index as int) < i
            &&& !opens.contains(open_index)
            &&& match instrs[open_index as int] {
                Instruction::Open { close_index, .. } => close_index as int == i,
                _ => false,
            }
        },
        Instruction::Open { close_index, .. } => {
            opens.contains(i as usize) || {
                &&& i < close_index as int
                &&& (close_index as int) < instrs.len()
                &&& match instrs[close_index as int] {
                    Instruction::Close { open_index, .. } => open_index as int == i,
                    _ => false,
                }
            }
        },
        _ => true,
    }
}

/// Every entry of the compiler's state is consistently linked.
pub open spec fn links_ok(st: FoldState) -> bool {
    forall|i: int| 0 <= i < st.instrs.len() ==> entry_linked(st.instrs, st.opens, i)
}

/// Every `Open`/`Close` pair of a finished program refers back and forth to
/// each other by index.
pub open spec fn matched_pairs(instrs: Seq<Instruction>) -> bool {
    forall|i: int|
        0 <= i < instrs.len() ==> entry_linked(instrs, Seq::<usize>::empty(), i)
}

/// Appending instructions that are neither `Open` nor `Close` preserves the
/// consistency of the links.
proof fn lemma_links_extend(instrs: Seq<Instruction>, opens: Seq<usize>, tail: Seq<Instruction>)
    requires
        forall|i: int| 0 <= i < instrs.len() ==> entry_linked(instrs, opens, i),
        forall|k: int|
            0 <= k < tail.len() ==> (#[trigger] tail[k]) matches Instruction::Add { .. },
    ensures
        forall|i: int| 0 <= i < instrs.len() + tail.len() ==> entry_linked(instrs + tail, opens, i),
{
    let longer = instrs + tail;
    assert forall|i: int| 0 <= i < longer.len() implies entry_linked(longer, opens, i) by {
        if i < instrs.len() {
            assert(entry_linked(instrs, opens, i));
            match instrs[i] {
                Instruction::Close { open_index, .. } => {
                    assert(longer[open_index as int] == instrs[open_index as int]);
                },
                Instruction::Open { close_index, .. } => {
                    if !opens.contains(i as usize) {
                        assert(longer[close_index as int] == instrs[close_index as int]);
                    }
                },
                _ => {},
            }
        } else {
            assert(longer[i] == tail[i - instrs.len()]);
        }
    }
}

/// The fold keeps the links of every emitted instruction consistent.
pub proof fn lemma_fold_links(src: Seq<char>, i: int)
    requires
        0 <= i <= src.len(),
        src.len() <= 0x7fff_ffff,
        fold_upto(src, i) is Ok,
    ensures
        fold_upto(src, i) matches Ok(st) && links_ok(st),
    decreases i,
{
    if i > 0 {
        lemma_fold_inv(src, i - 1);
        lemma_fold_links(src, i - 1);
        let st = fold_upto(src, i - 1)->Ok_0;
        let c = src[i - 1];
        let st2 = fold_upto(src, i)->Ok_0;
        let flushed_tail = crate::program::flushed(st.pending);
        assert(forall|k: int|
            0 <= k < flushed_tail.len() ==> (#[trigger] flushed_tail[k]) matches Instruction::Add {
                ..
            });
        if c == '.' || c == ',' {
            lemma_links_extend(st.instrs, st.opens, flushed_tail);
            let mid = st.instrs + flushed_tail;
            assert forall|j: int| 0 <= j < st2.instrs.len() implies entry_linked(
                st2.instrs,
                st2.opens,
                j,
            ) by {
                if j < mid.len() {
                    assert(entry_linked(mid, st.opens, j));
                    match mid[j] {
                        Instruction::Close { open_index, .. } => {
                            assert(st2.instrs[open_index as int] == mid[open_index as int]);
                        },
                        Instruction::Open { close_index, .. } => {
                            if !st.opens.contains(j as usize) {
                                assert(st2.instrs[close_index as int] == mid[close_index as int]);
                            }
                        },
                        _ => {},
                    }
                    assert(st2.instrs[j] == mid[j]);
                }
            }
        } else if c == '[' {
            lemma_links_extend(st.instrs, st.opens, flushed_tail);
            let mid = st.instrs + flushed_tail;
            let newi = mid.len() as int;
            assert forall|j: int| 0 <= j < st2.instrs.len() implies entry_linked(
                st2.instrs,
                st2.opens,
                j,
            ) by {
                if j < mid.len() {
                    assert(entry_linked(mid, st.opens, j));
                    assert(st2.instrs[j] == mid[j]);
                    match mid[j] {
                        Instruction::Close { open_index, .. } => {
                            assert(st2.instrs[open_index as int] == mid[open_index as int]);
                            assert(!st.opens.contains(open_index));
                            assert(st2.opens == st.opens.push(newi as usize));
                            assert((open_index as int) < newi);
                            assert forall|q: int|
                                0 <= q < st2.opens.len() implies st2.opens[q] != open_index by {
                                if q < st.opens.len() {
                                    assert(!st.opens.contains(open_index));
                                    assert(st.opens[q] != open_index);
                                }
                            }
                            assert(!st2.opens.contains(open_index));
                        },
                        Instruction::Open { close_index, .. } => {
                            if st.opens.contains(j as usize) {
                                let q = choose|q: int|
                                    0 <= q < st.opens.len() && st.opens[q] == j as usize;
                                assert(st2.opens[q] == j as usize);
                                assert(st2.opens.contains(j as usize));
                            } else {
                                assert(st2.instrs[close_index as int] == mid[close_index as int]);
                            }
                        },
                        _ => {},
                    }
                } else {
                    assert(st2.instrs[j] matches Instruction::Open { .. });
                    assert(st2.opens[st.opens.len() as int] == j as usize);
                    assert(st2.opens.contains(j as usize));
                }
            }
        } else if c == ']' && st.opens.len() > 0 {
            lemma_links_extend(st.instrs, st.opens, flushed_tail);
            let mid = st.instrs + flushed_tail;
            let open_index = st.opens.last();
            let with_close = mid + seq![
                Instruction::Close { offset: st.offset, open_index },
            ];
            let ci = with_close.len() - 1;
            assert(is_open(st.instrs[open_index as int]));
            assert(mid[open_index as int] == st.instrs[open_index as int]);
            let open_offset = match st.instrs[open_index as int] {
                Instruction::Open { offset, .. } => offset,
                _ => 0,
            };
            assert(st2.instrs == with_close.update(
                open_index as int,
                Instruction::Open { offset: open_offset, close_index: ci as usize },
            ));
            assert(st2.opens == st.opens.drop_last());
            // the popped index is on the stack, hence no close points to it,
            // and it is strictly the largest stack entry, hence not on the
            // remaining stack
            assert(st.opens.contains(open_index)) by {
                assert(st.opens[st.opens.len() - 1] == open_index);
            }
            assert(!st2.opens.contains(open_index)) by {
                if st2.opens.contains(open_index) {
                    let q = choose|q: int|
                        0 <= q < st2.opens.len() && st2.opens[q] == open_index;
                    assert(st.opens[q] == open_index);
                    assert(st.opens[q] < st.opens[st.opens.len() - 1]);
                }
            }
            assert forall|j: int| 0 <= j < st2.instrs.len() implies entry_linked(
                st2.instrs,
                st2.opens,
                j,
            ) by {
                if j == open_index as int {
                    assert(st2.instrs[j] matches Instruction::Open { .. });
                    assert(st2.instrs[ci] matches Instruction::Close { .. });
                    assert(entry_linked(st2.instrs, st2.opens, j));
                } else if j == ci {
                    assert(st2.instrs[j] == Instruction::Close {
                        offset: st.offset,
                        open_index,
                    });
                    assert(st2.instrs[open_index as int] == Instruction::Open {
                        offset: open_offset,
                        close_index: ci as usize,
                    });
                    assert(entry_linked(st2.instrs, st2.opens, j));
                } else if j < mid.len() {
                    assert(entry_linked(mid, st.opens, j));
                    assert(st2.instrs[j] == mid[j]);
                    match mid[j] {
                        Instruction::Close { open_index: oi2, .. } => {
                            assert(!st.opens.contains(oi2));
                            assert(oi2 != open_index);
                            assert(st2.instrs[oi2 as int] == mid[oi2 as int]);
                            assert forall|q: int|
                                0 <= q < st2.opens.len() implies st2.opens[q] != oi2 by {
                                assert(st.opens[q] == st2.opens[q]);
                                assert(!st.opens.contains(oi2));
                            }
                            assert(!st2.opens.contains(oi2));
                        },
                        Instruction::Open { close_index: ci2, .. } => {
                            if st.opens.contains(j as usize) {
                                let q = choose|q: int|
                                    0 <= q < st.opens.len() && st.opens[q] == j as usize;
                                assert(q < st.opens.len() - 1) by {
                                    if q == st.opens.len() - 1 {
                                        assert(st.opens[q] == open_index);
                                    }
                                }
                                assert(st2.opens[q] == j as usize);
                                assert(st2.opens.contains(j as usize));
                            } else {
                                assert((ci2 as int) < mid.len());
                                assert(mid[ci2 as int] matches Instruction::Close { .. });
                                assert(ci2 as int != open_index as int);
                                assert(st2.instrs[ci2 as int] == mid[ci2 as int]);
                            }
                        },
                        _ => {},
                    }
                }
            }
        } else {
            // '>', '<', '+', '-' and ignored characters leave the emitted
            // instructions and the stack unchanged
            assert(st2.instrs == st.instrs);
            assert(st2.opens == st.opens);
        }
    }
}

/// While no prefix has closed more loops than were open, the fold succeeds,
/// and the unresolved-loop stack is exactly as deep as the bracket nesting.
pub proof fn lemma_fold_ok(src: Seq<char>, i: int)
    requires
        0 <= i <= src.len(),
        forall|j: int| 0 <= j <= i ==> depth(#[trigger] src.take(j)) >= 0,
    ensures
        fold_upto(src, i) matches Ok(st) && st.opens.len() == depth(src.take(i)),
    decreases i,
{
    if i == 0 {
        assert(src.take(0) =~= Seq::<char>::empty());
    } else {
        lemma_fold_ok(src, i - 1);
        let st = fold_upto(src, i - 1)->Ok_0;
        let c = src[i - 1];
        assert(src.take(i).drop_last() =~= src.take(i - 1));
        assert(src.take(i).last() == c);
        if c == ']' {
            assert(depth(src.take(i)) == depth(src.take(i - 1)) - 1);
            assert(depth(src.take(i)) >= 0);
            assert(st.opens.len() > 0);
        }
    }
}

/// A well-bracketed source always compiles, and every `Open`'s `close_index`
/// names a `Close` whose `open_index` names it back, and vice versa.
pub proof fn lemma_well_bracketed_compiles(src: Seq<char>)
    requires
        src.len() <= 0x7fff_ffff,
        well_bracketed(src),
    ensures
        compilation(src) matches Ok(instrs) && matched_pairs(instrs),
{
    let n = src.len() as int;
    lemma_fold_ok(src, n);
    assert(src.take(n) =~= src);
    let st = fold_upto(src, n)->Ok_0;
    assert(st.opens.len() == 0);
    lemma_fold_links(src, n);
    assert(st.opens =~= Seq::<usize>::empty());
    let tail = crate::program::flushed(st.pending);
    assert(forall|k: int|
        0 <= k < tail.len() ==> (#[trigger] tail[k]) matches Instruction::Add { .. });
    lemma_links_extend(st.instrs, st.opens, tail);
    let instrs = st.instrs + tail;
    assert(compilation(src) == Ok::<Seq<Instruction>, CompileError>(instrs));
    assert forall|j: int| 0 <= j < instrs.len() implies entry_linked(
        instrs,
        Seq::<usize>::empty(),
        j,
    ) by {
        assert(entry_linked(instrs, st.opens, j));
    }
}

/// Walk forward to the first prefix whose depth drops below zero; the
/// character there is a loop end with no loop open, so the fold fails with
/// `UnmatchedClose` and stays failed.
proof fn lemma_first_drop(src: Seq<char>, j: int)
    requires
        0 <= j <= src.len(),
        forall|k: int| 0 <= k <= j ==> depth(#[trigger] src.take(k)) >= 0,
        exists|i: int| 0 <= i <= src.len() && depth(#[trigger] src.take(i)) < 0,
    ensures
        fold_upto(src, src.len() as int) == Err::<FoldState, CompileError>(
            CompileError::UnmatchedClose,
        ),
    decreases src.len() - j,
{
    let wit = choose|i: int| 0 <= i <= src.len() && depth(#[trigger] src.take(i)) < 0;
    assert(wit > j);
    if depth(src.take(j + 1)) >= 0 {
        assert forall|k: int| 0 <= k <= j + 1 implies depth(#[trigger] src.take(k)) >= 0 by {
            if k <= j {
                assert(depth(src.take(k)) >= 0);
            }
        }
        assert(wit > j + 1 || depth(src.take(wit)) >= 0);
        lemma_first_drop(src, j + 1);
    } else {
        assert(src.take(j + 1).drop_last() =~= src.take(j));
        assert(src.take(j + 1).last() == src[j]);
        assert(depth(src.take(j)) >= 0);
        assert(src[j] == ']');
        assert(depth(src.take(j)) == 0);
        lemma_fold_ok(src, j);
        let st = fold_upto(src, j)->Ok_0;
        assert(st.opens.len() == 0);
        assert(fold_upto(src, j + 1) == Err::<FoldState, CompileError>(
            CompileError::UnmatchedClose,
        ));
        lemma_error_persists(src, j + 1, src.len() as int);
    }
}

/// A loop end with no loop open — a prefix whose bracket depth drops below
/// zero — makes compilation fail with `UnmatchedClose`.
pub proof fn lemma_unmatched_close(src: Seq<char>)
    requires
        src.len() <= 0x7fff_ffff,
        exists|i: int| 0 <= i <= src.len() && depth(#[trigger] src.take(i)) < 0,
    ensures
        compilation(src) == Err::<Seq<Instruction>, CompileError>(CompileError::UnmatchedClose),
{
    assert(depth(src.take(0)) >= 0) by {
        assert(src.take(0) =~= Seq::<char>::empty());
    }
    lemma_first_drop(src, 0);
}

/// Compilation succeeds exactly on the well-bracketed sources: the two
/// refusals together cover every other source, so success is owed if and
/// only if no prefix over-closes and nothing stays open.
pub proof fn lemma_compiles_iff_well_bracketed(src: Seq<char>)
    requires
        src.len() <= 0x7fff_ffff,
    ensures
        compilation(src) is Ok <==> well_bracketed(src),
{
    if well_bracketed(src) {
        lemma_well_bracketed_compiles(src);
    } else if exists|i: int| 0 <= i <= src.len() && depth(#[trigger] src.take(i)) < 0 {
        lemma_unmatched_close(src);
    } else {
        assert forall|i: int| 0 <= i <= src.len() implies depth(#[trigger] src.take(i)) >= 0 by {
            if depth(src.take(i)) < 0 {
                assert(exists|j: int| 0 <= j <= src.len() && depth(#[trigger] src.take(j)) < 0);
            }
        }
        assert(src.take(src.len() as int) =~= src);
        assert(depth(src) > 0);
        lemma_unmatched_open(src);
    }
}

/// A source that never over-closes but leaves loops open at the end makes
/// compilation fail with `UnmatchedOpen`.
pub proof fn lemma_unmatched_open(src: Seq<char>)
    requires
        src.len() <= 0x7fff_ffff,
        forall|i: int| 0 <= i <= src.len() ==> depth(#[trigger] src.take(i)) >= 0,
        depth(src) > 0,
    ensures
        compilation(src) == Err::<Seq<Instruction>, CompileError>(CompileError::UnmatchedOpen),
{
    let n = src.len() as int;
    lemma_fold_ok(src, n);
    assert(src.take(n) =~= src);
}

} // verus!
