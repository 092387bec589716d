use bfvm::CompileError;
use bfvm::Instruction;
use bfvm::Program;

#[test]
fn empty_source_compiles_to_nothing() {
    let p = Program::compile("").unwrap();
    assert!(p.instructions.is_empty());
}

#[test]
fn comment_characters_are_ignored() {
    let p = Program::compile("hello world! no commands here?").unwrap();
    assert!(p.instructions.is_empty());
}

#[test]
fn adjacent_moves_and_increments_fold() {
    // four increments, two decrements at cell 0, then a net move right and
    // one increment there: two Add instructions in first-touch order
    let p = Program::compile("++++--><<>>+").unwrap();
    assert_eq!(
        p.instructions,
        vec![
            Instruction::Add { offset: 0, amount: 2 },
            Instruction::Add { offset: 1, amount: 1 },
        ]
    );
}

#[test]
fn cancelled_deltas_flush_as_inert_adds() {
    let p = Program::compile("+-.").unwrap();
    assert_eq!(
        p.instructions,
        vec![
            Instruction::Add { offset: 0, amount: 0 },
            Instruction::Output { offset: 0 },
        ]
    );
}

#[test]
fn output_keeps_virtual_offset() {
    // the offset is carried by the Output instruction and not reset by it
    let p = Program::compile(">.+").unwrap();
    assert_eq!(
        p.instructions,
        vec![
            Instruction::Output { offset: 1 },
            Instruction::Add { offset: 1, amount: 1 },
        ]
    );
}

#[test]
fn brackets_carry_offsets_and_link_each_other() {
    let p = Program::compile(">[<]").unwrap();
    assert_eq!(
        p.instructions,
        vec![
            Instruction::Open { offset: 1, close_index: 1 },
            Instruction::Close { offset: -1, open_index: 0 },
        ]
    );
}

#[test]
fn nested_loops_link_mutually() {
    let p = Program::compile("+[>[-]<-]").unwrap();
    let instrs = &p.instructions;
    // every Open points at a Close that points back, and vice versa
    for (i, inst) in instrs.iter().enumerate() {
        match *inst {
            Instruction::Open { close_index, .. } => {
                match instrs[close_index] {
                    Instruction::Close { open_index, .. } => assert_eq!(open_index, i),
                    ref other => panic!("close_index of {} leads to {:?}", i, other),
                }
                assert!(close_index > i);
            }
            Instruction::Close { open_index, .. } => {
                match instrs[open_index] {
                    Instruction::Open { close_index, .. } => assert_eq!(close_index, i),
                    ref other => panic!("open_index of {} leads to {:?}", i, other),
                }
                assert!(open_index < i);
            }
            _ => {}
        }
    }
}

#[test]
fn lone_close_is_refused() {
    assert_eq!(Program::compile("]").unwrap_err(), CompileError::UnmatchedClose);
}

#[test]
fn close_after_balanced_prefix_is_refused() {
    assert_eq!(Program::compile("[]]").unwrap_err(), CompileError::UnmatchedClose);
}

#[test]
fn trailing_open_is_refused() {
    assert_eq!(Program::compile("[[]").unwrap_err(), CompileError::UnmatchedOpen);
}

#[test]
fn lone_open_is_refused() {
    assert_eq!(Program::compile("[").unwrap_err(), CompileError::UnmatchedOpen);
}

#[test]
fn over_closing_wins_over_trailing_open() {
    // the depth drops below zero before the end, so the refusal is the
    // close-side one even though an open would also be left at the end
    assert_eq!(Program::compile("][").unwrap_err(), CompileError::UnmatchedClose);
}

#[test]
fn trailing_deltas_flush_at_end_of_input() {
    let p = Program::compile("[-]++>+++").unwrap();
    assert_eq!(
        p.instructions,
        vec![
            Instruction::Open { offset: 0, close_index: 2 },
            Instruction::Add { offset: 0, amount: -1 },
            Instruction::Close { offset: 0, open_index: 0 },
            Instruction::Add { offset: 0, amount: 2 },
            Instruction::Add { offset: 1, amount: 3 },
        ]
    );
}
