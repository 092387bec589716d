//! Folding is a pure optimization: the folding compiler plus engine and a
//! naive one-instruction-per-character interpreter agree on the final tape
//! and on the output byte stream, over a spread of sources and inputs.

use bfvm::ByteChannel;
use bfvm::Machine;
use bfvm::Program;

/// A naive reference interpreter: one step per meaningful character, no
/// folding, same tape-wrapping, cell-wrapping and end-of-stream rules.
fn naive_run(source: &str, input: &[u8], tape_len: usize, step_limit: usize) -> (Vec<u8>, Vec<u8>) {
    let chars: Vec<char> = source.chars().collect();
    // match brackets up front
    let mut jumps = vec![0usize; chars.len()];
    let mut stack = Vec::new();
    for (i, c) in chars.iter().enumerate() {
        match c {
            '[' => stack.push(i),
            ']' => {
                let open = stack.pop().expect("well-bracketed source");
                jumps[open] = i;
                jumps[i] = open;
            }
            _ => {}
        }
    }
    assert!(stack.is_empty(), "well-bracketed source");

    let mut tape = vec![0u8; tape_len];
    let mut ptr = 0usize;
    let mut pc = 0usize;
    let mut read = 0usize;
    let mut output = Vec::new();
    let mut steps = 0usize;
    while pc < chars.len() {
        steps += 1;
        assert!(steps <= step_limit, "reference interpreter ran too long");
        match chars[pc] {
            '>' => ptr = (ptr + 1) % tape_len,
            '<' => ptr = (ptr + tape_len - 1) % tape_len,
            '+' => tape[ptr] = tape[ptr].wrapping_add(1),
            '-' => tape[ptr] = tape[ptr].wrapping_sub(1),
            '.' => output.push(tape[ptr]),
            ',' => {
                tape[ptr] = if read < input.len() {
                    read += 1;
                    input[read - 1]
                } else {
                    0
                };
            }
            '[' => {
                if tape[ptr] == 0 {
                    pc = jumps[pc];
                }
            }
            ']' => {
                if tape[ptr] != 0 {
                    pc = jumps[pc];
                }
            }
            _ => {}
        }
        pc += 1;
    }
    (tape, output)
}

fn folded_run(source: &str, input: &[u8], tape_len: usize) -> (Vec<u8>, Vec<u8>) {
    let program = Program::compile(source).unwrap();
    let mut machine: Machine<u8> = Machine::new(tape_len);
    let mut channel = ByteChannel::new(input.to_vec());
    let done = machine.execute(&program, &mut channel, 100_000_000);
    assert!(done);
    let mut tape = Vec::new();
    for i in 0..tape_len {
        tape.push(machine.cell(i));
    }
    (tape, channel.into_output())
}

fn assert_equivalent(source: &str, input: &[u8], tape_len: usize) {
    let (naive_tape, naive_out) = naive_run(source, input, tape_len, 10_000_000);
    let (folded_tape, folded_out) = folded_run(source, input, tape_len);
    assert_eq!(naive_tape, folded_tape, "tapes differ on {:?}", source);
    assert_eq!(naive_out, folded_out, "outputs differ on {:?}", source);
}

#[test]
fn folding_is_unobservable_on_plain_increments() {
    assert_equivalent("++++--><<>>+", &[], 8);
    assert_equivalent("+", &[], 8);
    assert_equivalent("+>++>+++<-", &[], 8);
}

#[test]
fn folding_is_unobservable_around_io() {
    assert_equivalent(">.+.", &[], 8);
    assert_equivalent(",>,<.>.", &[3, 9], 8);
    assert_equivalent(",+.,+.,+.", &[10, 20], 8);
}

#[test]
fn folding_is_unobservable_across_loops() {
    assert_equivalent("+++++[->+<]", &[], 8);
    assert_equivalent("++[>++[>+<-]<-]>>.", &[], 8);
    assert_equivalent("+>>>>[-]", &[], 4);
    assert_equivalent("--[-->+++<]>.", &[], 16);
}

#[test]
fn folding_is_unobservable_on_mixed_sources() {
    let sources = [
        "+->+<>><<-+[.,]",
        ">>><<++[-->++<]>>+.-.",
        ",[->+>+<<]>.>.",
        "+++[->++[->>+<<]<]>>>.",
        "<-<->>+.[<.>-]",
    ];
    let inputs: [&[u8]; 3] = [&[], &[1], &[255, 0, 7]];
    for source in sources.iter() {
        for input in inputs.iter() {
            assert_equivalent(source, input, 16);
        }
    }
}

#[test]
fn folding_is_unobservable_on_hello_world() {
    let source = "++++++++[>++++[>++>+++>+++>+<<<<-]>+>+>->>+[<]<-]\
                  >>.>---.+++++++..+++.>>.<-.<.+++.------.--------.>>+.>++.";
    assert_equivalent(source, &[], 65536);
}
