use bfvm::ByteChannel;
use bfvm::Machine;
use bfvm::Program;
use bfvm::Value;

const FUEL: u64 = 100_000_000;

fn run_u8(source: &str, input: Vec<u8>, tape: usize) -> (Machine<u8>, Vec<u8>, bool) {
    let program = Program::compile(source).unwrap();
    let mut machine: Machine<u8> = Machine::new(tape);
    let mut channel = ByteChannel::new(input);
    let done = machine.execute(&program, &mut channel, FUEL);
    (machine, channel.into_output(), done)
}

#[test]
fn cell_copy_idiom_moves_a_value() {
    let program = Program::compile("[->+<]").unwrap();
    let mut machine: Machine<u8> = Machine::new(16);
    machine.set_cell(0, 5);
    let mut channel = ByteChannel::new(Vec::new());
    let done = machine.execute(&program, &mut channel, FUEL);
    assert!(done);
    assert_eq!(machine.cell(0), 0);
    assert_eq!(machine.cell(1), 5);
}

#[test]
fn cell_copy_idiom_from_plain_source() {
    let (machine, output, done) = run_u8("+++++[->+<]", Vec::new(), 16);
    assert!(done);
    assert!(output.is_empty());
    assert_eq!(machine.cell(0), 0);
    assert_eq!(machine.cell(1), 5);
}

#[test]
fn cell_wraps_down_to_top_value() {
    let (machine, _, done) = run_u8("-", Vec::new(), 4);
    assert!(done);
    assert_eq!(machine.cell(0), 255);
}

#[test]
fn cell_wraps_up_to_zero() {
    let program = Program::compile("+").unwrap();
    let mut machine: Machine<u8> = Machine::new(4);
    machine.set_cell(0, 255);
    let mut channel = ByteChannel::new(Vec::new());
    let done = machine.execute(&program, &mut channel, FUEL);
    assert!(done);
    assert_eq!(machine.cell(0), 0);
}

#[test]
fn value_arithmetic_wraps_at_every_width() {
    let mut a: u8 = 255;
    Value::add(&mut a, 1);
    assert_eq!(a, 0);
    let mut b: u8 = 0;
    Value::add(&mut b, -1);
    assert_eq!(b, 255);
    let mut c: u16 = 65535;
    Value::add(&mut c, 1);
    assert_eq!(c, 0);
    let mut d: u16 = 0;
    Value::add(&mut d, -1);
    assert_eq!(d, 65535);
    let mut e: u32 = u32::MAX;
    Value::add(&mut e, 1);
    assert_eq!(e, 0);
    let mut f: u32 = 0;
    Value::add(&mut f, -1);
    assert_eq!(f, u32::MAX);
}

#[test]
fn value_byte_conversions_truncate_and_widen() {
    let v: u32 = 0x1_2345;
    assert_eq!(Value::get_byte(&v), 0x45);
    let mut w: u32 = 7;
    Value::set_byte(&mut w, 0xAB);
    assert_eq!(w, 0xAB);
    let x: u16 = 0x0305;
    assert_eq!(Value::get_byte(&x), 0x05);
    assert!(Value::is_zero(&0u8));
    assert!(!Value::is_zero(&1u8));
}

#[test]
fn pointer_wraps_past_the_upper_bound() {
    // on a four-cell tape, an increment four cells to the right lands on
    // cell zero again
    let (machine, _, done) = run_u8(">>>>+", Vec::new(), 4);
    assert!(done);
    assert_eq!(machine.cell(0), 1);
    assert_eq!(machine.cell(1), 0);
    assert_eq!(machine.cell(2), 0);
    assert_eq!(machine.cell(3), 0);
}

#[test]
fn pointer_wraps_past_the_lower_bound() {
    let (machine, _, done) = run_u8("<+", Vec::new(), 4);
    assert!(done);
    assert_eq!(machine.cell(3), 1);
    assert_eq!(machine.cell(0), 0);
}

#[test]
fn real_pointer_wraps_at_loop_brackets() {
    // the Open carries offset 4, which wraps the real pointer back onto
    // cell 0, whose value the loop then clears
    let (machine, _, done) = run_u8("+>>>>[-]", Vec::new(), 4);
    assert!(done);
    assert_eq!(machine.cell(0), 0);
    assert_eq!(machine.cell(1), 0);
    assert_eq!(machine.cell(2), 0);
    assert_eq!(machine.cell(3), 0);
}

#[test]
fn hello_world_produces_exactly_its_bytes() {
    let source = "++++++++[>++++[>++>+++>+++>+<<<<-]>+>+>->>+[<]<-]\
                  >>.>---.+++++++..+++.>>.<-.<.+++.------.--------.>>+.>++.";
    let (_, output, done) = run_u8(source, Vec::new(), 65536);
    assert!(done);
    assert_eq!(output, b"Hello World!\n".to_vec());
}

#[test]
fn hello_world_is_width_agnostic() {
    let source = "++++++++[>++++[>++>+++>+++>+<<<<-]>+>+>->>+[<]<-]\
                  >>.>---.+++++++..+++.>>.<-.<.+++.------.--------.>>+.>++.";
    let program = Program::compile(source).unwrap();
    let mut machine: Machine<u32> = Machine::new(65536);
    let mut channel = ByteChannel::new(Vec::new());
    let done = machine.execute(&program, &mut channel, FUEL);
    assert!(done);
    assert_eq!(channel.into_output(), b"Hello World!\n".to_vec());
}

#[test]
fn input_end_of_stream_zero_fills() {
    let program = Program::compile(",").unwrap();
    let mut machine: Machine<u8> = Machine::new(4);
    machine.set_cell(0, 7);
    let mut channel = ByteChannel::new(Vec::new());
    let done = machine.execute(&program, &mut channel, FUEL);
    assert!(done);
    assert_eq!(machine.cell(0), 0);
}

#[test]
fn input_bytes_are_read_in_order_then_zero() {
    let (machine, output, done) = run_u8(",.>,.>,.", vec![65, 66], 8);
    assert!(done);
    assert_eq!(output, vec![65, 66, 0]);
    assert_eq!(machine.cell(0), 65);
    assert_eq!(machine.cell(1), 66);
    assert_eq!(machine.cell(2), 0);
}

#[test]
fn output_truncates_wide_cells_to_a_byte() {
    let mut source = String::new();
    for _ in 0..300 {
        source.push('+');
    }
    source.push('.');
    let program = Program::compile(&source).unwrap();
    let mut machine: Machine<u32> = Machine::new(4);
    let mut channel = ByteChannel::new(Vec::new());
    let done = machine.execute(&program, &mut channel, FUEL);
    assert!(done);
    assert_eq!(machine.cell(0), 300);
    assert_eq!(channel.into_output(), vec![44]);
}

#[test]
fn sixteen_bit_cells_wrap_at_their_own_width() {
    let program = Program::compile("-").unwrap();
    let mut machine: Machine<u16> = Machine::new(4);
    let mut channel = ByteChannel::new(Vec::new());
    let done = machine.execute(&program, &mut channel, FUEL);
    assert!(done);
    assert_eq!(machine.cell(0), 65535);
}

#[test]
fn non_terminating_program_runs_out_of_fuel() {
    let program = Program::compile("+[]").unwrap();
    let mut machine: Machine<u8> = Machine::new(4);
    let mut channel = ByteChannel::new(Vec::new());
    let done = machine.execute(&program, &mut channel, 1_000);
    assert!(!done);
}

#[test]
fn execution_resumes_on_fresh_fuel() {
    // a long but finite countdown: not done after one step, done after more
    let program = Program::compile("----------[-]").unwrap();
    let mut machine: Machine<u8> = Machine::new(4);
    let mut channel = ByteChannel::new(Vec::new());
    let first = machine.execute(&program, &mut channel, 1);
    assert!(!first);
    let mut done = false;
    for _ in 0..1000 {
        if machine.execute(&program, &mut channel, 10) {
            done = true;
            break;
        }
    }
    assert!(done);
    assert_eq!(machine.cell(0), 0);
}

#[test]
fn channel_reads_then_signals_end() {
    let mut channel = ByteChannel::new(vec![1, 2]);
    assert_eq!(channel.read_byte(), Some(1));
    assert_eq!(channel.read_byte(), Some(2));
    assert_eq!(channel.read_byte(), None);
    channel.write_byte(9);
    channel.write_byte(8);
    assert_eq!(channel.into_output(), vec![9, 8]);
}
