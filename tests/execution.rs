use brainfsk::{byte_of_line, parse, Context, Event, Machine};

fn machine(text: &str, ctx: Context) -> Machine {
    Machine::new(parse(&text.chars().collect()).unwrap(), ctx)
}

/// Runs to the end, feeding `input` to reads; returns the output and the
/// number of steps taken.
fn run_all(m: &mut Machine, input: &[u8]) -> (Vec<u8>, usize) {
    let mut out = Vec::new();
    let mut next_in = 0;
    let mut offer = None;
    let mut steps = 0;
    loop {
        match m.step(offer.take()) {
            Event::Ran => steps += 1,
            Event::Output(b) => {
                steps += 1;
                out.push(b)
            }
            Event::NeedInput => {
                offer = Some(input[next_in]);
                next_in += 1;
            }
            Event::Halted => return (out, steps),
        }
    }
}

#[test]
fn new_context_reads_zero_everywhere() {
    let c = Context::new();
    assert_eq!(c.get_pointer(), 0);
    assert_eq!(c.getdata(0), 0);
    assert_eq!(c.getdata(12345), 0);
    assert_eq!(c.getdata(usize::MAX), 0);
}

#[test]
fn far_write_keeps_lower_cells() {
    let mut c = Context::new();
    c.setdata(3, 7);
    c.setdata(100, 9);
    assert_eq!(c.getdata(3), 7);
    assert_eq!(c.getdata(100), 9);
    assert_eq!(c.getdata(50), 0);
    assert_eq!(c.getdata(101), 0);
    c.setdata(3, 8);
    assert_eq!(c.getdata(3), 8);
    assert_eq!(c.getdata(100), 9);
}

#[test]
fn current_cell_follows_pointer() {
    let mut c = Context::new();
    c.set_pointer(4);
    c.set_cur_data(42);
    assert_eq!(c.cur_data(), 42);
    assert_eq!(c.getdata(4), 42);
    c.set_pointer(5);
    assert_eq!(c.cur_data(), 0);
}

#[test]
fn plus_plus_dot_prints_two() {
    let mut m = machine("++.", Context::new());
    let (out, _) = run_all(&mut m, &[]);
    assert_eq!(out, vec![2u8]);
}

#[test]
fn moves_one_into_next_cell() {
    let mut m = machine("+[>+<-]", Context::new());
    run_all(&mut m, &[]);
    let c = m.into_context();
    assert_eq!(c.getdata(0), 0);
    assert_eq!(c.getdata(1), 1);
    assert_eq!(c.get_pointer(), 0);
}

#[test]
fn empty_loop_on_zero_is_no_op() {
    let mut m = machine("[]", Context::new());
    let (out, steps) = run_all(&mut m, &[]);
    assert!(out.is_empty());
    assert_eq!(steps, 1);
    assert_eq!(m.context().get_pointer(), 0);
    assert_eq!(m.context().getdata(0), 0);
}

#[test]
fn countdown_runs_once_per_unit() {
    let mut c = Context::new();
    c.setdata(0, 5);
    let mut m = machine("[-]", c);
    let (_, steps) = run_all(&mut m, &[]);
    assert_eq!(steps, 3 * 5 + 1);
    assert_eq!(m.context().getdata(0), 0);
}

#[test]
fn countdown_on_zero_stops_at_once() {
    let mut m = machine("[-]", Context::new());
    let (_, steps) = run_all(&mut m, &[]);
    assert_eq!(steps, 1);
    assert_eq!(m.context().getdata(0), 0);
}

#[test]
fn decrement_of_zero_wraps() {
    let mut m = machine("-", Context::new());
    run_all(&mut m, &[]);
    assert_eq!(m.context().getdata(0), 255);
}

#[test]
fn increment_of_max_wraps() {
    let mut c = Context::new();
    c.setdata(0, 255);
    let mut m = machine("+", c);
    run_all(&mut m, &[]);
    assert_eq!(m.context().getdata(0), 0);
}

#[test]
fn pointer_wraps_both_ways() {
    let mut m = machine("<", Context::new());
    run_all(&mut m, &[]);
    assert_eq!(m.context().get_pointer(), usize::MAX);
    let mut m = machine(">", m.into_context());
    run_all(&mut m, &[]);
    assert_eq!(m.context().get_pointer(), 0);
}

#[test]
fn read_asks_then_stores() {
    let mut m = machine(",.", Context::new());
    assert_eq!(m.step(None), Event::NeedInput);
    assert_eq!(m.step(None), Event::NeedInput);
    assert_eq!(m.step(Some(65)), Event::Ran);
    assert_eq!(m.step(None), Event::Output(65));
    assert_eq!(m.step(None), Event::Halted);
    assert_eq!(m.step(None), Event::Halted);
}

#[test]
fn echo_program_copies_input() {
    let mut m = machine(",[.,]", Context::new());
    let (out, _) = run_all(&mut m, &[104, 105, 0]);
    assert_eq!(out, vec![104u8, 105]);
}

#[test]
fn hello_program_prints() {
    let text = "++++++++[>++++[>++>+++>+++>+<<<<-]>+>+>->>+[<]<-]>>.>---.+++++++..+++.>>.<-.<.+++.------.--------.>>+.>++.";
    let mut m = machine(text, Context::new());
    let (out, _) = run_all(&mut m, &[]);
    assert_eq!(String::from_utf8(out).unwrap(), "Hello World!\n");
}

#[test]
fn typed_line_to_byte() {
    assert_eq!(byte_of_line("a\n"), Some(97));
    assert_eq!(byte_of_line("a\r\n"), Some(97));
    assert_eq!(byte_of_line("a"), Some(97));
    assert_eq!(byte_of_line("\u{ff}\n"), Some(255));
    assert_eq!(byte_of_line("\u{100}\n"), None);
    assert_eq!(byte_of_line("ab\n"), None);
    assert_eq!(byte_of_line("\n"), None);
    assert_eq!(byte_of_line(""), None);
}
