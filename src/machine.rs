//! Step-wise execution of a program tree against a context.
//!
//! A machine holds a program, a context and a position in the program. Each
//! step performs at most one operation or one loop decision, and tells the
//! caller whether it produced output, needs an input byte, or has halted, so
//! that the caller performs the input and output.
use vstd::prelude::*;
use crate::ast::{Ast, Command, Program};
use crate::context::{cell_of, lemma_write_cell, write_cell, Context};

verus! {

broadcast use vstd::seq::group_seq_axioms, vstd::std_specs::vec::group_vec_axioms;

/// What a step of execution hands back to its caller.
#[derive(Debug, Clone, Copy, PartialEq, Eq, Structural)]
pub enum Event {
    /// An operation or a loop decision was carried out.
    Ran,
    /// The byte was written out; the caller emits it.
    Output(u8),
    /// The current operation reads a byte; the caller supplies one to the
    /// next step.
    NeedInput,
    /// The program has finished; further steps change nothing.
    Halted,
}

/// The abstract state of a machine.
///
/// `path` is the position in the program: its first entry indexes the top
/// level; each further entry indexes the body of the loop that the entry
/// before it names. The last entry may equal its body's length: the body is
/// then complete.
pub struct MachineState {
    pub pointer: usize,
    pub tape: Seq<u8>,
    pub path: Seq<usize>,
}

/// `path` is a position in `p`.
pub open spec fn valid_path(p: Seq<Ast>, path: Seq<usize>) -> bool
    decreases path.len(),
{
    if path.len() == 0 {
        false
    } else if path.len() == 1 {
        path[0] <= p.len()
    } else {
        path[0] < p.len() && match p[path[0] as int] {
            Ast::Loop(b) => valid_path(b@, path.drop_first()),
            Ast::Op(_) => false,
        }
    }
}

/// The body that the last entry of a valid `path` indexes.
pub open spec fn body_at(p: Seq<Ast>, path: Seq<usize>) -> Seq<Ast>
    decreases path.len(),
{
    if path.len() <= 1 || path[0] >= p.len() {
        p
    } else {
        match p[path[0] as int] {
            Ast::Loop(b) => body_at(b@, path.drop_first()),
            Ast::Op(_) => p,
        }
    }
}

/// The pointer after a move right: the next address, wrapping to zero.
pub open spec fn pointer_right(a: usize) -> usize {
    if a == usize::MAX {
        0
    } else {
        (a + 1) as usize
    }
}

/// The pointer after a move left: the previous address, wrapping to the top.
pub open spec fn pointer_left(a: usize) -> usize {
    if a == 0 {
        usize::MAX
    } else {
        (a - 1) as usize
    }
}

/// One more, modulo 256.
pub open spec fn byte_up(v: u8) -> u8 {
    ((v + 1) % 256) as u8
}

/// One less, modulo 256.
pub open spec fn byte_down(v: u8) -> u8 {
    ((v + 255) % 256) as u8
}

/// One step of execution of program `p` from state `s`; `input` is the byte
/// offered to a read operation.
///
/// At an operation the step performs it and moves on. At a loop it enters
/// the body if the cell under the pointer is non-zero, and moves past the
/// loop otherwise. At the end of a loop body it returns to the loop itself,
/// whose condition is then read again. At the end of the program it halts.
pub open spec fn next(p: Seq<Ast>, s: MachineState, input: Option<u8>) -> (MachineState, Event) {
    let body = body_at(p, s.path);
    let n = s.path.len();
    let k = s.path.last() as int;
    let here = cell_of(s.tape, s.pointer as int);
    let moved_on = s.path.update(n - 1, (k + 1) as usize);
    if !valid_path(p, s.path) || (k == body.len() && n == 1) {
        (s, Event::Halted)
    } else if k == body.len() {
        (MachineState { pointer: s.pointer, tape: s.tape, path: s.path.drop_last() }, Event::Ran)
    } else {
        match body[k] {
            Ast::Op(Command::IncPointer) => (
                MachineState { pointer: pointer_right(s.pointer), tape: s.tape, path: moved_on },
                Event::Ran,
            ),
            Ast::Op(Command::DecPointer) => (
                MachineState { pointer: pointer_left(s.pointer), tape: s.tape, path: moved_on },
                Event::Ran,
            ),
            Ast::Op(Command::IncData) => (
                MachineState {
                    pointer: s.pointer,
                    tape: write_cell(s.tape, s.pointer as int, byte_up(here)),
                    path: moved_on,
                },
                Event::Ran,
            ),
            Ast::Op(Command::DecData) => (
                MachineState {
                    pointer: s.pointer,
                    tape: write_cell(s.tape, s.pointer as int, byte_down(here)),
                    path: moved_on,
                },
                Event::Ran,
            ),
            Ast::Op(Command::GetByte) => match input {
                Some(v) => (
                    MachineState {
                        pointer: s.pointer,
                        tape: write_cell(s.tape, s.pointer as int, v),
                        path: moved_on,
                    },
                    Event::Ran,
                ),
                None => (s, Event::NeedInput),
            },
            Ast::Op(Command::PutByte) => (
                MachineState { pointer: s.pointer, tape: s.tape, path: moved_on },
                Event::Output(here),
            ),
            Ast::Loop(_) => if here == 0 {
                (MachineState { pointer: s.pointer, tape: s.tape, path: moved_on }, Event::Ran)
            } else {
                (MachineState { pointer: s.pointer, tape: s.tape, path: s.path.push(0) }, Event::Ran)
            },
        }
    }
}

/// The body that `path` ends in, where `path` is a position in `p`.
fn body_of<'a>(p: &'a Vec<Ast>, path: &Vec<usize>) -> (r: Option<&'a Vec<Ast>>)
    ensures
        valid_path(p@, path@) <==> (r matches Some(b) && path@.last() <= b@.len()),
        r matches Some(b) ==> b@ == body_at(p@, path@) && path@.len() >= 1,
{
    if path.len() == 0 {
        return None;
    }
    let mut body: &Vec<Ast> = p;
    let mut i: usize = 0;
    proof {
        assert(path@.subrange(0, path@.len() as int) =~= path@);
    }
    while i + 1 < path.len()
        invariant
            i < path.len(),
            valid_path(p@, path@) <==> valid_path(body@, path@.subrange(i as int, path@.len() as int)),
            body_at(p@, path@) == body_at(body@, path@.subrange(i as int, path@.len() as int)),
        decreases path.len() - i,
    {
        let ghost sub = path@.subrange(i as int, path@.len() as int);
        proof {
            assert(sub.drop_first() =~= path@.subrange(i + 1, path@.len() as int));
        }
        let idx = path[i];
        if idx >= body.len() {
            return None;
        }
        match &body[idx] {
            Ast::Loop(b) => {
                body = b;
            },
            Ast::Op(_) => {
                return None;
            },
        }
        i = i + 1;
    }
    proof {
        let sub = path@.subrange(i as int, path@.len() as int);
        assert(sub.len() == 1 && sub[0] == path@.last());
    }
    Some(body)
}

/// A program being run against a context.
pub struct Machine {
    program: Program,
    ctx: Context,
    path: Vec<usize>,
}

impl Machine {
    /// The program being run.
    pub closed spec fn program(&self) -> Seq<Ast> {
        self.program@
    }

    /// Pointer, tape and position.
    pub closed spec fn state(&self) -> MachineState {
        MachineState { pointer: self.ctx.pointer(), tape: self.ctx.tape(), path: self.path@ }
    }

    /// A machine about to run `program` from its first node against `ctx`.
    pub fn new(program: Program, ctx: Context) -> (r: Machine)
        ensures
            r.program() == program@,
            r.state().pointer == ctx.pointer(),
            r.state().tape == ctx.tape(),
            r.state().path == seq![0usize],
    {
        let mut path: Vec<usize> = Vec::new();
        path.push(0);
        Machine { program, ctx, path }
    }

    /// The context, as the steps so far have left it.
    pub fn context(&self) -> (r: &Context)
        ensures
            r.pointer() == self.state().pointer,
            r.tape() == self.state().tape,
    {
        &self.ctx
    }

    /// Takes the context out of the machine.
    pub fn into_context(self) -> (r: Context)
        ensures
            r.pointer() == self.state().pointer,
            r.tape() == self.state().tape,
    {
        self.ctx
    }

    /// Performs one step of execution; `input` is the byte that a read
    /// operation stores, where the previous step asked for one.
    pub fn step(&mut self, input: Option<u8>) -> (e: Event)
        ensures
            final(self).program() == old(self).program(),
            (final(self).state(), e) == next(old(self).program(), old(self).state(), input),
    {
        let n = self.path.len();
        let body = match body_of(&self.program, &self.path) {
            Some(b) => b,
            None => {
                return Event::Halted;
            },
        };
        let k = self.path[n - 1];
        if k > body.len() {
            return Event::Halted;
        }
        if k == body.len() {
            if n == 1 {
                return Event::Halted;
            }
            self.path.pop();
            return Event::Ran;
        }
        let here = self.ctx.cur_data();
        let dp = self.ctx.get_pointer();
        match &body[k] {
            Ast::Op(Command::IncPointer) => {
                self.ctx.set_pointer(dp.wrapping_add(1));
            },
            Ast::Op(Command::DecPointer) => {
                self.ctx.set_pointer(dp.wrapping_sub(1));
            },
            Ast::Op(Command::IncData) => {
                self.ctx.set_cur_data(here.wrapping_add(1));
            },
            Ast::Op(Command::DecData) => {
                self.ctx.set_cur_data(here.wrapping_sub(1));
            },
            Ast::Op(Command::GetByte) => match input {
                Some(v) => {
                    self.ctx.set_cur_data(v);
                },
                None => {
                    return Event::NeedInput;
                },
            },
            Ast::Op(Command::PutByte) => {
                self.path.set(n - 1, k + 1);
                return Event::Output(here);
            },
            Ast::Loop(_) => {
                if here != 0 {
                    self.path.push(0);
                    return Event::Ran;
                }
            },
        }
        self.path.set(n - 1, k + 1);
        Event::Ran
    }
}

/// The state after `n` steps that are offered no input.
pub open spec fn run(p: Seq<Ast>, s: MachineState, n: nat) -> MachineState
    decreases n,
{
    if n == 0 {
        s
    } else {
        run(p, next(p, s, None).0, (n - 1) as nat)
    }
}

/// The node that the next step works on, where there is one.
pub open spec fn at_node(p: Seq<Ast>, s: MachineState, a: Ast) -> bool {
    valid_path(p, s.path) && s.path.last() < body_at(p, s.path).len() && body_at(p, s.path)[s.path.last() as int] == a
}

/// Cell arithmetic wraps: an increment takes 255 to 0, a decrement takes
/// 0 to 255, and otherwise they add or take away one.
pub proof fn lemma_cell_arithmetic_wraps(p: Seq<Ast>, s: MachineState)
    ensures
        at_node(p, s, Ast::Op(Command::IncData)) ==> cell_of(next(p, s, None).0.tape, s.pointer as int)
            == if cell_of(s.tape, s.pointer as int) == 255 {
            0
        } else {
            (cell_of(s.tape, s.pointer as int) + 1) as u8
        },
        at_node(p, s, Ast::Op(Command::DecData)) ==> cell_of(next(p, s, None).0.tape, s.pointer as int)
            == if cell_of(s.tape, s.pointer as int) == 0 {
            255
        } else {
            (cell_of(s.tape, s.pointer as int) - 1) as u8
        },
{
    let here = cell_of(s.tape, s.pointer as int);
    lemma_write_cell(s.tape, s.pointer as int, byte_up(here));
    lemma_write_cell(s.tape, s.pointer as int, byte_down(here));
}

/// Pointer arithmetic wraps: a move right from the top address reaches
/// address zero, and a move left from address zero reaches the top address.
pub proof fn lemma_pointer_wraps(p: Seq<Ast>, s: MachineState)
    ensures
        at_node(p, s, Ast::Op(Command::IncPointer)) ==> next(p, s, None).0.pointer == if s.pointer
            == usize::MAX {
            0
        } else {
            (s.pointer + 1) as usize
        },
        at_node(p, s, Ast::Op(Command::DecPointer)) ==> next(p, s, None).0.pointer == if s.pointer
            == 0 {
            usize::MAX
        } else {
            (s.pointer - 1) as usize
        },
{
}

/// `p` is one loop whose body is one decrement.
pub open spec fn is_countdown(p: Seq<Ast>) -> bool {
    p.len() == 1 && (p[0] matches Ast::Loop(b) && b@ == seq![Ast::Op(Command::DecData)])
}

/// One round of a countdown loop on a non-zero cell takes three steps: it
/// enters the body, decrements, and returns to the loop.
proof fn lemma_countdown_round(p: Seq<Ast>, s: MachineState, n: nat)
    requires
        is_countdown(p),
        s.path == seq![0usize],
        cell_of(s.tape, s.pointer as int) != 0,
    ensures
        next(p, s, None).0.path == seq![0usize, 0usize],
        run(p, s, 3).path == seq![0usize],
        run(p, s, 3).pointer == s.pointer,
        cell_of(run(p, s, 3).tape, s.pointer as int) == cell_of(s.tape, s.pointer as int) - 1,
        run(p, s, n + 3) == run(p, run(p, s, 3), n),
{
    let b = match p[0] {
        Ast::Loop(b) => b,
        Ast::Op(_) => arbitrary(),
    };
    assert(valid_path(p, s.path));
    let s1 = next(p, s, None).0;
    assert(s1.path =~= seq![0usize, 0usize]);
    assert(s1.path.drop_first() =~= seq![0usize]);
    assert(valid_path(b@, seq![0usize]));
    assert(body_at(b@, seq![0usize]) == b@);
    assert(valid_path(p, s1.path));
    assert(body_at(p, s1.path) == b@);
    let s2 = next(p, s1, None).0;
    let here = cell_of(s.tape, s.pointer as int);
    lemma_write_cell(s.tape, s.pointer as int, byte_down(here));
    assert(s2.path =~= seq![0usize, 1usize]);
    assert(s2.path.drop_first() =~= seq![1usize]);
    assert(valid_path(b@, seq![1usize]));
    assert(body_at(b@, seq![1usize]) == b@);
    assert(valid_path(p, s2.path));
    assert(body_at(p, s2.path) == b@);
    let s3 = next(p, s2, None).0;
    assert(s3.path =~= seq![0usize]);
    assert(run(p, s, 3) == run(p, s1, 2));
    assert(run(p, s1, 2) == run(p, s2, 1));
    assert(run(p, s2, 1) == run(p, s3, 0));
    assert(run(p, s, n + 3) == run(p, s1, n + 2));
    assert(run(p, s1, n + 2) == run(p, s2, n + 1));
    assert(run(p, s2, n + 1) == run(p, s3, n));
}

/// Loop semantics: the program `[-]`, started on a cell holding `m`, enters
/// its body exactly `m` times, each time on a cell one lower, then leaves
/// the loop with the cell at zero and halts. On a zero cell it leaves at
/// once.
pub proof fn lemma_countdown_loop(p: Seq<Ast>, s: MachineState, j: nat)
    requires
        is_countdown(p),
        s.path == seq![0usize],
    ensures
        j < cell_of(s.tape, s.pointer as int) ==> run(p, s, (3 * j + 1) as nat).path == seq![0usize, 0usize]
            && cell_of(run(p, s, (3 * j + 1) as nat).tape, s.pointer as int) == cell_of(s.tape, s.pointer as int)
            - j,
        ({
            let e = run(p, s, (3 * cell_of(s.tape, s.pointer as int) + 1) as nat);
            &&& e.path == seq![1usize]
            &&& e.pointer == s.pointer
            &&& cell_of(e.tape, s.pointer as int) == 0
            &&& next(p, e, None).1 == Event::Halted
        }),
    decreases cell_of(s.tape, s.pointer as int),
{
    let m = cell_of(s.tape, s.pointer as int);
    assert(valid_path(p, s.path));
    if m == 0 {
        let e = next(p, s, None).0;
        assert(e.path =~= seq![1usize]);
        assert(run(p, s, 1) == run(p, e, 0));
        assert(valid_path(p, e.path));
    } else {
        lemma_countdown_round(p, s, (3 * (m - 1) + 1) as nat);
        let s3 = run(p, s, 3);
        if j > 0 {
            lemma_countdown_round(p, s, (3 * (j - 1) + 1) as nat);
            lemma_countdown_loop(p, s3, (j - 1) as nat);
        } else {
            let s1 = next(p, s, None).0;
            assert(run(p, s, 1) == run(p, s1, 0));
        }
        lemma_countdown_loop(p, s3, 0);
    }
}

} // verus!
