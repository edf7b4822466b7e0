//! The data tape and data pointer a program runs against.
use vstd::prelude::*;

verus! {

broadcast use vstd::seq::group_seq_axioms, vstd::std_specs::vec::group_vec_axioms;

/// The tape after writing `v` at address `a`: grown with zeros up to `a`
/// where it was shorter.
pub open spec fn write_cell(t: Seq<u8>, a: int, v: u8) -> Seq<u8> {
    if a < t.len() {
        t.update(a, v)
    } else {
        (t + Seq::new((a - t.len()) as nat, |_j: int| 0u8)).push(v)
    }
}

/// The value at address `a` of a tape that reads zero past its end.
pub open spec fn cell_of(t: Seq<u8>, a: int) -> u8 {
    if 0 <= a < t.len() {
        t[a]
    } else {
        0
    }
}

/// A write changes the written cell only, and grows the tape just enough
/// to hold it.
pub proof fn lemma_write_cell(t: Seq<u8>, a: int, v: u8)
    requires
        0 <= a,
    ensures
        cell_of(write_cell(t, a, v), a) == v,
        forall|j: int| j != a ==> cell_of(#[trigger] write_cell(t, a, v), j) == cell_of(t, j),
        write_cell(t, a, v).len() == if a < t.len() { t.len() as int } else { a + 1 },
{
}

/// Tape and data pointer of a running program.
#[derive(Debug)]
pub struct Context {
    dp: usize,
    data: Vec<u8>,
}

impl Context {
    /// The data pointer.
    pub closed spec fn pointer(&self) -> usize {
        self.dp
    }

    /// The written part of the tape; every address past it reads zero.
    pub closed spec fn tape(&self) -> Seq<u8> {
        self.data@
    }

    /// The value at address `a`.
    pub open spec fn cell(&self, a: int) -> u8 {
        cell_of(self.tape(), a)
    }

    /// A context with the pointer at zero and every cell zero.
    pub fn new() -> (r: Context)
        ensures
            r.pointer() == 0,
            r.tape() == Seq::<u8>::empty(),
    {
        Context { dp: 0, data: Vec::new() }
    }

    /// Writes `value` at `address`, growing the tape with zeros where it is
    /// shorter.
    pub fn setdata(&mut self, address: usize, value: u8)
        ensures
            final(self).pointer() == old(self).pointer(),
            final(self).tape() == write_cell(old(self).tape(), address as int, value),
            final(self).cell(address as int) == value,
            forall|j: int| j != address ==> #[trigger] final(self).cell(j) == old(self).cell(j),
    {
        let ghost t0 = self.data@;
        let ghost dp0 = self.dp;
        if address >= self.data.len() {
            let ghost zeros = Seq::new((address - t0.len()) as nat, |_j: int| 0u8);
            while self.data.len() < address
                invariant
                    self.dp == dp0,
                    t0.len() <= self.data.len() <= address,
                    zeros.len() == address - t0.len(),
                    forall|j: int| 0 <= j < zeros.len() ==> zeros[j] == 0,
                    self.data@ == t0 + zeros.take(self.data.len() - t0.len()),
                decreases address - self.data.len(),
            {
                let ghost before = self.data@;
                self.data.push(0);
                proof {
                    assert(zeros.take(self.data.len() - t0.len()) =~= zeros.take(before.len()
                        - t0.len()).push(0));
                    assert(self.data@ =~= t0 + zeros.take(self.data.len() - t0.len()));
                }
            }
            proof {
                assert(zeros.take(self.data.len() - t0.len()) =~= zeros);
            }
            self.data.push(value);
        } else {
            self.data.set(address, value);
        }
        proof {
            assert(self.data@ =~= write_cell(t0, address as int, value));
            lemma_write_cell(t0, address as int, value);
        }
    }

    /// The value at `address`; zero past the written part of the tape.
    pub fn getdata(&self, address: usize) -> (r: u8)
        ensures
            r == self.cell(address as int),
    {
        if address >= self.data.len() {
            0
        } else {
            self.data[address]
        }
    }

    /// The value under the data pointer.
    pub fn cur_data(&self) -> (r: u8)
        ensures
            r == self.cell(self.pointer() as int),
    {
        self.getdata(self.dp)
    }

    /// Writes `value` under the data pointer.
    pub fn set_cur_data(&mut self, value: u8)
        ensures
            final(self).pointer() == old(self).pointer(),
            final(self).tape() == write_cell(old(self).tape(), old(self).pointer() as int, value),
    {
        let dp = self.dp;
        self.setdata(dp, value)
    }

    /// Moves the data pointer to `pointer`.
    pub fn set_pointer(&mut self, pointer: usize)
        ensures
            final(self).pointer() == pointer,
            final(self).tape() == old(self).tape(),
    {
        self.dp = pointer;
    }

    /// The data pointer.
    pub fn get_pointer(&self) -> (r: usize)
        ensures
            r == self.pointer(),
    {
        self.dp
    }
}

} // verus!
