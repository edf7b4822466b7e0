//! The program tree and its textual form.
use vstd::prelude::*;

verus! {

broadcast use vstd::seq::group_seq_axioms, vstd::std_specs::vec::group_vec_axioms;

/// A single primitive operation of the language.
#[derive(Debug, Clone, Copy, PartialEq, Eq, Structural)]
pub enum Command {
    IncPointer,
    DecPointer,
    IncData,
    DecData,
    GetByte,
    PutByte,
}

/// A node of a program tree: an operation, or a loop owning its body.
#[derive(Debug)]
pub enum Ast {
    Op(Command),
    Loop(Vec<Ast>),
}

/// A program is the list of its top-level nodes, in execution order.
pub type Program = Vec<Ast>;

/// The source character of each operation.
pub open spec fn command_char(c: Command) -> char {
    match c {
        Command::IncPointer => '>',
        Command::DecPointer => '<',
        Command::IncData => '+',
        Command::DecData => '-',
        Command::GetByte => ',',
        Command::PutByte => '.',
    }
}

/// Characters that name an operation.
pub open spec fn is_op_char(c: char) -> bool {
    c == '>' || c == '<' || c == '+' || c == '-' || c == ',' || c == '.'
}

/// Characters that the language reads: operations and loop markers.
pub open spec fn is_code_char(c: char) -> bool {
    is_op_char(c) || c == '[' || c == ']'
}

/// The text of a program: each operation as its character, each loop as its
/// body between `[` and `]`.
pub open spec fn render(p: Seq<Ast>) -> Seq<char>
    decreases p,
{
    if p.len() == 0 {
        Seq::empty()
    } else {
        render(p.drop_last()) + match p.last() {
            Ast::Op(c) => seq![command_char(c)],
            Ast::Loop(b) => seq!['['] + render(b@) + seq![']'],
        }
    }
}

/// Two programs have the same tree: node for node the same operation, or
/// loops whose bodies have the same tree.
pub open spec fn same_tree(p: Seq<Ast>, q: Seq<Ast>) -> bool
    decreases p,
{
    p.len() == q.len() && (p.len() == 0 || (same_tree(p.drop_last(), q.drop_last()) && match (
        p.last(),
        q.last(),
    ) {
        (Ast::Op(a), Ast::Op(b)) => a == b,
        (Ast::Loop(a), Ast::Loop(b)) => same_tree(a@, b@),
        _ => false,
    }))
}

/// Number of operation nodes in a program, at every depth.
pub open spec fn op_count(p: Seq<Ast>) -> nat
    decreases p,
{
    if p.len() == 0 {
        0
    } else {
        op_count(p.drop_last()) + match p.last() {
            Ast::Op(_) => 1nat,
            Ast::Loop(b) => op_count(b@),
        }
    }
}

/// Number of operation characters in a text.
pub open spec fn op_chars(s: Seq<char>) -> nat
    decreases s.len(),
{
    if s.len() == 0 {
        0
    } else {
        op_chars(s.drop_last()) + if is_op_char(s.last()) { 1nat } else { 0nat }
    }
}

/// The code characters of a text, in order, with everything else left out.
pub open spec fn code_of(s: Seq<char>) -> Seq<char>
    decreases s.len(),
{
    if s.len() == 0 {
        Seq::empty()
    } else {
        code_of(s.drop_last()) + if is_code_char(s.last()) {
            seq![s.last()]
        } else {
            Seq::empty()
        }
    }
}

/// Operation characters of a concatenation add up.
pub proof fn lemma_op_chars_append(a: Seq<char>, b: Seq<char>)
    ensures
        op_chars(a + b) == op_chars(a) + op_chars(b),
    decreases b.len(),
{
    if b.len() > 0 {
        assert((a + b).drop_last() =~= a + b.drop_last());
        lemma_op_chars_append(a, b.drop_last());
    } else {
        assert(a + b =~= a);
    }
}

/// The text of a program has one operation character per operation node.
pub proof fn lemma_op_chars_render(p: Seq<Ast>)
    ensures
        op_chars(render(p)) == op_count(p),
    decreases p,
{
    if p.len() > 0 {
        lemma_op_chars_render(p.drop_last());
        let tail = match p.last() {
            Ast::Op(c) => seq![command_char(c)],
            Ast::Loop(b) => seq!['['] + render(b@) + seq![']'],
        };
        lemma_op_chars_append(render(p.drop_last()), tail);
        match p.last() {
            Ast::Op(c) => {
                assert(seq![command_char(c)].drop_last() =~= Seq::<char>::empty());
                assert(op_chars(Seq::<char>::empty()) == 0);
                assert(op_chars(seq![command_char(c)]) == 1);
            },
            Ast::Loop(b) => {
                lemma_op_chars_render(b@);
                lemma_op_chars_append(seq!['['] + render(b@), seq![']']);
                lemma_op_chars_append(seq!['['], render(b@));
                assert(seq!['['].drop_last() =~= Seq::<char>::empty());
                assert(seq![']'].drop_last() =~= Seq::<char>::empty());
                assert(op_chars(Seq::<char>::empty()) == 0);
                assert(op_chars(seq!['[']) == 0);
                assert(op_chars(seq![']']) == 0);
            },
        }
    }
}

/// Leaving out the characters that are not code keeps every operation character.
pub proof fn lemma_op_chars_code_of(s: Seq<char>)
    ensures
        op_chars(code_of(s)) == op_chars(s),
    decreases s.len(),
{
    if s.len() > 0 {
        lemma_op_chars_code_of(s.drop_last());
        let tail = if is_code_char(s.last()) { seq![s.last()] } else { Seq::empty() };
        lemma_op_chars_append(code_of(s.drop_last()), tail);
        assert(seq![s.last()].drop_last() =~= Seq::<char>::empty());
        assert(op_chars(Seq::<char>::empty()) == 0);
        if is_code_char(s.last()) {
            assert(op_chars(tail) == if is_op_char(s.last()) { 1nat } else { 0nat });
        } else {
            assert(op_chars(tail) == 0);
        }
    }
}

} // verus!
