//! The lexical classifier and the parser from text to program tree.
use vstd::prelude::*;
use crate::ast::{
    code_of, command_char, lemma_op_chars_code_of, lemma_op_chars_render, op_chars, op_count, render,
    same_tree, Ast, Command, Program,
};

verus! {

broadcast use vstd::seq::group_seq_axioms, vstd::std_specs::vec::group_vec_axioms;

/// Which bracket rule a text breaks.
#[derive(Debug, Clone, Copy, PartialEq, Eq, Structural)]
pub enum ParseErrorKind {
    /// A `]` with no open loop before it.
    ExtraClose,
    /// A `[` still open at the end of the text.
    MissingClose,
}

/// Failure to parse a program: its brackets do not balance.
#[derive(Debug, Clone, Copy, PartialEq, Eq, Structural)]
pub struct ParseError {
    pub kind: ParseErrorKind,
}

impl ParseError {
    pub fn new(kind: ParseErrorKind) -> (r: ParseError)
        ensures
            r.kind == kind,
    {
        ParseError { kind }
    }

    /// The message that names the broken rule.
    pub fn description(&self) -> (r: &'static str)
        ensures
            self.kind == ParseErrorKind::ExtraClose ==> r@ == "extra ']'"@,
            self.kind == ParseErrorKind::MissingClose ==> r@ == "Missing ']' character"@,
    {
        match self.kind {
            ParseErrorKind::ExtraClose => "extra ']'",
            ParseErrorKind::MissingClose => "Missing ']' character",
        }
    }
}

/// What one character of source text means.
#[derive(Debug, Clone, Copy, PartialEq, Eq, Structural)]
pub enum Token {
    Op(Command),
    LoopStart,
    LoopEnd,
    Ignore,
}

pub open spec fn token_of(c: char) -> Token {
    if c == '>' {
        Token::Op(Command::IncPointer)
    } else if c == '<' {
        Token::Op(Command::DecPointer)
    } else if c == '+' {
        Token::Op(Command::IncData)
    } else if c == '-' {
        Token::Op(Command::DecData)
    } else if c == ',' {
        Token::Op(Command::GetByte)
    } else if c == '.' {
        Token::Op(Command::PutByte)
    } else if c == '[' {
        Token::LoopStart
    } else if c == ']' {
        Token::LoopEnd
    } else {
        Token::Ignore
    }
}

/// Classifies one character of source text.
pub fn parse_char(c: char) -> (r: Token)
    ensures
        r == token_of(c),
{
    match c {
        '>' => Token::Op(Command::IncPointer),
        '<' => Token::Op(Command::DecPointer),
        '+' => Token::Op(Command::IncData),
        '-' => Token::Op(Command::DecData),
        ',' => Token::Op(Command::GetByte),
        '.' => Token::Op(Command::PutByte),
        '[' => Token::LoopStart,
        ']' => Token::LoopEnd,
        _ => Token::Ignore,
    }
}

/// Loop nesting depth after a text: opened minus closed loop markers.
pub open spec fn depth(s: Seq<char>) -> int
    decreases s.len(),
{
    if s.len() == 0 {
        0
    } else {
        depth(s.drop_last()) + if s.last() == '[' {
            1int
        } else if s.last() == ']' {
            -1int
        } else {
            0int
        }
    }
}

/// Some `]` closes no open `[` before it.
pub open spec fn has_extra_close(s: Seq<char>) -> bool {
    exists|i: int| 0 <= i <= s.len() && #[trigger] depth(s.take(i)) < 0
}

/// Every `]` closes an earlier `[`, but some `[` is never closed.
pub open spec fn has_missing_close(s: Seq<char>) -> bool {
    !has_extra_close(s) && depth(s) > 0
}

/// The loop markers of the text pair up.
pub open spec fn is_balanced(s: Seq<char>) -> bool {
    !has_extra_close(s) && depth(s) == 0
}

/// The text read so far by the parser, given its stack of open bodies:
/// the outermost body, then each open loop as `[` and its body so far.
spec fn open_text(st: Seq<Vec<Ast>>) -> Seq<char>
    decreases st.len(),
{
    if st.len() == 0 {
        Seq::empty()
    } else {
        open_text(st.drop_last()) + (if st.len() == 1 {
            Seq::empty()
        } else {
            seq!['[']
        }) + render(st.last()@)
    }
}

/// Parses a program.
///
/// Succeeds exactly on texts whose loop markers balance, with the program
/// whose text is the input's code characters; otherwise reports the first
/// rule broken.
pub fn parse(stream: &Vec<char>) -> (r: Result<Program, ParseError>)
    ensures
        r is Ok <==> is_balanced(stream@),
        r matches Err(e) && e.kind == ParseErrorKind::ExtraClose <==> has_extra_close(stream@),
        r matches Err(e) && e.kind == ParseErrorKind::MissingClose <==> has_missing_close(
            stream@,
        ),
        r matches Ok(p) ==> render(p@) == code_of(stream@),
{
    let ghost s = stream@;
    let mut stack: Vec<Program> = Vec::new();
    stack.push(Vec::new());
    let mut i: usize = 0;
    proof {
        assert(s.take(0) =~= Seq::<char>::empty());
        assert(open_text(stack@) =~= Seq::<char>::empty()) by {
            assert(stack@.drop_last() =~= Seq::<Program>::empty());
            assert(open_text(Seq::<Program>::empty()) =~= Seq::<char>::empty());
            assert(render(stack@.last()@) =~= Seq::<char>::empty());
        }
    }
    while i < stream.len()
        invariant
            s == stream@,
            i <= s.len(),
            stack.len() >= 1,
            stack.len() - 1 == depth(s.take(i as int)),
            forall|j: int| 0 <= j <= i ==> #[trigger] depth(s.take(j)) >= 0,
            open_text(stack@) == code_of(s.take(i as int)),
        decreases s.len() - i,
    {
        let c = stream[i];
        proof {
            assert(s.take(i + 1).drop_last() =~= s.take(i as int));
            assert(s.take(i + 1).last() == c);
        }
        let ghost before = stack@;
        match parse_char(c) {
            Token::Op(cmd) => {
                let mut top = stack.pop().unwrap();
                let ghost old_top = top@;
                top.push(Ast::Op(cmd));
                stack.push(top);
                proof {
                    assert(top@.drop_last() =~= old_top);
                    assert(stack@.drop_last() =~= before.drop_last());
                    assert(render(top@) == render(old_top) + seq![c]);
                    assert(open_text(stack@) =~= open_text(before) + seq![c]);
                }
            },
            Token::LoopStart => {
                stack.push(Vec::new());
                proof {
                    assert(stack@.drop_last() =~= before);
                    assert(render(stack@.last()@) =~= Seq::<char>::empty());
                    assert(open_text(stack@) =~= open_text(before) + seq![c]);
                }
            },
            Token::LoopEnd => {
                if stack.len() == 1 {
                    proof {
                        assert(depth(s.take(i + 1)) < 0);
                    }
                    return Err(ParseError::new(ParseErrorKind::ExtraClose));
                }
                let body = stack.pop().unwrap();
                let mut parent = stack.pop().unwrap();
                let ghost rest = stack@;
                let ghost old_parent = parent@;
                parent.push(Ast::Loop(body));
                stack.push(parent);
                proof {
                    assert(parent@.drop_last() =~= old_parent);
                    assert(before.drop_last().last()@ == old_parent);
                    assert(before.drop_last().drop_last() =~= rest);
                    assert(stack@.drop_last() =~= rest);
                    assert(render(parent@) == render(old_parent) + (seq!['['] + render(body@)
                        + seq![']']));
                    assert(open_text(stack@) =~= open_text(before) + seq![c]);
                }
            },
            Token::Ignore => {
                proof {
                    assert(code_of(s.take(i + 1)) =~= code_of(s.take(i as int)));
                }
            },
        }
        i = i + 1;
        proof {
            assert forall|j: int| 0 <= j <= i implies #[trigger] depth(s.take(j)) >= 0 by {
                if j == i {
                    assert(depth(s.take(j)) == stack.len() - 1);
                }
            }
        }
    }
    proof {
        assert(s.take(i as int) =~= s);
    }
    if stack.len() == 1 {
        proof {
            assert(stack@.drop_last() =~= Seq::<Program>::empty());
            assert(open_text(Seq::<Program>::empty()) =~= Seq::<char>::empty());
            assert(open_text(stack@) =~= render(stack@.last()@));
        }
        let p = stack.pop().unwrap();
        Ok(p)
    } else {
        Err(ParseError::new(ParseErrorKind::MissingClose))
    }
}

/// A program parsed from a text whose loop markers balance holds one
/// operation node, at any depth, for each operation character of the text.
pub proof fn lemma_parse_op_count(s: Seq<char>, p: Seq<Ast>)
    requires
        is_balanced(s),
        render(p) == code_of(s),
    ensures
        op_count(p) == op_chars(s),
{
    lemma_op_chars_render(p);
    lemma_op_chars_code_of(s);
}

/// Every prefix has non-negative depth, and the whole has depth zero.
pub open spec fn is_nested(s: Seq<char>) -> bool {
    depth(s) == 0 && forall|i: int| 0 <= i <= s.len() ==> #[trigger] depth(s.take(i)) >= 0
}

proof fn lemma_depth_append(x: Seq<char>, y: Seq<char>)
    ensures
        depth(x + y) == depth(x) + depth(y),
    decreases y.len(),
{
    if y.len() == 0 {
        assert(x + y =~= x);
    } else {
        assert((x + y).drop_last() =~= x + y.drop_last());
        lemma_depth_append(x, y.drop_last());
    }
}

proof fn lemma_depth_unit(c: char)
    ensures
        depth(seq![c]) == if c == '[' {
            1int
        } else if c == ']' {
            -1int
        } else {
            0int
        },
{
    assert(seq![c].drop_last() =~= Seq::<char>::empty());
    assert(depth(Seq::<char>::empty()) == 0);
    assert(seq![c].last() == c);
}

/// The text of a program has its loop markers paired.
proof fn lemma_render_nested(p: Seq<Ast>)
    ensures
        is_nested(render(p)),
    decreases p,
{
    if p.len() == 0 {
        assert forall|i: int| 0 <= i <= render(p).len() implies #[trigger] depth(render(p).take(i))
            >= 0 by {
            assert(render(p).take(i) =~= Seq::<char>::empty());
        }
    } else {
        let x = render(p.drop_last());
        lemma_render_nested(p.drop_last());
        match p.last() {
            Ast::Op(c) => {
                let y = seq![command_char(c)];
                lemma_depth_unit(command_char(c));
                lemma_depth_append(x, y);
                assert forall|i: int| 0 <= i <= render(p).len() implies #[trigger] depth(
                    render(p).take(i),
                ) >= 0 by {
                    if i <= x.len() {
                        assert(render(p).take(i) =~= x.take(i));
                    } else {
                        assert(render(p).take(i) =~= x + y);
                    }
                }
            },
            Ast::Loop(b) => {
                let a = render(b@);
                lemma_render_nested(b@);
                let y = seq!['['] + a + seq![']'];
                lemma_depth_unit('[');
                lemma_depth_unit(']');
                lemma_depth_append(seq!['['], a);
                lemma_depth_append(seq!['['] + a, seq![']']);
                lemma_depth_append(x, y);
                assert forall|i: int| 0 <= i <= render(p).len() implies #[trigger] depth(
                    render(p).take(i),
                ) >= 0 by {
                    if i <= x.len() {
                        assert(render(p).take(i) =~= x.take(i));
                    } else if i <= x.len() + 1 + a.len() {
                        let j = i - x.len() - 1;
                        assert(render(p).take(i) =~= (x + seq!['[']) + a.take(j));
                        lemma_depth_append(x + seq!['['], a.take(j));
                        lemma_depth_append(x, seq!['[']);
                    } else {
                        assert(render(p).take(i) =~= x + y);
                    }
                }
            },
        }
    }
}

/// In `x[a]` with `x` and `a` nested, the final `]` closes the `[` just
/// after `x`, so `x` and `a` are determined by the whole.
proof fn lemma_split_unique(x1: Seq<char>, a1: Seq<char>, x2: Seq<char>, a2: Seq<char>)
    requires
        is_nested(x1),
        is_nested(a1),
        is_nested(x2),
        is_nested(a2),
        x1 + (seq!['['] + a1 + seq![']']) == x2 + (seq!['['] + a2 + seq![']']),
    ensures
        x1 == x2,
        a1 == a2,
{
    let w = x1 + (seq!['['] + a1 + seq![']']);
    let w2 = x2 + (seq!['['] + a2 + seq![']']);
    assert(w =~= ((x1 + seq!['[']) + a1) + seq![']']);
    assert(w2 =~= ((x2 + seq!['[']) + a2) + seq![']']);
    lemma_depth_unit('[');
    lemma_depth_append(x1, seq!['[']);
    lemma_depth_append(x2, seq!['[']);
    if x1.len() < x2.len() {
        let j = x2.len() - x1.len() - 1;
        assert(j < a1.len());
        assert(w.take(x2.len() as int) =~= x2);
        assert(w.take(x2.len() as int) =~= (x1 + seq!['[']) + a1.take(j));
        lemma_depth_append(x1 + seq!['['], a1.take(j));
        assert(depth(x2) > 0);
    } else if x2.len() < x1.len() {
        let j = x1.len() - x2.len() - 1;
        assert(j < a2.len());
        assert(w2.take(x1.len() as int) =~= x1);
        assert(w2.take(x1.len() as int) =~= (x2 + seq!['[']) + a2.take(j));
        lemma_depth_append(x2 + seq!['['], a2.take(j));
        assert(depth(x1) > 0);
    }
    assert(x1 =~= w.take(x1.len() as int));
    assert(x2 =~= w2.take(x2.len() as int));
    assert(a1 =~= w.subrange((x1.len() + 1) as int, (w.len() - 1) as int));
    assert(a2 =~= w2.subrange((x2.len() + 1) as int, (w.len() - 1) as int));
}

/// Programs with the same text have the same tree.
pub proof fn lemma_render_injective(p: Seq<Ast>, q: Seq<Ast>)
    requires
        render(p) == render(q),
    ensures
        same_tree(p, q),
    decreases p,
{
    if p.len() > 0 && q.len() > 0 {
        let w = render(p);
        match (p.last(), q.last()) {
            (Ast::Op(a), Ast::Op(b)) => {
                assert(w.last() == command_char(a));
                assert(w.last() == command_char(b));
                assert(render(p.drop_last()) =~= w.drop_last());
                assert(render(q.drop_last()) =~= w.drop_last());
                lemma_render_injective(p.drop_last(), q.drop_last());
            },
            (Ast::Loop(a), Ast::Loop(b)) => {
                lemma_render_nested(p.drop_last());
                lemma_render_nested(q.drop_last());
                lemma_render_nested(a@);
                lemma_render_nested(b@);
                lemma_split_unique(render(p.drop_last()), render(a@), render(q.drop_last()), render(b@));
                lemma_render_injective(p.drop_last(), q.drop_last());
                lemma_render_injective(a@, b@);
            },
            (Ast::Op(a), Ast::Loop(_)) => {
                assert(w.last() == command_char(a));
                assert(w.last() == ']');
            },
            (Ast::Loop(_), Ast::Op(b)) => {
                assert(w.last() == command_char(b));
                assert(w.last() == ']');
            },
        }
    }
}

/// Parsing one text twice gives the same tree: a program parsed from a text
/// is fixed by the text.
pub proof fn lemma_parse_unique(s: Seq<char>, p: Seq<Ast>, q: Seq<Ast>)
    requires
        render(p) == code_of(s),
        render(q) == code_of(s),
    ensures
        same_tree(p, q),
{
    lemma_render_injective(p, q);
}

} // verus!
