use brainfsk::{parse, parse_char, Ast, Command, ParseError, ParseErrorKind, Program, Token};

fn chars(s: &str) -> Vec<char> {
    s.chars().collect()
}

fn op_nodes(p: &Program) -> usize {
    p.iter()
        .map(|a| match a {
            Ast::Op(_) => 1,
            Ast::Loop(b) => op_nodes(b),
        })
        .sum()
}

#[test]
fn classifies_each_character() {
    assert_eq!(parse_char('>'), Token::Op(Command::IncPointer));
    assert_eq!(parse_char('<'), Token::Op(Command::DecPointer));
    assert_eq!(parse_char('+'), Token::Op(Command::IncData));
    assert_eq!(parse_char('-'), Token::Op(Command::DecData));
    assert_eq!(parse_char(','), Token::Op(Command::GetByte));
    assert_eq!(parse_char('.'), Token::Op(Command::PutByte));
    assert_eq!(parse_char('['), Token::LoopStart);
    assert_eq!(parse_char(']'), Token::LoopEnd);
    assert_eq!(parse_char('x'), Token::Ignore);
    assert_eq!(parse_char(' '), Token::Ignore);
}

#[test]
fn parses_flat_program() {
    let p = parse(&chars("+ + . comment")).unwrap();
    assert_eq!(p.len(), 3);
    assert!(matches!(p[0], Ast::Op(Command::IncData)));
    assert!(matches!(p[1], Ast::Op(Command::IncData)));
    assert!(matches!(p[2], Ast::Op(Command::PutByte)));
}

#[test]
fn parses_nested_loops() {
    let p = parse(&chars("+[>[-]<-]")).unwrap();
    assert_eq!(p.len(), 2);
    match &p[1] {
        Ast::Loop(body) => {
            assert_eq!(body.len(), 4);
            assert!(matches!(body[0], Ast::Op(Command::IncPointer)));
            match &body[1] {
                Ast::Loop(inner) => {
                    assert_eq!(inner.len(), 1);
                    assert!(matches!(inner[0], Ast::Op(Command::DecData)));
                }
                _ => panic!("expected a loop"),
            }
        }
        _ => panic!("expected a loop"),
    }
}

#[test]
fn balanced_text_counts_operations() {
    let text = "a+[>,b[-]<.]c[]";
    let p = parse(&chars(text)).unwrap();
    let ops = text.chars().filter(|c| "><+-,.".contains(*c)).count();
    assert_eq!(op_nodes(&p), ops);
    assert_eq!(op_nodes(&p), 6);
}

#[test]
fn empty_text_is_empty_program() {
    let p = parse(&chars("")).unwrap();
    assert!(p.is_empty());
}

#[test]
fn empty_loop_parses() {
    let p = parse(&chars("[]")).unwrap();
    assert_eq!(p.len(), 1);
    match &p[0] {
        Ast::Loop(body) => assert!(body.is_empty()),
        _ => panic!("expected a loop"),
    }
}

#[test]
fn lone_close_is_extra() {
    let e = parse(&chars("]")).unwrap_err();
    assert_eq!(e.kind, ParseErrorKind::ExtraClose);
    assert_eq!(e.description(), "extra ']'");
}

#[test]
fn close_after_balanced_is_extra() {
    let e = parse(&chars("+[-]]")).unwrap_err();
    assert_eq!(e.kind, ParseErrorKind::ExtraClose);
}

#[test]
fn extra_close_wins_over_later_open() {
    let e = parse(&chars("][")).unwrap_err();
    assert_eq!(e.kind, ParseErrorKind::ExtraClose);
}

#[test]
fn unclosed_loop_is_missing_close() {
    let e = parse(&chars("+[[-]")).unwrap_err();
    assert_eq!(e.kind, ParseErrorKind::MissingClose);
    assert_eq!(e.description(), "Missing ']' character");
    assert_eq!(e, ParseError::new(ParseErrorKind::MissingClose));
}

#[test]
fn parsing_twice_gives_same_tree() {
    let text = chars("+[>+<-]>[.,]");
    let a = parse(&text).unwrap();
    let b = parse(&text).unwrap();
    assert_eq!(format!("{:?}", a), format!("{:?}", b));
}
