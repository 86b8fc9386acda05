use shaun::lexer::{lex, Lexeme, ParseAtom, ParseToken, SlideWindow};
use shaun::ParseError;

fn chars(s: &str) -> Vec<char> {
    s.chars().collect()
}

fn tokens(s: &str) -> Vec<ParseToken> {
    lex(&chars(s)).unwrap().into_iter().map(|l| l.token).collect()
}

#[test]
fn window_keeps_the_last_characters() {
    let mut w = SlideWindow::new(2);
    assert_eq!(w.first(), '\0');
    w.push('a');
    assert_eq!(w.first(), 'a');
    assert!(!w.holds(&chars("a")));
    w.push('b');
    assert!(w.holds(&chars("ab")));
    w.push('c');
    assert_eq!(w.first(), 'b');
    assert!(w.holds(&chars("bc")));
}

#[test]
fn lexes_each_kind_of_token() {
    let got = lex(&chars("k: [1.5 m] \"s\" true null // c\n")).unwrap();
    let expected = vec![
        Lexeme { token: ParseToken::Id(chars("k")), pos: 0 },
        Lexeme { token: ParseToken::Key(':'), pos: 1 },
        Lexeme { token: ParseToken::Key('['), pos: 3 },
        Lexeme { token: ParseToken::Atom(ParseAtom::Double(chars("1.5"))), pos: 4 },
        Lexeme { token: ParseToken::Id(chars("m")), pos: 8 },
        Lexeme { token: ParseToken::Key(']'), pos: 9 },
        Lexeme { token: ParseToken::Atom(ParseAtom::String(chars("s"))), pos: 11 },
        Lexeme { token: ParseToken::Atom(ParseAtom::Bool(true)), pos: 15 },
        Lexeme { token: ParseToken::Atom(ParseAtom::Null), pos: 20 },
        Lexeme { token: ParseToken::Comment(chars(" c")), pos: 25 },
    ];
    assert_eq!(got, expected);
}

#[test]
fn comment_bodies() {
    assert_eq!(tokens("/* a*b */x"), vec![ParseToken::Comment(chars(" a*b ")), ParseToken::Id(chars("x"))]);
    assert_eq!(tokens("(note)"), vec![ParseToken::Comment(chars("note"))]);
    assert_eq!(tokens("# to end"), vec![ParseToken::Comment(chars(" to end"))]);
    assert_eq!(tokens("/*/ open"), vec![ParseToken::Comment(chars("/ open"))]);
    assert_eq!(tokens("/ x"), vec![ParseToken::Comment(vec![]), ParseToken::Id(chars("x"))]);
}

#[test]
fn multiline_literal_trims_one_newline_each_side() {
    assert_eq!(tokens("\"\nab\n\""), vec![ParseToken::Atom(ParseAtom::String(chars("ab")))]);
    assert_eq!(tokens("\"\n\nab\n\n\""), vec![ParseToken::Atom(ParseAtom::String(chars("\nab\n")))]);
    assert_eq!(tokens("\"ab"), vec![ParseToken::Atom(ParseAtom::String(chars("ab")))]);
}

#[test]
fn non_ascii_letters_start_identifiers() {
    assert_eq!(tokens("été"), vec![ParseToken::Id(chars("été"))]);
    assert_eq!(tokens("_x1"), vec![ParseToken::Id(chars("_x1"))]);
}

#[test]
fn lexing_errors() {
    assert_eq!(lex(&chars("x 1..")), Err(ParseError::MalformedNumber(2)));
    assert_eq!(lex(&chars("\"a\\")), Err(ParseError::UnexpectedEnd(3)));
}
