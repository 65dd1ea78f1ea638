use qqg::token::{ize, Token, TokenKind};
use qqg::utils::{ErrorKind, Location};

#[test]
fn token_ize() {
    assert_eq!(
        ize(
            "test.qq",
            "\"test\" 10 { , }\nquestion answer value title pass by"
        )
        .unwrap(),
        vec![
            Token {
                kind: TokenKind::String("test".to_string()),
                begin: Location { line: 1, col: 1 },
                end: Location { line: 1, col: 7 },
            },
            Token {
                kind: TokenKind::Number(10),
                begin: Location { line: 1, col: 8 },
                end: Location { line: 1, col: 10 },
            },
            Token {
                kind: TokenKind::LBrace,
                begin: Location { line: 1, col: 11 },
                end: Location { line: 1, col: 12 },
            },
            Token {
                kind: TokenKind::Comma,
                begin: Location { line: 1, col: 13 },
                end: Location { line: 1, col: 14 },
            },
            Token {
                kind: TokenKind::RBrace,
                begin: Location { line: 1, col: 15 },
                end: Location { line: 1, col: 16 },
            },
            Token {
                kind: TokenKind::Question,
                begin: Location { line: 2, col: 1 },
                end: Location { line: 2, col: 9 },
            },
            Token {
                kind: TokenKind::Answer,
                begin: Location { line: 2, col: 10 },
                end: Location { line: 2, col: 16 },
            },
            Token {
                kind: TokenKind::Value,
                begin: Location { line: 2, col: 17 },
                end: Location { line: 2, col: 22 },
            },
            Token {
                kind: TokenKind::Title,
                begin: Location { line: 2, col: 23 },
                end: Location { line: 2, col: 28 },
            },
            Token {
                kind: TokenKind::Pass,
                begin: Location { line: 2, col: 29 },
                end: Location { line: 2, col: 33 },
            },
            Token {
                kind: TokenKind::By,
                begin: Location { line: 2, col: 34 },
                end: Location { line: 2, col: 36 },
            },
        ]
    );
}

/// Spans never overlap and never move backwards (the executable face of
/// the span-ordering law).
#[test]
fn token_spans_ordered() {
    let toks = ize(
        "spans.qq",
        "title \"a b\" by \"c\" pass 2 # trailing words\nquestion \"q\" { value -3 }",
    )
    .unwrap();
    let le = |a: &Location, b: &Location| a.line < b.line || (a.line == b.line && a.col <= b.col);
    for t in &toks {
        assert!(le(&t.begin, &t.end));
    }
    for w in toks.windows(2) {
        assert!(le(&w[0].end, &w[1].begin));
    }
}

/// Every bare word outside the keyword table fails with an
/// invalid-keyword error naming that exact run.
#[test]
fn keyword_exhaustive() {
    let err = ize("kw.qq", "bogus").unwrap_err();
    assert_eq!(err.kind, ErrorKind::InvalidKeyword("bogus".to_string()));
    // A run is maximal: a keyword with one more letter is no keyword.
    let err = ize("kw.qq", "titlex \"t\"").unwrap_err();
    assert_eq!(err.kind, ErrorKind::InvalidKeyword("titlex".to_string()));
    assert_eq!(err.loc, Location { line: 1, col: 1 });
}

/// An unterminated string fails with an error at the opening quote.
#[test]
fn unterminated_string() {
    let err = ize("u.qq", "title \"T").unwrap_err();
    assert_eq!(err.kind, ErrorKind::UnterminatedString);
    assert_eq!(err.loc, Location { line: 1, col: 7 });
    assert_eq!(err.file, "u.qq");
}

#[test]
fn numbers() {
    let toks = ize("n.qq", "0 -17 9223372036854775807 -9223372036854775807").unwrap();
    let vals: Vec<isize> = toks
        .iter()
        .map(|t| match &t.kind {
            TokenKind::Number(n) => *n,
            _ => panic!("expected a number"),
        })
        .collect();
    assert_eq!(vals, vec![0, -17, isize::MAX, -isize::MAX]);
}

#[test]
fn malformed_numbers() {
    // A bare minus has no digits to parse.
    let err = ize("n.qq", "value - 3").unwrap_err();
    assert_eq!(err.kind, ErrorKind::MalformedNumber);
    assert_eq!(err.loc, Location { line: 1, col: 7 });
    // Too large for a signed machine integer.
    let err = ize("n.qq", "99999999999999999999").unwrap_err();
    assert_eq!(err.kind, ErrorKind::MalformedNumber);
    // The negative case caps at the same magnitude.
    let err = ize("n.qq", "-9223372036854775808").unwrap_err();
    assert_eq!(err.kind, ErrorKind::MalformedNumber);
}

#[test]
fn unrecognized_character() {
    let err = ize("c.qq", "title @").unwrap_err();
    assert_eq!(err.kind, ErrorKind::UnrecognizedToken("@".to_string()));
    assert_eq!(err.loc, Location { line: 1, col: 7 });
}

#[test]
fn comments_and_whitespace() {
    // A comment runs to the end of its line and produces no token.
    let toks = ize("c.qq", "# a { } \"comment\" 12\npass").unwrap();
    assert_eq!(toks.len(), 1);
    assert_eq!(toks[0].kind, TokenKind::Pass);
    assert_eq!(toks[0].begin, Location { line: 2, col: 1 });
    // Blank input scans to an empty token sequence.
    assert_eq!(ize("e.qq", "").unwrap(), vec![]);
    assert_eq!(ize("e.qq", "  \t\r\n \n").unwrap(), vec![]);
}

/// A string literal may span lines; the cursor still tracks lines within
/// it, so following tokens are located correctly.
#[test]
fn multiline_string() {
    let toks = ize("m.qq", "\"a\nb\" pass").unwrap();
    assert_eq!(toks[0].kind, TokenKind::String("a\nb".to_string()));
    assert_eq!(toks[0].begin, Location { line: 1, col: 1 });
    assert_eq!(toks[0].end, Location { line: 2, col: 3 });
    assert_eq!(toks[1].begin, Location { line: 2, col: 4 });
}
