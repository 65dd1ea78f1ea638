use qqg::ast::{ify, Metaline, Question, Quiz};
use qqg::token::ize;
use qqg::utils::{ErrorKind, Location};

#[test]
fn ast_ify() {
    assert_eq!(
        ify(
            &ize(
                "test.qq",
                r#"title "test quiz" by "sarkar-segfault" pass 3

                question "does life have any meaning?" {
	                answer {
		                "no"
	                }
	                value 3
                }"#
            )
            .unwrap(),
            "test.qq"
        )
        .unwrap(),
        Quiz {
            questions: vec![Question {
                answer: vec!["no".to_string()],
                text: "does life have any meaning?".to_string(),
                value: 3
            }],
            metaline: Metaline {
                title: "test quiz".to_string(),
                by: "sarkar-segfault".to_string(),
                pass: 3
            }
        }
    );
}

fn parse(file: &str, text: &str) -> Result<Quiz, qqg::utils::Error> {
    ify(&ize(file, text).unwrap(), file)
}

/// Parsing the same token sequence twice, from two independent lexer
/// runs on identical source, yields structurally equal documents.
#[test]
fn reparse_idempotent() {
    let text = "title \"t\" by \"b\" pass 2\nquestion \"q\" { answer { \"a\", \"b\" } value 2 }";
    let once = ify(&ize("i.qq", text).unwrap(), "i.qq").unwrap();
    let twice = ify(&ize("i.qq", text).unwrap(), "i.qq").unwrap();
    assert_eq!(once, twice);
}

/// A source missing the `by` keyword after the title string fails with a
/// located expected-`by` error and produces no document.
#[test]
fn missing_by() {
    let err = parse("c.qq", "title \"T\" pass 1").unwrap_err();
    assert_eq!(err.kind, ErrorKind::ExpectedBy);
    assert_eq!(err.loc, Location { line: 1, col: 11 });
    assert_eq!(err.file, "c.qq");
}

/// An answer block with zero strings fails with an empty-answer-list
/// error.
#[test]
fn empty_answer_list() {
    let err = parse("e.qq", "question \"q\" { answer { } }").unwrap_err();
    assert_eq!(err.kind, ErrorKind::EmptyAnswerList);
}

#[test]
fn missing_pass() {
    let err = parse("p.qq", "title \"a\" by \"b\" value 1").unwrap_err();
    assert_eq!(err.kind, ErrorKind::ExpectedPass);
}

#[test]
fn expected_string() {
    let err = parse("s.qq", "title pass").unwrap_err();
    assert_eq!(err.kind, ErrorKind::ExpectedString);
    let err = parse("s.qq", "question { }").unwrap_err();
    assert_eq!(err.kind, ErrorKind::ExpectedString);
}

#[test]
fn missing_brace() {
    let err = parse("b.qq", "question \"q\" value 1").unwrap_err();
    assert_eq!(err.kind, ErrorKind::MissingBrace);
    let err = parse("b.qq", "question \"q\" { answer \"x\" }").unwrap_err();
    assert_eq!(err.kind, ErrorKind::MissingBrace);
}

#[test]
fn unexpected_end() {
    // Every expect-next that finds the stream empty points at the last
    // consumed token.
    let err = parse("u.qq", "title \"T\" by").unwrap_err();
    assert_eq!(err.kind, ErrorKind::UnexpectedEnd);
    assert_eq!(err.loc, Location { line: 1, col: 11 });
    let err = parse("u.qq", "question \"q\" { answer { \"x\" }").unwrap_err();
    assert_eq!(err.kind, ErrorKind::UnexpectedEnd);
}

#[test]
fn unexpected_token() {
    // At top level only `title` and `question` may stand.
    let err = parse("t.qq", "}").unwrap_err();
    assert_eq!(err.kind, ErrorKind::UnexpectedToken);
    assert_eq!(err.loc, Location { line: 1, col: 1 });
    // Inside a question body only `value` and `answer` may stand.
    let err = parse("t.qq", "question \"q\" { pass }").unwrap_err();
    assert_eq!(err.kind, ErrorKind::UnexpectedToken);
    // A threshold must be a number.
    let err = parse("t.qq", "title \"a\" by \"b\" pass \"3\"").unwrap_err();
    assert_eq!(err.kind, ErrorKind::UnexpectedToken);
}

/// An empty source parses to the empty document.
#[test]
fn empty_source() {
    let quiz = parse("e.qq", "").unwrap();
    assert_eq!(quiz.metaline.title, "");
    assert_eq!(quiz.metaline.by, "");
    assert_eq!(quiz.metaline.pass, 0);
    assert_eq!(quiz.questions, vec![]);
}

/// The grammar does not cap metaline declarations: the last one wins.
#[test]
fn metaline_last_wins() {
    let quiz = parse(
        "m.qq",
        "title \"a\" by \"b\" pass 1\ntitle \"c\" by \"d\" pass 2",
    )
    .unwrap();
    assert_eq!(
        quiz.metaline,
        Metaline { title: "c".to_string(), by: "d".to_string(), pass: 2 }
    );
}

/// Commas are optional separators everywhere, never required and never
/// significant; a `pass` marker after an answer string is tolerated and
/// every listed string counts as accepted, duplicates and order kept.
#[test]
fn separators_and_markers() {
    let with = parse(
        "s.qq",
        "question \"q\" { answer { \"a\", \"b\" pass, \"a\" }, value 4, }",
    )
    .unwrap();
    let without = parse(
        "s.qq",
        "question \"q\" { answer { \"a\" \"b\" pass \"a\" } value 4 }",
    )
    .unwrap();
    assert_eq!(with, without);
    assert_eq!(
        with.questions[0].answer,
        vec!["a".to_string(), "b".to_string(), "a".to_string()]
    );
    assert_eq!(with.questions[0].value, 4);
}

/// A question body may leave value and answers undeclared; negative
/// values are values like any other.
#[test]
fn question_defaults_and_negatives() {
    let quiz = parse("d.qq", "question \"q\" { }\nquestion \"r\" { value -2 }").unwrap();
    assert_eq!(quiz.questions[0].answer, Vec::<String>::new());
    assert_eq!(quiz.questions[0].value, 0);
    assert_eq!(quiz.questions[1].value, -2);
}
