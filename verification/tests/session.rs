use qqg::ast::ify;
use qqg::run::{trim_line, Report, Session};
use qqg::token::ize;

fn quiz(text: &str) -> qqg::ast::Quiz {
    ify(&ize("run.qq", text).unwrap(), "run.qq").unwrap()
}

/// Scenario: a one-question quiz answered correctly shows its header
/// values, a correct outcome, a score of 1 out of 1, and a pass verdict.
#[test]
fn scenario_correct() {
    let q = quiz("title \"T\" by \"A\" pass 1\n\nquestion \"Q?\" { answer { \"x\" } value 1 }");
    assert_eq!(q.metaline.title, "T");
    assert_eq!(q.metaline.by, "A");
    let mut s = Session::new(q);
    let current = s.current().unwrap();
    assert_eq!(current.text, "Q?");
    assert_eq!(current.value, 1);
    let correct = s.submit("x\n");
    assert!(correct);
    assert!(s.done());
    assert_eq!(s.report(), Report { score: 1, total: 1, passed: true });
}

/// Scenario: the same quiz answered wrongly still lists the expected
/// answers, scores 0 out of 1, and fails.
#[test]
fn scenario_wrong() {
    let q = quiz("title \"T\" by \"A\" pass 1\n\nquestion \"Q?\" { answer { \"x\" } value 1 }");
    let mut s = Session::new(q);
    let expected = s.current().unwrap().answer.clone();
    assert_eq!(expected, vec!["x".to_string()]);
    let correct = s.submit("y\n");
    assert!(!correct);
    assert_eq!(s.report(), Report { score: 0, total: 1, passed: false });
}

/// A score exactly at the threshold passes; one point below fails.
#[test]
fn threshold_boundary() {
    let text = "title \"t\" by \"b\" pass 5\n\
                question \"a\" { answer { \"a\" } value 3 }\n\
                question \"b\" { answer { \"b\" } value 2 }";
    // score == pass
    let mut s = Session::new(quiz(text));
    s.submit("a");
    s.submit("b");
    let rep = s.report();
    assert_eq!((rep.score, rep.total), (5, 5));
    assert!(rep.passed);
    // score == pass - 1
    let mut s = Session::new(quiz(text));
    s.submit("wrong");
    s.submit("b");
    // 2 < 5: fails; now with a 4-threshold quiz and score 3 the same holds
    assert!(!s.report().passed);
    let mut s = Session::new(quiz(
        "title \"t\" by \"b\" pass 4\n\
         question \"a\" { answer { \"a\" } value 3 }\n\
         question \"b\" { answer { \"b\" } value 1 }",
    ));
    s.submit("a");
    s.submit("nope");
    let rep = s.report();
    assert_eq!(rep.score, 3);
    assert!(!rep.passed);
}

/// The total accumulates every value regardless of outcome, and the
/// score only the values of correctly answered questions.
#[test]
fn tallies() {
    let text = "title \"t\" by \"b\" pass 0\n\
                question \"a\" { answer { \"a\" } value 7 }\n\
                question \"b\" { answer { \"b\" } value -3 }\n\
                question \"c\" { value 5 }";
    let mut s = Session::new(quiz(text));
    assert!(s.submit("a"));
    assert!(s.submit("b")); // worth -3: correctness still adds it
    assert!(!s.submit("anything")); // no accepted answers at all
    assert_eq!(s.report(), Report { score: 4, total: 9, passed: true });
}

/// Submitted lines are compared after trimming surrounding whitespace,
/// exactly, case-sensitively.
#[test]
fn trimming_and_exactness() {
    assert_eq!(trim_line("  x \t\r\n"), "x");
    assert_eq!(trim_line("\n"), "");
    assert_eq!(trim_line("a b"), "a b");
    let text = "title \"t\" by \"b\" pass 1\nquestion \"q\" { answer { \"Ab c\" } value 1 }";
    let mut s = Session::new(quiz(text));
    assert!(s.submit("  Ab c\n"));
    let mut s = Session::new(quiz(text));
    assert!(!s.submit("ab c"));
}

/// Membership against the acceptance set takes the first match; a later
/// duplicate changes nothing.
#[test]
fn acceptance_order() {
    let text = "title \"t\" by \"b\" pass 1\nquestion \"q\" { answer { \"x\" \"y\" \"x\" } value 1 }";
    let mut s = Session::new(quiz(text));
    assert!(s.submit("y"));
    assert_eq!(s.report().score, 1);
}

/// A quiz with no questions reports zero out of zero and passes exactly
/// when the threshold asks for nothing.
#[test]
fn no_questions() {
    let s = Session::new(quiz("title \"t\" by \"b\" pass 0"));
    assert!(s.done());
    assert_eq!(s.report(), Report { score: 0, total: 0, passed: true });
    let s = Session::new(quiz("title \"t\" by \"b\" pass 1"));
    assert_eq!(s.report(), Report { score: 0, total: 0, passed: false });
}
