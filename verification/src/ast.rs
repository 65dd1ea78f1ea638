//! The parser: a recursive-descent consumer of the token sequence that
//! builds a validated quiz document or fails with the first located
//! grammar violation.
//!
//! The grammar:
//!
//! ```text
//! Quiz         := (Metaline | QuestionDecl)*
//! Metaline     := TITLE String BY String PASS Number
//! QuestionDecl := QUESTION String '{' QuestionBody '}'
//! QuestionBody := (ValueDecl | AnswerDecl)*
//! ValueDecl    := VALUE Number [',']
//! AnswerDecl   := ANSWER '{' AnswerList '}' [',']
//! AnswerList   := (String ['pass'] [','])*
//! ```
//!
//! Commas are optional separators, never required. The `pass` marker after
//! an answer string is an optional per-answer tag kept for forward
//! compatibility; every listed string counts as an accepted answer.

use vstd::prelude::*;

use crate::token::{spec_tokenize, Token, TokenKind, TokenKindModel, TokenModel};
use crate::utils::{Error, ErrorKind, ErrorKindModel, ErrorModel, LocModel, Location};

verus! {

/// The quiz header: display title, author attribution, and the minimum
/// cumulative score required to pass.
#[derive(Clone, Debug, PartialEq, Eq)]
pub struct Metaline {
    pub title: String,
    pub by: String,
    pub pass: isize,
}

/// Mathematical counterpart of `Metaline`.
#[verifier::ext_equal]
pub ghost struct MetalineModel {
    pub title: Seq<char>,
    pub by: Seq<char>,
    pub pass: int,
}

impl DeepView for Metaline {
    type V = MetalineModel;

    open spec fn deep_view(&self) -> MetalineModel {
        MetalineModel { title: self.title@, by: self.by@, pass: self.pass as int }
    }
}

/// An acceptance set: the ordered sequence of strings accepted as a
/// correct answer, compared exactly after trimming.
pub type Answer = Vec<String>;

/// One question: its text, the ordered list of accepted answers, and the
/// point value awarded on a correct answer.
#[derive(Clone, Debug, PartialEq, Eq)]
pub struct Question {
    pub text: String,
    pub answer: Answer,
    pub value: isize,
}

/// Mathematical counterpart of `Question`.
#[verifier::ext_equal]
pub ghost struct QuestionModel {
    pub text: Seq<char>,
    pub answer: Seq<Seq<char>>,
    pub value: int,
}

impl DeepView for Question {
    type V = QuestionModel;

    open spec fn deep_view(&self) -> QuestionModel {
        QuestionModel {
            text: self.text@,
            answer: self.answer.deep_view(),
            value: self.value as int,
        }
    }
}

/// The root document: the header and the questions in declaration order.
#[derive(Clone, Debug, PartialEq, Eq)]
pub struct Quiz {
    pub metaline: Metaline,
    pub questions: Vec<Question>,
}

/// Mathematical counterpart of `Quiz`.
#[verifier::ext_equal]
pub ghost struct QuizModel {
    pub metaline: MetalineModel,
    pub questions: Seq<QuestionModel>,
}

impl DeepView for Quiz {
    type V = QuizModel;

    open spec fn deep_view(&self) -> QuizModel {
        QuizModel { metaline: self.metaline.deep_view(), questions: self.questions.deep_view() }
    }
}

/// The document a run starts from: empty header, threshold zero, no
/// questions. A metaline declaration overwrites the header (last wins).
pub open spec fn empty_quiz() -> QuizModel {
    QuizModel {
        metaline: MetalineModel { title: Seq::empty(), by: Seq::empty(), pass: 0 },
        questions: Seq::empty(),
    }
}

/// The question a `QUESTION` declaration starts from: no accepted
/// answers and value zero, until its body says otherwise.
pub open spec fn blank_question(text: Seq<char>) -> QuestionModel {
    QuestionModel { text, answer: Seq::empty(), value: 0 }
}

/// Builds the error value every failing parse returns.
pub open spec fn parse_err(loc: LocModel, file: Seq<char>, kind: ErrorKindModel) -> ErrorModel {
    ErrorModel { loc, file, kind }
}

// ---------------------------------------------------------------------------
// The parser as a mathematical function. Each piece consumes tokens of
// `ts` from index `i` on and returns the index one past what it consumed,
// the begin position of the last token it consumed (`ll`, where
// end-of-input diagnostics point), and what it built.
// ---------------------------------------------------------------------------

/// `Metaline := TITLE String BY String PASS Number`, after the `TITLE`
/// keyword has been consumed.
pub open spec fn p_meta(
    ts: Seq<TokenModel>,
    i: int,
    ll: LocModel,
    file: Seq<char>,
) -> Result<(int, LocModel, MetalineModel), ErrorModel> {
    if i >= ts.len() {
        Err(parse_err(ll, file, ErrorKindModel::UnexpectedEnd))
    } else {
        let t0 = ts[i];
        match t0.kind {
            TokenKindModel::Str(title) => {
                if i + 1 >= ts.len() {
                    Err(parse_err(t0.begin, file, ErrorKindModel::UnexpectedEnd))
                } else {
                    let t1 = ts[i + 1];
                    if !(t1.kind is By) {
                        Err(parse_err(t1.begin, file, ErrorKindModel::ExpectedBy))
                    } else if i + 2 >= ts.len() {
                        Err(parse_err(t1.begin, file, ErrorKindModel::UnexpectedEnd))
                    } else {
                        let t2 = ts[i + 2];
                        match t2.kind {
                            TokenKindModel::Str(by) => {
                                if i + 3 >= ts.len() {
                                    Err(parse_err(t2.begin, file, ErrorKindModel::UnexpectedEnd))
                                } else {
                                    let t3 = ts[i + 3];
                                    if !(t3.kind is Pass) {
                                        Err(parse_err(t3.begin, file, ErrorKindModel::ExpectedPass))
                                    } else if i + 4 >= ts.len() {
                                        Err(parse_err(
                                            t3.begin,
                                            file,
                                            ErrorKindModel::UnexpectedEnd,
                                        ))
                                    } else {
                                        let t4 = ts[i + 4];
                                        match t4.kind {
                                            TokenKindModel::Num(p) => Ok(
                                                (
                                                    i + 5,
                                                    t4.begin,
                                                    MetalineModel { title, by, pass: p },
                                                ),
                                            ),
                                            _ => Err(parse_err(
                                                t4.begin,
                                                file,
                                                ErrorKindModel::UnexpectedToken,
                                            )),
                                        }
                                    }
                                }
                            },
                            _ => Err(parse_err(t2.begin, file, ErrorKindModel::ExpectedString)),
                        }
                    }
                }
            },
            _ => Err(parse_err(t0.begin, file, ErrorKindModel::ExpectedString)),
        }
    }
}

/// Whatever a successful metaline consumed lies strictly forward of
/// where it started.
pub proof fn lemma_p_meta_adv(ts: Seq<TokenModel>, i: int, ll: LocModel, file: Seq<char>)
    requires
        0 <= i,
    ensures
        p_meta(ts, i, ll, file) matches Ok(r) ==> i < r.0 <= ts.len(),
{
}

/// `AnswerList := (String ['pass'] [','])*`, up to and including the
/// closing brace; fails if the list closes with no strings collected.
pub open spec fn p_answer_items(
    ts: Seq<TokenModel>,
    i: int,
    ll: LocModel,
    file: Seq<char>,
    acc: Seq<Seq<char>>,
) -> Result<(int, LocModel, Seq<Seq<char>>), ErrorModel>
    decreases ts.len() - i,
    when 0 <= i
{
    if i >= ts.len() {
        Err(parse_err(ll, file, ErrorKindModel::UnexpectedEnd))
    } else {
        let t = ts[i];
        match t.kind {
            TokenKindModel::RBrace => {
                if acc.len() == 0 {
                    Err(parse_err(t.begin, file, ErrorKindModel::EmptyAnswerList))
                } else {
                    Ok((i + 1, t.begin, acc))
                }
            },
            TokenKindModel::Str(a) => {
                let i1 = i + 1;
                let ll1 = t.begin;
                let i2 = if i1 < ts.len() && ts[i1].kind is Pass {
                    i1 + 1
                } else {
                    i1
                };
                let ll2 = if i1 < ts.len() && ts[i1].kind is Pass {
                    ts[i1].begin
                } else {
                    ll1
                };
                let i3 = if i2 < ts.len() && ts[i2].kind is Comma {
                    i2 + 1
                } else {
                    i2
                };
                let ll3 = if i2 < ts.len() && ts[i2].kind is Comma {
                    ts[i2].begin
                } else {
                    ll2
                };
                p_answer_items(ts, i3, ll3, file, acc.push(a))
            },
            _ => Err(parse_err(t.begin, file, ErrorKindModel::UnexpectedToken)),
        }
    }
}

/// `ANSWER '{' AnswerList '}'`, after the `ANSWER` keyword has been
/// consumed.
pub open spec fn p_answer(
    ts: Seq<TokenModel>,
    i: int,
    ll: LocModel,
    file: Seq<char>,
) -> Result<(int, LocModel, Seq<Seq<char>>), ErrorModel> {
    if i >= ts.len() {
        Err(parse_err(ll, file, ErrorKindModel::UnexpectedEnd))
    } else if !(ts[i].kind is LBrace) {
        Err(parse_err(ts[i].begin, file, ErrorKindModel::MissingBrace))
    } else {
        p_answer_items(ts, i + 1, ts[i].begin, file, Seq::empty())
    }
}

/// Whatever a successful answer list consumed lies strictly forward of
/// where it started.
pub proof fn lemma_p_answer_items_adv(
    ts: Seq<TokenModel>,
    i: int,
    ll: LocModel,
    file: Seq<char>,
    acc: Seq<Seq<char>>,
)
    requires
        0 <= i,
    ensures
        p_answer_items(ts, i, ll, file, acc) matches Ok(r) ==> i < r.0 <= ts.len(),
    decreases ts.len() - i,
{
    if i < ts.len() {
        let t = ts[i];
        match t.kind {
            TokenKindModel::Str(a) => {
                let i1 = i + 1;
                let i2 = if i1 < ts.len() && ts[i1].kind is Pass {
                    i1 + 1
                } else {
                    i1
                };
                let ll2 = if i1 < ts.len() && ts[i1].kind is Pass {
                    ts[i1].begin
                } else {
                    t.begin
                };
                let i3 = if i2 < ts.len() && ts[i2].kind is Comma {
                    i2 + 1
                } else {
                    i2
                };
                let ll3 = if i2 < ts.len() && ts[i2].kind is Comma {
                    ts[i2].begin
                } else {
                    ll2
                };
                lemma_p_answer_items_adv(ts, i3, ll3, file, acc.push(a));
            },
            _ => {},
        }
    }
}

/// Whatever a successful answer block consumed lies strictly forward of
/// where it started.
pub proof fn lemma_p_answer_adv(ts: Seq<TokenModel>, i: int, ll: LocModel, file: Seq<char>)
    requires
        0 <= i,
    ensures
        p_answer(ts, i, ll, file) matches Ok(r) ==> i < r.0 <= ts.len(),
{
    if i < ts.len() && ts[i].kind is LBrace {
        lemma_p_answer_items_adv(ts, i + 1, ts[i].begin, file, Seq::empty());
    }
}

/// `QuestionBody := (ValueDecl | AnswerDecl)*`, up to and including the
/// closing brace, folded over the question built so far.
pub open spec fn p_qbody(
    ts: Seq<TokenModel>,
    i: int,
    ll: LocModel,
    file: Seq<char>,
    acc: QuestionModel,
) -> Result<(int, LocModel, QuestionModel), ErrorModel>
    decreases ts.len() - i,
    when 0 <= i
    via p_qbody_dec
{
    if i >= ts.len() {
        Err(parse_err(ll, file, ErrorKindModel::UnexpectedEnd))
    } else {
        let t = ts[i];
        match t.kind {
            TokenKindModel::RBrace => Ok((i + 1, t.begin, acc)),
            TokenKindModel::Value => {
                if i + 1 >= ts.len() {
                    Err(parse_err(t.begin, file, ErrorKindModel::UnexpectedEnd))
                } else {
                    let t1 = ts[i + 1];
                    match t1.kind {
                        TokenKindModel::Num(v) => {
                            let i2 = if i + 2 < ts.len() && ts[i + 2].kind is Comma {
                                i + 3
                            } else {
                                i + 2
                            };
                            let ll2 = if i + 2 < ts.len() && ts[i + 2].kind is Comma {
                                ts[i + 2].begin
                            } else {
                                t1.begin
                            };
                            p_qbody(
                                ts,
                                i2,
                                ll2,
                                file,
                                QuestionModel { text: acc.text, answer: acc.answer, value: v },
                            )
                        },
                        _ => Err(parse_err(t1.begin, file, ErrorKindModel::UnexpectedToken)),
                    }
                }
            },
            TokenKindModel::Answer => {
                match p_answer(ts, i + 1, t.begin, file) {
                    Ok(r) => {
                        let i2 = if r.0 < ts.len() && ts[r.0].kind is Comma {
                            r.0 + 1
                        } else {
                            r.0
                        };
                        let ll2 = if r.0 < ts.len() && ts[r.0].kind is Comma {
                            ts[r.0].begin
                        } else {
                            r.1
                        };
                        p_qbody(
                            ts,
                            i2,
                            ll2,
                            file,
                            QuestionModel { text: acc.text, answer: r.2, value: acc.value },
                        )
                    },
                    Err(e) => Err(e),
                }
            },
            _ => Err(parse_err(t.begin, file, ErrorKindModel::UnexpectedToken)),
        }
    }
}

#[via_fn]
proof fn p_qbody_dec(
    ts: Seq<TokenModel>,
    i: int,
    ll: LocModel,
    file: Seq<char>,
    acc: QuestionModel,
) {
    if 0 <= i < ts.len() && ts[i].kind is Answer {
        lemma_p_answer_adv(ts, i + 1, ts[i].begin, file);
    }
}

/// Whatever a successful question body consumed lies strictly forward of
/// where it started.
pub proof fn lemma_p_qbody_adv(
    ts: Seq<TokenModel>,
    i: int,
    ll: LocModel,
    file: Seq<char>,
    acc: QuestionModel,
)
    requires
        0 <= i,
    ensures
        p_qbody(ts, i, ll, file, acc) matches Ok(r) ==> i < r.0 <= ts.len(),
    decreases ts.len() - i,
{
    if i < ts.len() {
        let t = ts[i];
        match t.kind {
            TokenKindModel::Value => {
                if i + 1 < ts.len() && ts[i + 1].kind is Num {
                    let v = ts[i + 1].kind->Num_0;
                    let i2 = if i + 2 < ts.len() && ts[i + 2].kind is Comma {
                        i + 3
                    } else {
                        i + 2
                    };
                    let ll2 = if i + 2 < ts.len() && ts[i + 2].kind is Comma {
                        ts[i + 2].begin
                    } else {
                        ts[i + 1].begin
                    };
                    lemma_p_qbody_adv(
                        ts,
                        i2,
                        ll2,
                        file,
                        QuestionModel { text: acc.text, answer: acc.answer, value: v },
                    );
                }
            },
            TokenKindModel::Answer => {
                lemma_p_answer_adv(ts, i + 1, t.begin, file);
                match p_answer(ts, i + 1, t.begin, file) {
                    Ok(r) => {
                        let i2 = if r.0 < ts.len() && ts[r.0].kind is Comma {
                            r.0 + 1
                        } else {
                            r.0
                        };
                        let ll2 = if r.0 < ts.len() && ts[r.0].kind is Comma {
                            ts[r.0].begin
                        } else {
                            r.1
                        };
                        lemma_p_qbody_adv(
                            ts,
                            i2,
                            ll2,
                            file,
                            QuestionModel { text: acc.text, answer: r.2, value: acc.value },
                        );
                    },
                    Err(_) => {},
                }
            },
            _ => {},
        }
    }
}

/// `QuestionDecl := QUESTION String '{' QuestionBody '}'`, after the
/// `QUESTION` keyword has been consumed.
pub open spec fn p_question(
    ts: Seq<TokenModel>,
    i: int,
    ll: LocModel,
    file: Seq<char>,
) -> Result<(int, LocModel, QuestionModel), ErrorModel> {
    if i >= ts.len() {
        Err(parse_err(ll, file, ErrorKindModel::UnexpectedEnd))
    } else {
        let t = ts[i];
        match t.kind {
            TokenKindModel::Str(txt) => {
                if i + 1 >= ts.len() {
                    Err(parse_err(t.begin, file, ErrorKindModel::UnexpectedEnd))
                } else if !(ts[i + 1].kind is LBrace) {
                    Err(parse_err(ts[i + 1].begin, file, ErrorKindModel::MissingBrace))
                } else {
                    p_qbody(ts, i + 2, ts[i + 1].begin, file, blank_question(txt))
                }
            },
            _ => Err(parse_err(t.begin, file, ErrorKindModel::ExpectedString)),
        }
    }
}

/// Whatever a successful question declaration consumed lies strictly
/// forward of where it started.
pub proof fn lemma_p_question_adv(ts: Seq<TokenModel>, i: int, ll: LocModel, file: Seq<char>)
    requires
        0 <= i,
    ensures
        p_question(ts, i, ll, file) matches Ok(r) ==> i < r.0 <= ts.len(),
{
    if i < ts.len() {
        match ts[i].kind {
            TokenKindModel::Str(txt) => {
                if i + 1 < ts.len() && ts[i + 1].kind is LBrace {
                    lemma_p_qbody_adv(ts, i + 2, ts[i + 1].begin, file, blank_question(txt));
                }
            },
            _ => {},
        }
    }
}

/// The top level: metaline and question declarations in any order and
/// number, folded over the document built so far.
pub open spec fn p_top(
    ts: Seq<TokenModel>,
    i: int,
    ll: LocModel,
    file: Seq<char>,
    acc: QuizModel,
) -> Result<QuizModel, ErrorModel>
    decreases ts.len() - i,
    when 0 <= i
    via p_top_dec
{
    if i >= ts.len() {
        Ok(acc)
    } else {
        let t = ts[i];
        match t.kind {
            TokenKindModel::Title => {
                match p_meta(ts, i + 1, t.begin, file) {
                    Ok(r) => p_top(
                        ts,
                        r.0,
                        r.1,
                        file,
                        QuizModel { metaline: r.2, questions: acc.questions },
                    ),
                    Err(e) => Err(e),
                }
            },
            TokenKindModel::Question => {
                match p_question(ts, i + 1, t.begin, file) {
                    Ok(r) => p_top(
                        ts,
                        r.0,
                        r.1,
                        file,
                        QuizModel { metaline: acc.metaline, questions: acc.questions.push(r.2) },
                    ),
                    Err(e) => Err(e),
                }
            },
            _ => Err(parse_err(t.begin, file, ErrorKindModel::UnexpectedToken)),
        }
    }
}

#[via_fn]
proof fn p_top_dec(ts: Seq<TokenModel>, i: int, ll: LocModel, file: Seq<char>, acc: QuizModel) {
    if 0 <= i < ts.len() {
        lemma_p_question_adv(ts, i + 1, ts[i].begin, file);
    }
}

/// The whole parser: the document of the token sequence `ts`, tagged
/// with `file`, or its first grammar violation. Diagnostics for a
/// truncated input point at the last consumed token; before any token is
/// consumed they would point at line 1, column 1, but the top level
/// accepts an empty sequence outright.
pub open spec fn spec_parse(ts: Seq<TokenModel>, file: Seq<char>) -> Result<QuizModel, ErrorModel> {
    p_top(ts, 0, LocModel { line: 1, col: 1 }, file, empty_quiz())
}


// ---------------------------------------------------------------------------
// The executable parser: a cursor `i` over the token buffer plus the
// begin position `ll` of the last consumed token, exactly mirroring the
// mathematical parser above.
// ---------------------------------------------------------------------------

/// Same-variant, same-payload equality of token kinds.
fn kind_eq(a: &TokenKind, b: &TokenKind) -> (r: bool)
    ensures
        r == (a@ == b@),
{
    match (a, b) {
        (TokenKind::String(x), TokenKind::String(y)) => *x == *y,
        (TokenKind::Number(x), TokenKind::Number(y)) => *x == *y,
        (TokenKind::LBrace, TokenKind::LBrace) => true,
        (TokenKind::RBrace, TokenKind::RBrace) => true,
        (TokenKind::Comma, TokenKind::Comma) => true,
        (TokenKind::Question, TokenKind::Question) => true,
        (TokenKind::Answer, TokenKind::Answer) => true,
        (TokenKind::Value, TokenKind::Value) => true,
        (TokenKind::Title, TokenKind::Title) => true,
        (TokenKind::By, TokenKind::By) => true,
        (TokenKind::Pass, TokenKind::Pass) => true,
        _ => false,
    }
}

/// Hands out the token under the cursor and advances past it, or fails
/// with an unexpected-end error pointing at the last consumed token.
fn next<'a>(tokens: &'a Vec<Token>, i: &mut usize, ll: &mut Location, file: &str) -> (r: Result<
    &'a Token,
    Error,
>)
    ensures
        *old(i) < tokens.len() ==> {
            &&& r matches Ok(t) && *t == tokens@[*old(i) as int]
            &&& *final(i) == *old(i) + 1
            &&& *final(ll) == tokens@[*old(i) as int].begin
        },
        *old(i) >= tokens.len() ==> {
            &&& r matches Err(e) && e@ == parse_err(
                old(ll)@,
                file@,
                ErrorKindModel::UnexpectedEnd,
            )
            &&& *final(i) == *old(i)
            &&& *final(ll) == *old(ll)
        },
{
    if *i < tokens.len() {
        let t = &tokens[*i];
        *i += 1;
        *ll = t.begin;
        Ok(t)
    } else {
        Err(Error { loc: *ll, file: file.to_owned(), kind: ErrorKind::UnexpectedEnd })
    }
}

/// Consumes the next token, which must have exactly the kind `kind`;
/// fails with `ekind` at that token otherwise.
fn expect(
    tokens: &Vec<Token>,
    i: &mut usize,
    ll: &mut Location,
    file: &str,
    kind: TokenKind,
    ekind: ErrorKind,
) -> (r: Result<(), Error>)
    ensures
        *old(i) < tokens.len() && tokens@[*old(i) as int].kind@ == kind@ ==> {
            &&& r is Ok
            &&& *final(i) == *old(i) + 1
            &&& *final(ll) == tokens@[*old(i) as int].begin
        },
        *old(i) < tokens.len() && tokens@[*old(i) as int].kind@ != kind@ ==> {
            &&& r matches Err(e) && e@ == parse_err(
                tokens@[*old(i) as int].begin@,
                file@,
                ekind@,
            )
        },
        *old(i) >= tokens.len() ==> {
            &&& r matches Err(e) && e@ == parse_err(
                old(ll)@,
                file@,
                ErrorKindModel::UnexpectedEnd,
            )
        },
{
    let t = match next(tokens, i, ll, file) {
        Ok(t) => t,
        Err(e) => {
            return Err(e);
        },
    };
    if kind_eq(&t.kind, &kind) {
        Ok(())
    } else {
        Err(Error { loc: t.begin, file: file.to_owned(), kind: ekind })
    }
}

/// Consumes one optional token of exactly the kind `kind`, if it is next.
fn eat_optional(tokens: &Vec<Token>, i: &mut usize, ll: &mut Location, kind: TokenKind)
    ensures
        *old(i) < tokens.len() && tokens@[*old(i) as int].kind@ == kind@ ==> {
            &&& *final(i) == *old(i) + 1
            &&& *final(ll) == tokens@[*old(i) as int].begin
        },
        !(*old(i) < tokens.len() && tokens@[*old(i) as int].kind@ == kind@) ==> {
            &&& *final(i) == *old(i)
            &&& *final(ll) == *old(ll)
        },
{
    if *i < tokens.len() {
        let t = &tokens[*i];
        if kind_eq(&t.kind, &kind) {
            *i += 1;
            *ll = t.begin;
        }
    }
}

/// Parses `String BY String PASS Number` after the `TITLE` keyword, as
/// `p_meta` says.
fn parse_meta(tokens: &Vec<Token>, i: &mut usize, ll: &mut Location, file: &str) -> (r: Result<
    Metaline,
    Error,
>)
    ensures
        match r {
            Ok(m) => p_meta(tokens.deep_view(), *old(i) as int, old(ll)@, file@)
                == Ok::<(int, LocModel, MetalineModel), ErrorModel>(
                (*final(i) as int, final(ll)@, m.deep_view()),
            ),
            Err(e) => p_meta(tokens.deep_view(), *old(i) as int, old(ll)@, file@)
                == Err::<(int, LocModel, MetalineModel), ErrorModel>(e@),
        },
{
    let t0 = match next(tokens, i, ll, file) {
        Ok(t) => t,
        Err(e) => {
            return Err(e);
        },
    };
    let title = match &t0.kind {
        TokenKind::String(s) => s.clone(),
        _ => {
            return Err(Error {
                loc: t0.begin,
                file: file.to_owned(),
                kind: ErrorKind::ExpectedString,
            });
        },
    };
    match expect(tokens, i, ll, file, TokenKind::By, ErrorKind::ExpectedBy) {
        Ok(()) => {},
        Err(e) => {
            return Err(e);
        },
    }
    let t2 = match next(tokens, i, ll, file) {
        Ok(t) => t,
        Err(e) => {
            return Err(e);
        },
    };
    let by = match &t2.kind {
        TokenKind::String(s) => s.clone(),
        _ => {
            return Err(Error {
                loc: t2.begin,
                file: file.to_owned(),
                kind: ErrorKind::ExpectedString,
            });
        },
    };
    match expect(tokens, i, ll, file, TokenKind::Pass, ErrorKind::ExpectedPass) {
        Ok(()) => {},
        Err(e) => {
            return Err(e);
        },
    }
    let t4 = match next(tokens, i, ll, file) {
        Ok(t) => t,
        Err(e) => {
            return Err(e);
        },
    };
    let pass = match &t4.kind {
        TokenKind::Number(n) => *n,
        _ => {
            return Err(Error {
                loc: t4.begin,
                file: file.to_owned(),
                kind: ErrorKind::UnexpectedToken,
            });
        },
    };
    Ok(Metaline { title, by, pass })
}

/// Parses `'{' AnswerList '}'` after the `ANSWER` keyword, as `p_answer`
/// says.
fn parse_answer(tokens: &Vec<Token>, i: &mut usize, ll: &mut Location, file: &str) -> (r: Result<
    Vec<String>,
    Error,
>)
    ensures
        match r {
            Ok(v) => p_answer(tokens.deep_view(), *old(i) as int, old(ll)@, file@)
                == Ok::<(int, LocModel, Seq<Seq<char>>), ErrorModel>(
                (*final(i) as int, final(ll)@, v.deep_view()),
            ),
            Err(e) => p_answer(tokens.deep_view(), *old(i) as int, old(ll)@, file@)
                == Err::<(int, LocModel, Seq<Seq<char>>), ErrorModel>(e@),
        },
{
    let ghost ts = tokens.deep_view();
    let ghost f = file@;
    let ghost iin = *i as int;
    let ghost llin = ll@;
    match expect(tokens, i, ll, file, TokenKind::LBrace, ErrorKind::MissingBrace) {
        Ok(()) => {},
        Err(e) => {
            return Err(e);
        },
    }
    let mut found: Vec<String> = Vec::new();
    proof {
        assert(found.deep_view() =~= Seq::<Seq<char>>::empty());
        assert(p_answer(ts, iin, llin, f) == p_answer_items(
            ts,
            *i as int,
            ll@,
            f,
            found.deep_view(),
        ));
    }
    loop
        invariant
            ts == tokens.deep_view(),
            f == file@,
            *i <= tokens.len(),
            p_answer(ts, *old(i) as int, old(ll)@, f) == p_answer_items(
                ts,
                *i as int,
                ll@,
                f,
                found.deep_view(),
            ),
        decreases tokens@.len() - *i,
    {
        let ghost i0 = *i as int;
        let ghost ll0 = ll@;
        let ghost found0 = found.deep_view();
        let t = match next(tokens, i, ll, file) {
            Ok(t) => t,
            Err(e) => {
                return Err(e);
            },
        };
        match &t.kind {
            TokenKind::RBrace => {
                if found.len() == 0 {
                    return Err(Error {
                        loc: t.begin,
                        file: file.to_owned(),
                        kind: ErrorKind::EmptyAnswerList,
                    });
                }
                return Ok(found);
            },
            TokenKind::String(sv) => {
                found.push(sv.clone());
                eat_optional(tokens, i, ll, TokenKind::Pass);
                eat_optional(tokens, i, ll, TokenKind::Comma);
                proof {
                    assert(found.deep_view() =~= found0.push(sv@));
                    assert(p_answer_items(ts, i0, ll0, f, found0) == p_answer_items(
                        ts,
                        *i as int,
                        ll@,
                        f,
                        found.deep_view(),
                    ));
                }
            },
            _ => {
                return Err(Error {
                    loc: t.begin,
                    file: file.to_owned(),
                    kind: ErrorKind::UnexpectedToken,
                });
            },
        }
    }
}

/// Parses `String '{' QuestionBody '}'` after the `QUESTION` keyword, as
/// `p_question` says.
fn parse_question(tokens: &Vec<Token>, i: &mut usize, ll: &mut Location, file: &str) -> (r: Result<
    Question,
    Error,
>)
    ensures
        match r {
            Ok(q) => p_question(tokens.deep_view(), *old(i) as int, old(ll)@, file@)
                == Ok::<(int, LocModel, QuestionModel), ErrorModel>(
                (*final(i) as int, final(ll)@, q.deep_view()),
            ),
            Err(e) => p_question(tokens.deep_view(), *old(i) as int, old(ll)@, file@)
                == Err::<(int, LocModel, QuestionModel), ErrorModel>(e@),
        },
{
    let ghost ts = tokens.deep_view();
    let ghost f = file@;
    let ghost iin = *i as int;
    let ghost llin = ll@;
    let t0 = match next(tokens, i, ll, file) {
        Ok(t) => t,
        Err(e) => {
            return Err(e);
        },
    };
    let text = match &t0.kind {
        TokenKind::String(s) => s.clone(),
        _ => {
            return Err(Error {
                loc: t0.begin,
                file: file.to_owned(),
                kind: ErrorKind::ExpectedString,
            });
        },
    };
    match expect(tokens, i, ll, file, TokenKind::LBrace, ErrorKind::MissingBrace) {
        Ok(()) => {},
        Err(e) => {
            return Err(e);
        },
    }
    let mut ques = Question { text, answer: Vec::new(), value: 0 };
    proof {
        assert(ques.deep_view() =~= blank_question(t0.kind@->Str_0));
        assert(p_question(ts, iin, llin, f) == p_qbody(
            ts,
            *i as int,
            ll@,
            f,
            ques.deep_view(),
        ));
    }
    loop
        invariant
            ts == tokens.deep_view(),
            f == file@,
            *i <= tokens.len(),
            p_question(ts, *old(i) as int, old(ll)@, f) == p_qbody(
                ts,
                *i as int,
                ll@,
                f,
                ques.deep_view(),
            ),
        decreases tokens@.len() - *i,
    {
        let ghost i0 = *i as int;
        let ghost ll0 = ll@;
        let ghost ques0 = ques.deep_view();
        let t = match next(tokens, i, ll, file) {
            Ok(t) => t,
            Err(e) => {
                return Err(e);
            },
        };
        match &t.kind {
            TokenKind::RBrace => {
                return Ok(ques);
            },
            TokenKind::Value => {
                let t1 = match next(tokens, i, ll, file) {
                    Ok(t) => t,
                    Err(e) => {
                        return Err(e);
                    },
                };
                let v = match &t1.kind {
                    TokenKind::Number(n) => *n,
                    _ => {
                        return Err(Error {
                            loc: t1.begin,
                            file: file.to_owned(),
                            kind: ErrorKind::UnexpectedToken,
                        });
                    },
                };
                ques.value = v;
                eat_optional(tokens, i, ll, TokenKind::Comma);
                proof {
                    assert(p_qbody(ts, i0, ll0, f, ques0) == p_qbody(
                        ts,
                        *i as int,
                        ll@,
                        f,
                        ques.deep_view(),
                    ));
                }
            },
            TokenKind::Answer => {
                proof {
                    lemma_p_answer_adv(ts, i0 + 1, t@.begin, f);
                }
                let ans = match parse_answer(tokens, i, ll, file) {
                    Ok(v) => v,
                    Err(e) => {
                        return Err(e);
                    },
                };
                ques.answer = ans;
                eat_optional(tokens, i, ll, TokenKind::Comma);
                proof {
                    assert(p_qbody(ts, i0, ll0, f, ques0) == p_qbody(
                        ts,
                        *i as int,
                        ll@,
                        f,
                        ques.deep_view(),
                    ));
                }
            },
            _ => {
                return Err(Error {
                    loc: t.begin,
                    file: file.to_owned(),
                    kind: ErrorKind::UnexpectedToken,
                });
            },
        }
    }
}

/// The outcome of the executable parser, seen mathematically.
pub open spec fn parse_res_view(r: Result<Quiz, Error>) -> Result<QuizModel, ErrorModel> {
    match r {
        Ok(q) => Ok(q.deep_view()),
        Err(e) => Err(e@),
    }
}

/// Turns the token sequence into a validated quiz document, or fails
/// with the first grammar violation, exactly as `spec_parse` says.
pub fn ify(tokens: &Vec<Token>, file: &str) -> (r: Result<Quiz, Error>)
    ensures
        parse_res_view(r) == spec_parse(tokens.deep_view(), file@),
{
    let ghost ts = tokens.deep_view();
    let ghost f = file@;
    let mut i: usize = 0;
    let mut ll = Location { line: 1, col: 1 };
    let mut quiz = Quiz {
        metaline: Metaline { title: String::new(), by: String::new(), pass: 0 },
        questions: Vec::new(),
    };
    proof {
        assert(quiz.deep_view().metaline =~= empty_quiz().metaline);
        assert(quiz.deep_view().questions =~= empty_quiz().questions);
        assert(quiz.deep_view() =~= empty_quiz());
    }
    loop
        invariant
            ts == tokens.deep_view(),
            f == file@,
            i <= tokens.len(),
            p_top(ts, i as int, ll@, f, quiz.deep_view()) == spec_parse(ts, f),
        decreases tokens@.len() - i,
    {
        let ghost i0 = i as int;
        let ghost ll0 = ll@;
        let ghost quiz0 = quiz.deep_view();
        if i >= tokens.len() {
            return Ok(quiz);
        }
        let t = &tokens[i];
        match &t.kind {
            TokenKind::Title => {
                i += 1;
                ll = t.begin;
                proof {
                    lemma_p_meta_adv(ts, i0 + 1, ll@, f);
                }
                let m = match parse_meta(tokens, &mut i, &mut ll, file) {
                    Ok(m) => m,
                    Err(e) => {
                        return Err(e);
                    },
                };
                quiz.metaline = m;
                proof {
                    assert(p_top(ts, i0, ll0, f, quiz0) == p_top(
                        ts,
                        i as int,
                        ll@,
                        f,
                        quiz.deep_view(),
                    ));
                }
            },
            TokenKind::Question => {
                i += 1;
                ll = t.begin;
                proof {
                    lemma_p_question_adv(ts, i0 + 1, ll@, f);
                }
                let q = match parse_question(tokens, &mut i, &mut ll, file) {
                    Ok(q) => q,
                    Err(e) => {
                        return Err(e);
                    },
                };
                let ghost qm = q.deep_view();
                quiz.questions.push(q);
                proof {
                    assert(quiz.deep_view().questions =~= quiz0.questions.push(qm));
                    assert(p_top(ts, i0, ll0, f, quiz0) == p_top(
                        ts,
                        i as int,
                        ll@,
                        f,
                        quiz.deep_view(),
                    ));
                }
            },
            _ => {
                return Err(Error {
                    loc: t.begin,
                    file: file.to_owned(),
                    kind: ErrorKind::UnexpectedToken,
                });
            },
        }
    }
}


/// Re-parsing is idempotent: two lexer runs on identical source are the
/// same run, and parsing their outputs builds structurally equal
/// documents - lexing and parsing are functions of the source text and
/// of nothing else.
pub proof fn lemma_reparse_idempotent(
    text: Seq<char>,
    file: Seq<char>,
    ts1: Seq<TokenModel>,
    ts2: Seq<TokenModel>,
)
    requires
        spec_tokenize(text, file) == Ok::<Seq<TokenModel>, ErrorModel>(ts1),
        spec_tokenize(text, file) == Ok::<Seq<TokenModel>, ErrorModel>(ts2),
    ensures
        ts1 == ts2,
        spec_parse(ts1, file) == spec_parse(ts2, file),
{
}

} // verus!
