//! The session runner: a small state machine that walks the parsed quiz
//! one question at a time, checks each submitted line against the
//! question's acceptance set, and tallies the score against the passing
//! threshold.
//!
//! The runner itself performs no input or output: a driver shows the
//! current question, reads one line, and hands it to [`Session::submit`];
//! when every question is answered, [`Session::report`] gives the final
//! score, the possible total, and the pass/fail verdict.

use vstd::prelude::*;
use vstd::string::StrSliceExecFns;

use crate::ast::{Question, QuestionModel, Quiz};
use crate::token::{is_space_char, str_eq};

verus! {

// ---------------------------------------------------------------------------
// Trimming: a submitted line is compared after surrounding whitespace is
// removed.
// ---------------------------------------------------------------------------

/// Whitespace stripped from both ends of a submitted line (the line
/// itself usually ends in the newline the reader left there).
pub open spec fn is_trim_space(c: char) -> bool {
    is_space_char(c) || c == '\n'
}

/// The first index at or after `i` that holds a non-whitespace
/// character, or `s.len()`.
pub open spec fn trim_from(s: Seq<char>, i: int) -> int
    decreases s.len() - i,
{
    if 0 <= i < s.len() && is_trim_space(s[i]) {
        trim_from(s, i + 1)
    } else {
        i
    }
}

/// The highest boundary at or below `j` with no whitespace just before
/// it, or 0.
pub open spec fn trim_upto(s: Seq<char>, j: int) -> int
    decreases j,
{
    if 0 < j <= s.len() && is_trim_space(s[j - 1]) {
        trim_upto(s, j - 1)
    } else {
        j
    }
}

/// `s` with surrounding whitespace removed.
pub open spec fn spec_trim(s: Seq<char>) -> Seq<char> {
    let a = trim_from(s, 0);
    let b = trim_upto(s, s.len() as int);
    if a <= b {
        s.subrange(a, b)
    } else {
        Seq::empty()
    }
}

/// The trimmed end never lies beyond where it starts, nor below zero.
proof fn lemma_trim_upto_le(s: Seq<char>, j: int)
    requires
        0 <= j,
    ensures
        0 <= trim_upto(s, j) <= j,
    decreases j,
{
    if 0 < j <= s.len() && is_trim_space(s[j - 1]) {
        lemma_trim_upto_le(s, j - 1);
    }
}

/// Executable test for `is_trim_space`.
fn is_trim_space_exec(c: char) -> (r: bool)
    ensures
        r == is_trim_space(c),
{
    c == ' ' || c == '\t' || c == '\r' || c == '\x0b' || c == '\x0c' || c == '\n'
}

/// Removes surrounding whitespace from a line, as `spec_trim` says.
pub fn trim_line(line: &str) -> (r: String)
    ensures
        r@ == spec_trim(line@),
{
    let n = line.unicode_len();
    let mut a: usize = 0;
    while a < n && is_trim_space_exec(line.get_char(a))
        invariant
            n == line@.len(),
            a <= n,
            trim_from(line@, 0) == trim_from(line@, a as int),
        decreases n - a,
    {
        proof {
            assert(trim_from(line@, a as int) == trim_from(line@, a + 1));
        }
        a += 1;
    }
    proof {
        assert(trim_from(line@, a as int) == a as int);
    }
    let mut b: usize = n;
    while b > a && is_trim_space_exec(line.get_char(b - 1))
        invariant
            n == line@.len(),
            a <= b <= n,
            trim_from(line@, 0) == a as int,
            trim_upto(line@, n as int) == trim_upto(line@, b as int),
        decreases b,
    {
        proof {
            assert(trim_upto(line@, b as int) == trim_upto(line@, b - 1));
        }
        b -= 1;
    }
    let r = line.substring_char(a, b).to_owned();
    proof {
        lemma_trim_upto_le(line@, b as int);
        if b > a {
            assert(trim_upto(line@, b as int) == b as int);
            assert(r@ =~= spec_trim(line@));
        } else {
            assert(r@ =~= Seq::<char>::empty());
            assert(r@ =~= spec_trim(line@));
        }
    }
    r
}

// ---------------------------------------------------------------------------
// Answer acceptance and the running tallies, mathematically.
// ---------------------------------------------------------------------------

/// A submitted line answers `q` correctly when its trimmed form is a
/// member of the question's acceptance set - exact match, first to last.
pub open spec fn spec_correct(q: QuestionModel, line: Seq<char>) -> bool {
    q.answer.contains(spec_trim(line))
}

/// The score after the lines of `lines` answered the first questions of
/// `qs`, one each: the sum of the values of the correctly answered ones.
pub open spec fn spec_score(qs: Seq<QuestionModel>, lines: Seq<Seq<char>>) -> int
    decreases lines.len(),
{
    if lines.len() == 0 {
        0
    } else {
        let k = lines.len() - 1;
        spec_score(qs, lines.drop_last()) + if k < qs.len() && spec_correct(qs[k], lines.last()) {
            qs[k].value
        } else {
            0
        }
    }
}

/// The possible total after the first `k` questions of `qs`: the sum of
/// their values, counted regardless of the outcome.
pub open spec fn spec_total(qs: Seq<QuestionModel>, k: int) -> int
    decreases k,
{
    if k <= 0 {
        0
    } else {
        spec_total(qs, k - 1) + if k - 1 < qs.len() {
            qs[k - 1].value
        } else {
            0
        }
    }
}

/// Whether the trimmed `needle` is a member of the acceptance set.
fn contains_str(hay: &Vec<String>, needle: &str) -> (r: bool)
    ensures
        r == hay.deep_view().contains(needle@),
{
    let mut k: usize = 0;
    while k < hay.len()
        invariant
            k <= hay.len(),
            forall|m: int| 0 <= m < k ==> hay.deep_view()[m] != needle@,
        decreases hay.len() - k,
    {
        if str_eq(hay[k].as_str(), needle) {
            proof {
                assert(hay.deep_view()[k as int] == needle@);
            }
            return true;
        }
        k += 1;
    }
    proof {
        assert forall|m: int| 0 <= m < hay.deep_view().len() implies hay.deep_view()[m]
            != needle@ by {}
    }
    false
}

// ---------------------------------------------------------------------------
// The session.
// ---------------------------------------------------------------------------

/// The final tally: what was scored, what was possible, and whether the
/// score reached the passing threshold.
#[derive(Clone, Copy, Debug, PartialEq, Eq, Structural)]
pub struct Report {
    pub score: i128,
    pub total: i128,
    pub passed: bool,
}

/// One interactive run over a quiz: the document, how many questions
/// were asked so far, and the running tallies. The tallies are kept in
/// 128 bits so that no sequence of answers can overflow them.
pub struct Session {
    pub quiz: Quiz,
    pub asked: usize,
    pub score: i128,
    pub total: i128,
    pub answers: Ghost<Seq<Seq<char>>>,
}

impl Session {
    /// Well-formedness: one recorded answer per asked question, and the
    /// tallies are exactly the sums the answers so far dictate, within
    /// the bounds that keep them far from overflow.
    pub open spec fn wf(self) -> bool {
        &&& self.answers@.len() == self.asked
        &&& self.asked <= self.quiz.questions.len()
        &&& self.score == spec_score(self.quiz.questions.deep_view(), self.answers@)
        &&& self.total == spec_total(self.quiz.questions.deep_view(), self.asked as int)
        &&& -((self.asked as int) * (isize::MAX as int + 1)) <= self.score <= (self.asked as int)
            * (isize::MAX as int + 1)
        &&& -((self.asked as int) * (isize::MAX as int + 1)) <= self.total <= (self.asked as int)
            * (isize::MAX as int + 1)
    }

    /// Takes ownership of a parsed quiz and stands ready to ask its
    /// first question.
    pub fn new(quiz: Quiz) -> (s: Session)
        ensures
            s.wf(),
            s.quiz == quiz,
            s.asked == 0,
            s.score == 0,
            s.total == 0,
            s.answers@ == Seq::<Seq<char>>::empty(),
    {
        Session { quiz, asked: 0, score: 0, total: 0, answers: Ghost(Seq::empty()) }
    }

    /// Whether every question has been asked.
    pub fn done(&self) -> (b: bool)
        ensures
            b == (self.asked == self.quiz.questions.len()),
    {
        self.asked == self.quiz.questions.len()
    }

    /// The question to ask next, or nothing when the session is done.
    pub fn current(&self) -> (q: Option<&Question>)
        ensures
            self.asked < self.quiz.questions.len() ==> (q matches Some(qq) && *qq
                == self.quiz.questions@[self.asked as int]),
            self.asked >= self.quiz.questions.len() ==> q is None,
    {
        if self.asked < self.quiz.questions.len() {
            Some(&self.quiz.questions[self.asked])
        } else {
            None
        }
    }

    /// Submits one line for the current question: reports whether its
    /// trimmed form is an accepted answer, adds the question's value to
    /// the possible total either way, and to the score exactly when the
    /// answer was correct.
    pub fn submit(&mut self, line: &str) -> (correct: bool)
        requires
            old(self).wf(),
            old(self).asked < old(self).quiz.questions.len(),
        ensures
            final(self).wf(),
            final(self).quiz == old(self).quiz,
            final(self).asked == old(self).asked + 1,
            final(self).answers@ == old(self).answers@.push(line@),
            correct == spec_correct(
                old(self).quiz.questions.deep_view()[old(self).asked as int],
                line@,
            ),
            final(self).total == old(self).total + old(self).quiz.questions@[old(
                self,
            ).asked as int].value,
            final(self).score == old(self).score + if correct {
                old(self).quiz.questions@[old(self).asked as int].value as int
            } else {
                0
            },
    {
        let ghost qs = self.quiz.questions.deep_view();
        let ghost a = self.asked as int;
        let ghost la = self.answers@;
        let trimmed = trim_line(line);
        let correct = contains_str(&self.quiz.questions[self.asked].answer, trimmed.as_str());
        let v = self.quiz.questions[self.asked].value;
        proof {
            let m1 = isize::MAX as int + 1;
            assert(m1 <= 0x8000_0000_0000_0000);
            assert(usize::MAX as int <= 0xffff_ffff_ffff_ffff);
            assert((a + 1) * m1 == a * m1 + m1) by (nonlinear_arith);
            assert(a + 1 <= usize::MAX as int);
            assert((a + 1) * m1 <= (usize::MAX as int) * m1) by (nonlinear_arith)
                requires
                    a + 1 <= usize::MAX as int,
                    0 <= m1,
            ;
            assert((usize::MAX as int) * m1 <= i128::MAX) by (nonlinear_arith)
                requires
                    usize::MAX as int <= 0xffff_ffff_ffff_ffff,
                    m1 <= 0x8000_0000_0000_0000,
            ;
            assert(i128::MIN <= self.total + (v as int) <= i128::MAX);
            assert(i128::MIN <= self.score + (v as int) <= i128::MAX);
        }
        self.total = self.total + (v as i128);
        if correct {
            self.score = self.score + (v as i128);
        }
        self.asked = self.asked + 1;
        self.answers = Ghost(la.push(line@));
        proof {
            assert(la.push(line@).drop_last() =~= la);
            assert(spec_score(qs, la.push(line@)) == spec_score(qs, la) + if spec_correct(
                qs[a],
                line@,
            ) {
                qs[a].value
            } else {
                0
            });
            assert(spec_total(qs, a + 1) == spec_total(qs, a) + qs[a].value);
        }
        correct
    }

    /// The final tally. The verdict is exactly the threshold test: the
    /// session is passed if and only if the score reached the quiz's
    /// passing mark.
    pub fn report(&self) -> (rep: Report)
        ensures
            rep.score == self.score,
            rep.total == self.total,
            rep.passed == (self.score >= self.quiz.metaline.pass as int),
    {
        Report {
            score: self.score,
            total: self.total,
            passed: self.score >= (self.quiz.metaline.pass as i128),
        }
    }
}

} // verus!
