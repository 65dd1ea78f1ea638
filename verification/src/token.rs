//! The lexer: a single left-to-right scan that turns source text into a
//! sequence of located tokens, or fails on the first malformed token.

use vstd::prelude::*;
use vstd::string::StrSliceExecFns;

use crate::utils::{loc_le, Error, ErrorKind, ErrorKindModel, ErrorModel, LocModel, Location};

verus! {

/// The closed set of lexical units of the quiz format.
#[derive(Clone, Debug, PartialEq, Eq)]
pub enum TokenKind {
    /// A double-quoted string literal, carrying its unescaped contents.
    String(String),
    /// An optionally negative decimal integer literal.
    Number(isize),
    LBrace,
    RBrace,
    Comma,
    Question,
    Answer,
    Value,
    Title,
    By,
    Pass,
}

/// Mathematical counterpart of `TokenKind`.
#[verifier::ext_equal]
pub ghost enum TokenKindModel {
    Str(Seq<char>),
    Num(int),
    LBrace,
    RBrace,
    Comma,
    Question,
    Answer,
    Value,
    Title,
    By,
    Pass,
}

impl View for TokenKind {
    type V = TokenKindModel;

    open spec fn view(&self) -> TokenKindModel {
        match self {
            TokenKind::String(s) => TokenKindModel::Str(s@),
            TokenKind::Number(n) => TokenKindModel::Num(*n as int),
            TokenKind::LBrace => TokenKindModel::LBrace,
            TokenKind::RBrace => TokenKindModel::RBrace,
            TokenKind::Comma => TokenKindModel::Comma,
            TokenKind::Question => TokenKindModel::Question,
            TokenKind::Answer => TokenKindModel::Answer,
            TokenKind::Value => TokenKindModel::Value,
            TokenKind::Title => TokenKindModel::Title,
            TokenKind::By => TokenKindModel::By,
            TokenKind::Pass => TokenKindModel::Pass,
        }
    }
}

impl DeepView for TokenKind {
    type V = TokenKindModel;

    open spec fn deep_view(&self) -> TokenKindModel {
        self.view()
    }
}

/// A lexical unit together with its source span: `begin` is the cursor
/// before its first character, `end` the cursor after its last.
#[derive(Clone, Debug, PartialEq, Eq)]
pub struct Token {
    pub kind: TokenKind,
    pub begin: Location,
    pub end: Location,
}

/// Mathematical counterpart of `Token`.
#[verifier::ext_equal]
pub ghost struct TokenModel {
    pub kind: TokenKindModel,
    pub begin: LocModel,
    pub end: LocModel,
}

impl View for Token {
    type V = TokenModel;

    open spec fn view(&self) -> TokenModel {
        TokenModel { kind: self.kind@, begin: self.begin@, end: self.end@ }
    }
}

impl DeepView for Token {
    type V = TokenModel;

    open spec fn deep_view(&self) -> TokenModel {
        self.view()
    }
}

// ---------------------------------------------------------------------------
// Character classes. The format itself is ASCII: a bare word may only be a
// keyword, digits are decimal, and anything outside these classes fails the
// scan with an unrecognized-token error.
// ---------------------------------------------------------------------------

/// A decimal digit.
pub open spec fn is_digit_char(c: char) -> bool {
    '0' as u32 <= c as u32 && c as u32 <= '9' as u32
}

/// An ASCII letter or decimal digit.
pub open spec fn is_alnum_char(c: char) -> bool {
    ||| ('a' as u32 <= c as u32 && c as u32 <= 'z' as u32)
    ||| ('A' as u32 <= c as u32 && c as u32 <= 'Z' as u32)
    ||| is_digit_char(c)
}

/// Horizontal whitespace: discarded without producing a token. The newline
/// is handled on its own because it moves the cursor to the next line.
pub open spec fn is_space_char(c: char) -> bool {
    c == ' ' || c == '\t' || c == '\r' || c == '\x0b' || c == '\x0c'
}

/// The numeric value of a digit character.
pub open spec fn digit_val(c: char) -> int {
    c as u32 - '0' as u32
}

// ---------------------------------------------------------------------------
// The cursor. Every consumed character advances it: a newline moves to the
// start of the next line, anything else moves one column right.
// ---------------------------------------------------------------------------

/// The cursor after consuming one character at `loc`.
pub open spec fn loc_after(loc: LocModel, c: char) -> LocModel {
    if c == '\n' {
        LocModel { line: loc.line + 1, col: 1 }
    } else {
        LocModel { line: loc.line, col: loc.col + 1 }
    }
}

/// The cursor after consuming the characters of `s` at positions `[i, j)`,
/// starting from `loc`.
pub open spec fn loc_advance(loc: LocModel, s: Seq<char>, i: int, j: int) -> LocModel
    decreases j - i,
{
    if i < j {
        loc_advance(loc_after(loc, s[i]), s, i + 1, j)
    } else {
        loc
    }
}

// ---------------------------------------------------------------------------
// Maximal scans. Each returns the first index at or after `i` where the
// scanned class ends (or `s.len()` when it runs to the end of input).
// ---------------------------------------------------------------------------

/// The end of the maximal digit run starting at `i`.
pub open spec fn digit_run_end(s: Seq<char>, i: int) -> int
    decreases s.len() - i,
{
    if 0 <= i < s.len() && is_digit_char(s[i]) {
        digit_run_end(s, i + 1)
    } else {
        i
    }
}

/// The end of the maximal alphanumeric run starting at `i`.
pub open spec fn alnum_run_end(s: Seq<char>, i: int) -> int
    decreases s.len() - i,
{
    if 0 <= i < s.len() && is_alnum_char(s[i]) {
        alnum_run_end(s, i + 1)
    } else {
        i
    }
}

/// The index of the first `'"'` at or after `i`, or `s.len()`.
pub open spec fn close_quote_at(s: Seq<char>, i: int) -> int
    decreases s.len() - i,
{
    if 0 <= i < s.len() {
        if s[i] == '"' {
            i
        } else {
            close_quote_at(s, i + 1)
        }
    } else {
        s.len() as int
    }
}

/// The index of the first `'\n'` at or after `i`, or `s.len()`.
pub open spec fn line_break_at(s: Seq<char>, i: int) -> int
    decreases s.len() - i,
{
    if 0 <= i < s.len() {
        if s[i] == '\n' {
            i
        } else {
            line_break_at(s, i + 1)
        }
    } else {
        s.len() as int
    }
}

/// The value of the digit run of `s` at positions `[lo, hi)`, read as a
/// decimal numeral.
pub open spec fn digits_val(s: Seq<char>, lo: int, hi: int) -> int
    decreases hi - lo,
{
    if lo < hi {
        digits_val(s, lo, hi - 1) * 10 + digit_val(s[hi - 1])
    } else {
        0
    }
}

/// The fixed keyword table: the only bare words the format accepts.
pub open spec fn keyword_kind(w: Seq<char>) -> Option<TokenKindModel> {
    if w == "question"@ {
        Some(TokenKindModel::Question)
    } else if w == "answer"@ {
        Some(TokenKindModel::Answer)
    } else if w == "value"@ {
        Some(TokenKindModel::Value)
    } else if w == "title"@ {
        Some(TokenKindModel::Title)
    } else if w == "pass"@ {
        Some(TokenKindModel::Pass)
    } else if w == "by"@ {
        Some(TokenKindModel::By)
    } else {
        None
    }
}

// ---------------------------------------------------------------------------
// The lexer itself, as a mathematical function. `lex_from` scans the suffix
// of `s` starting at `i` with the cursor at `loc`; `spec_tokenize` scans the
// whole text from line 1, column 1.
// ---------------------------------------------------------------------------

/// Builds the error value every failing scan returns.
pub open spec fn lex_err(loc: LocModel, file: Seq<char>, kind: ErrorKindModel) -> ErrorModel {
    ErrorModel { loc, file, kind }
}

/// Prepends one token to the outcome of scanning the rest.
pub open spec fn lex_prepend(
    t: TokenModel,
    r: Result<Seq<TokenModel>, ErrorModel>,
) -> Result<Seq<TokenModel>, ErrorModel> {
    match r {
        Ok(ts) => Ok(seq![t] + ts),
        Err(e) => Err(e),
    }
}

/// One left-to-right scan over `s[i..]`, cursor at `loc`: the token
/// sequence it produces, or the first lexical error.
pub open spec fn lex_from(
    s: Seq<char>,
    i: int,
    loc: LocModel,
    file: Seq<char>,
) -> Result<Seq<TokenModel>, ErrorModel>
    decreases s.len() - i,
    when 0 <= i
    via lex_from_dec
{
    if i >= s.len() {
        Ok(Seq::empty())
    } else {
        let c = s[i];
        if c == '{' {
            let end = loc_after(loc, c);
            lex_prepend(
                TokenModel { kind: TokenKindModel::LBrace, begin: loc, end },
                lex_from(s, i + 1, end, file),
            )
        } else if c == '}' {
            let end = loc_after(loc, c);
            lex_prepend(
                TokenModel { kind: TokenKindModel::RBrace, begin: loc, end },
                lex_from(s, i + 1, end, file),
            )
        } else if c == ',' {
            let end = loc_after(loc, c);
            lex_prepend(
                TokenModel { kind: TokenKindModel::Comma, begin: loc, end },
                lex_from(s, i + 1, end, file),
            )
        } else if c == '"' {
            let j = close_quote_at(s, i + 1);
            if j == s.len() {
                Err(lex_err(loc, file, ErrorKindModel::UnterminatedString))
            } else {
                let end = loc_advance(loc, s, i, j + 1);
                lex_prepend(
                    TokenModel {
                        kind: TokenKindModel::Str(s.subrange(i + 1, j)),
                        begin: loc,
                        end,
                    },
                    lex_from(s, j + 1, end, file),
                )
            }
        } else if c == '-' || is_digit_char(c) {
            let lo = if c == '-' { i + 1 } else { i };
            let j = digit_run_end(s, lo);
            if j == lo && c == '-' {
                Err(lex_err(loc, file, ErrorKindModel::MalformedNumber))
            } else if digits_val(s, lo, j) > isize::MAX as int {
                Err(lex_err(loc, file, ErrorKindModel::MalformedNumber))
            } else {
                let n = if c == '-' {
                    -digits_val(s, lo, j)
                } else {
                    digits_val(s, lo, j)
                };
                let end = loc_advance(loc, s, i, j);
                lex_prepend(
                    TokenModel { kind: TokenKindModel::Num(n), begin: loc, end },
                    lex_from(s, j, end, file),
                )
            }
        } else if is_alnum_char(c) {
            let j = alnum_run_end(s, i);
            let w = s.subrange(i, j);
            match keyword_kind(w) {
                Some(k) => {
                    let end = loc_advance(loc, s, i, j);
                    lex_prepend(
                        TokenModel { kind: k, begin: loc, end },
                        lex_from(s, j, end, file),
                    )
                },
                None => Err(lex_err(loc, file, ErrorKindModel::InvalidKeyword(w))),
            }
        } else if c == '#' {
            let b = line_break_at(s, i);
            let j = if b < s.len() {
                b + 1
            } else {
                b
            };
            lex_from(s, j, loc_advance(loc, s, i, j), file)
        } else if c == '\n' || is_space_char(c) {
            lex_from(s, i + 1, loc_after(loc, c), file)
        } else {
            Err(lex_err(loc, file, ErrorKindModel::UnrecognizedToken(s.subrange(i, i + 1))))
        }
    }
}

#[via_fn]
proof fn lex_from_dec(s: Seq<char>, i: int, loc: LocModel, file: Seq<char>) {
    lemma_close_quote_at_ge(s, i + 1);
    lemma_digit_run_end_ge(s, i);
    lemma_digit_run_end_ge(s, i + 1);
    lemma_alnum_run_end_ge(s, i);
    lemma_line_break_at_ge(s, i);
}

/// The whole lexer: the token sequence of `s`, tagged with `file`, or its
/// first lexical error.
pub open spec fn spec_tokenize(s: Seq<char>, file: Seq<char>) -> Result<Seq<TokenModel>, ErrorModel> {
    lex_from(s, 0, LocModel { line: 1, col: 1 }, file)
}

/// A digit run never ends before where it starts, never runs past the end
/// of input, and takes at least the digit it starts on.
pub proof fn lemma_digit_run_end_ge(s: Seq<char>, i: int)
    ensures
        digit_run_end(s, i) >= i,
        i <= s.len() ==> digit_run_end(s, i) <= s.len(),
        0 <= i < s.len() && is_digit_char(s[i]) ==> digit_run_end(s, i) > i,
    decreases s.len() - i,
{
    if 0 <= i < s.len() && is_digit_char(s[i]) {
        lemma_digit_run_end_ge(s, i + 1);
    }
}

/// An alphanumeric run never ends before where it starts, never runs past
/// the end of input, and takes at least the character it starts on.
pub proof fn lemma_alnum_run_end_ge(s: Seq<char>, i: int)
    ensures
        alnum_run_end(s, i) >= i,
        i <= s.len() ==> alnum_run_end(s, i) <= s.len(),
        0 <= i < s.len() && is_alnum_char(s[i]) ==> alnum_run_end(s, i) > i,
    decreases s.len() - i,
{
    if 0 <= i < s.len() && is_alnum_char(s[i]) {
        lemma_alnum_run_end_ge(s, i + 1);
    }
}

/// The next line break is never before where the search starts.
pub proof fn lemma_line_break_at_ge(s: Seq<char>, i: int)
    ensures
        i <= s.len() ==> i <= line_break_at(s, i) <= s.len(),
    decreases s.len() - i,
{
    if 0 <= i < s.len() && s[i] != '\n' {
        lemma_line_break_at_ge(s, i + 1);
    }
}

/// The next closing quote is never before where the search starts.
pub proof fn lemma_close_quote_at_ge(s: Seq<char>, i: int)
    ensures
        i <= s.len() ==> i <= close_quote_at(s, i) <= s.len(),
    decreases s.len() - i,
{
    if 0 <= i < s.len() && s[i] != '"' {
        lemma_close_quote_at_ge(s, i + 1);
    }
}


// ---------------------------------------------------------------------------
// Composition of a scanned prefix with the outcome of scanning the rest:
// the shape of the executable lexer's loop invariant.
// ---------------------------------------------------------------------------

/// The tokens already produced, followed by whatever scanning the rest of
/// the text yields.
pub open spec fn lex_compose(
    pre: Seq<TokenModel>,
    r: Result<Seq<TokenModel>, ErrorModel>,
) -> Result<Seq<TokenModel>, ErrorModel> {
    match r {
        Ok(ts) => Ok(pre + ts),
        Err(e) => Err(e),
    }
}

/// Scanning nothing so far changes nothing.
proof fn lemma_compose_empty(r: Result<Seq<TokenModel>, ErrorModel>)
    ensures
        lex_compose(Seq::empty(), r) == r,
{
    match r {
        Ok(ts) => {
            assert(Seq::empty() + ts =~= ts);
        },
        Err(_) => {},
    }
}

/// Moving one token from the unscanned rest to the scanned prefix keeps
/// the composed outcome.
proof fn lemma_compose_push(
    pre: Seq<TokenModel>,
    t: TokenModel,
    r: Result<Seq<TokenModel>, ErrorModel>,
)
    ensures
        lex_compose(pre.push(t), r) == lex_compose(pre, lex_prepend(t, r)),
{
    match r {
        Ok(ts) => {
            assert(pre.push(t) + ts =~= pre + (seq![t] + ts));
        },
        Err(_) => {},
    }
}

/// Advancing over `[i, j)` and then over `s[j]` is advancing over
/// `[i, j + 1)`.
proof fn lemma_loc_advance_snoc(loc: LocModel, s: Seq<char>, i: int, j: int)
    requires
        i <= j,
    ensures
        loc_advance(loc, s, i, j + 1) == loc_after(loc_advance(loc, s, i, j), s[j]),
    decreases j - i,
{
    reveal_with_fuel(loc_advance, 2);
    if i < j {
        lemma_loc_advance_snoc(loc_after(loc, s[i]), s, i + 1, j);
    }
}

/// Every character of a digit run is a digit.
proof fn lemma_digit_run_digits(s: Seq<char>, i: int)
    ensures
        forall|k: int| i <= k < digit_run_end(s, i) ==> is_digit_char(#[trigger] s[k]),
    decreases s.len() - i,
{
    if 0 <= i < s.len() && is_digit_char(s[i]) {
        lemma_digit_run_digits(s, i + 1);
    }
}

/// Over a run of digits, the value of a numeral is non-negative and only
/// grows as the run extends.
proof fn lemma_digits_val_grows(s: Seq<char>, lo: int, a: int, b: int)
    requires
        lo <= a <= b,
        digits_val(s, lo, a) >= 0,
        forall|k: int| a <= k < b ==> is_digit_char(#[trigger] s[k]),
    ensures
        digits_val(s, lo, b) >= digits_val(s, lo, a),
    decreases b - a,
{
    if a < b {
        assert(is_digit_char(s[b - 1]));
        lemma_digits_val_grows(s, lo, a, b - 1);
    }
}

// ---------------------------------------------------------------------------
// Small executable helpers, each a direct mirror of one spec function.
// ---------------------------------------------------------------------------

/// Executable test for `is_digit_char`.
fn is_digit(c: char) -> (r: bool)
    ensures
        r == is_digit_char(c),
{
    let u = c as u32;
    48 <= u && u <= 57
}

/// Executable test for `is_alnum_char`.
fn is_alnum(c: char) -> (r: bool)
    ensures
        r == is_alnum_char(c),
{
    let u = c as u32;
    (97 <= u && u <= 122) || (65 <= u && u <= 90) || (48 <= u && u <= 57)
}

/// Executable test for `is_space_char`.
fn is_space(c: char) -> (r: bool)
    ensures
        r == is_space_char(c),
{
    c == ' ' || c == '\t' || c == '\r' || c == '\x0b' || c == '\x0c'
}

/// Advances the cursor over one character, as `loc_after` does.
fn loc_next(loc: Location, c: char) -> (r: Location)
    requires
        1 <= loc.line,
        1 <= loc.col,
        loc.line + loc.col <= usize::MAX,
    ensures
        r@ == loc_after(loc@, c),
        1 <= r.line,
        1 <= r.col,
        r.line + r.col <= loc.line + loc.col + 1,
{
    if c == '\n' {
        Location { line: loc.line + 1, col: 1 }
    } else {
        Location { line: loc.line, col: loc.col + 1 }
    }
}

/// Character-for-character string equality, decided executably.
pub(crate) fn str_eq(a: &str, b: &str) -> (r: bool)
    ensures
        r == (a@ == b@),
{
    let an = a.unicode_len();
    let bn = b.unicode_len();
    if an != bn {
        return false;
    }
    let mut k: usize = 0;
    while k < an
        invariant
            an == a@.len(),
            an == b@.len(),
            k <= an,
            forall|m: int| 0 <= m < k ==> a@[m] == b@[m],
        decreases an - k,
    {
        if a.get_char(k) != b.get_char(k) {
            return false;
        }
        k += 1;
    }
    proof {
        assert(a@ =~= b@);
    }
    true
}

/// The outcome of the executable lexer, seen mathematically.
pub open spec fn lex_res_view(r: Result<Vec<Token>, Error>) -> Result<Seq<TokenModel>, ErrorModel> {
    match r {
        Ok(v) => Ok(v.deep_view()),
        Err(e) => Err(e@),
    }
}

/// Turns `input`, tagged with the file name `file`, into its token
/// sequence, or fails with the first lexical error, exactly as
/// `spec_tokenize` says.
pub fn ize(file: &str, input: &str) -> (r: Result<Vec<Token>, Error>)
    requires
        input@.len() < usize::MAX,
    ensures
        lex_res_view(r) == spec_tokenize(input@, file@),
{
    let ghost s = input@;
    let ghost f = file@;
    let n = input.unicode_len();
    let mut toks: Vec<Token> = Vec::new();
    let mut i: usize = 0;
    let mut loc = Location { line: 1, col: 1 };
    proof {
        lemma_compose_empty(lex_from(s, 0, loc@, f));
    }
    while i < n
        invariant
            s == input@,
            f == file@,
            n == s.len(),
            n < usize::MAX,
            i <= n,
            1 <= loc.line,
            1 <= loc.col,
            loc.line + loc.col <= i + 2,
            lex_compose(toks.deep_view(), lex_from(s, i as int, loc@, f)) == spec_tokenize(s, f),
        decreases n - i,
    {
        let ghost toks0 = toks.deep_view();
        let ghost i0 = i as int;
        let ghost loc0 = loc@;
        let c = input.get_char(i);
        if c == '{' || c == '}' || c == ',' {
            let begin = loc;
            let end = loc_next(loc, c);
            let kind = if c == '{' {
                TokenKind::LBrace
            } else if c == '}' {
                TokenKind::RBrace
            } else {
                TokenKind::Comma
            };
            let token = Token { kind, begin, end };
            let ghost tm = token@;
            toks.push(token);
            i = i + 1;
            loc = end;
            proof {
                assert(toks.deep_view() =~= toks0.push(tm));
                assert(lex_from(s, i0, loc0, f) == lex_prepend(tm, lex_from(s, i as int, loc@, f)));
                lemma_compose_push(toks0, tm, lex_from(s, i as int, loc@, f));
            }
        } else if c == '"' {
            let begin = loc;
            let mut cur = loc_next(loc, c);
            let mut j = i + 1;
            proof {
                assert(cur@ == loc_advance(begin@, s, i as int, j as int)) by {
                    reveal_with_fuel(loc_advance, 2);
                }
            }
            while j < n && input.get_char(j) != '"'
                invariant
                    s == input@,
                    n == s.len(),
                    n < usize::MAX,
                    i < n,
                    i + 1 <= j <= n,
                    s[i as int] == '"',
                    begin == loc,
                    1 <= cur.line,
                    1 <= cur.col,
                    cur.line + cur.col <= j + 2,
                    cur@ == loc_advance(begin@, s, i as int, j as int),
                    close_quote_at(s, i + 1) == close_quote_at(s, j as int),
                decreases n - j,
            {
                let d = input.get_char(j);
                proof {
                    assert(close_quote_at(s, j as int) == close_quote_at(s, j + 1));
                    lemma_loc_advance_snoc(begin@, s, i as int, j as int);
                }
                cur = loc_next(cur, d);
                j += 1;
            }
            if j == n {
                let e = Error {
                    loc: begin,
                    file: file.to_owned(),
                    kind: ErrorKind::UnterminatedString,
                };
                proof {
                    assert(close_quote_at(s, i + 1) == n);
                    assert(lex_from(s, i0, loc0, f) == Err::<Seq<TokenModel>, ErrorModel>(e@));
                }
                return Err(e);
            }
            proof {
                assert(close_quote_at(s, j as int) == j);
                lemma_loc_advance_snoc(begin@, s, i as int, j as int);
            }
            let end = loc_next(cur, '"');
            let content = input.substring_char(i + 1, j).to_owned();
            let token = Token { kind: TokenKind::String(content), begin, end };
            let ghost tm = token@;
            toks.push(token);
            i = j + 1;
            loc = end;
            proof {
                assert(toks.deep_view() =~= toks0.push(tm));
                assert(lex_from(s, i0, loc0, f) == lex_prepend(tm, lex_from(s, i as int, loc@, f)));
                lemma_compose_push(toks0, tm, lex_from(s, i as int, loc@, f));
            }
        } else if c == '-' || is_digit(c) {
            let begin = loc;
            let neg = c == '-';
            let mut cur = loc;
            let mut j = i;
            if neg {
                cur = loc_next(loc, c);
                j = i + 1;
            }
            let ghost lo = j as int;
            proof {
                assert(cur@ == loc_advance(begin@, s, i as int, j as int)) by {
                    reveal_with_fuel(loc_advance, 2);
                }
            }
            let mut acc: isize = 0;
            while j < n && is_digit(input.get_char(j))
                invariant
                    s == input@,
                    f == file@,
                    n == s.len(),
                    n < usize::MAX,
                    i < n,
                    i0 == i as int,
                    loc0 == loc@,
                    neg == (s[i0] == '-'),
                    !neg ==> is_digit_char(s[i0]),
                    lex_compose(toks.deep_view(), lex_from(s, i0, loc0, f)) == spec_tokenize(s, f),
                    lo == (if neg { i + 1 } else { i as int }),
                    lo <= j <= n,
                    i <= j,
                    begin == loc,
                    1 <= cur.line,
                    1 <= cur.col,
                    cur.line + cur.col <= j + 2,
                    cur@ == loc_advance(begin@, s, i as int, j as int),
                    digit_run_end(s, lo) == digit_run_end(s, j as int),
                    forall|k: int| lo <= k < j ==> is_digit_char(#[trigger] s[k]),
                    0 <= acc,
                    acc == digits_val(s, lo, j as int),
                decreases n - j,
            {
                let d = input.get_char(j);
                let dv = (d as u32 - 48) as isize;
                let q = isize::MAX / 10;
                let m = isize::MAX % 10;
                if acc > q || (acc == q && dv > m) {
                    let e = Error {
                        loc: begin,
                        file: file.to_owned(),
                        kind: ErrorKind::MalformedNumber,
                    };
                    proof {
                        vstd::arithmetic::div_mod::lemma_fundamental_div_mod(
                            isize::MAX as int,
                            10,
                        );
                        assert(digits_val(s, lo, j + 1) == acc * 10 + dv);
                        assert(digits_val(s, lo, j + 1) > isize::MAX as int);
                        lemma_digit_run_digits(s, j + 1);
                        lemma_digit_run_end_ge(s, j + 1);
                        lemma_digits_val_grows(s, lo, j + 1, digit_run_end(s, j + 1));
                        assert(digit_run_end(s, j as int) == digit_run_end(s, j + 1));
                        assert(digits_val(s, lo, digit_run_end(s, lo)) > isize::MAX as int);
                        assert(lex_from(s, i0, loc0, f) == Err::<Seq<TokenModel>, ErrorModel>(e@));
                    }
                    return Err(e);
                }
                proof {
                    vstd::arithmetic::div_mod::lemma_fundamental_div_mod(
                        isize::MAX as int,
                        10,
                    );
                    assert(acc * 10 + dv <= isize::MAX);
                    assert(digit_run_end(s, j as int) == digit_run_end(s, j + 1));
                    lemma_loc_advance_snoc(begin@, s, i as int, j as int);
                }
                acc = acc * 10 + dv;
                cur = loc_next(cur, d);
                j += 1;
            }
            proof {
                assert(digit_run_end(s, j as int) == j);
                assert(digit_run_end(s, lo) == j);
            }
            if neg && j == i + 1 {
                let e = Error {
                    loc: begin,
                    file: file.to_owned(),
                    kind: ErrorKind::MalformedNumber,
                };
                proof {
                    assert(lex_from(s, i0, loc0, f) == Err::<Seq<TokenModel>, ErrorModel>(e@));
                }
                return Err(e);
            }
            let val = if neg {
                -acc
            } else {
                acc
            };
            let end = cur;
            let token = Token { kind: TokenKind::Number(val), begin, end };
            let ghost tm = token@;
            toks.push(token);
            i = j;
            loc = end;
            proof {
                assert(toks.deep_view() =~= toks0.push(tm));
                assert(lex_from(s, i0, loc0, f) == lex_prepend(tm, lex_from(s, i as int, loc@, f)));
                lemma_compose_push(toks0, tm, lex_from(s, i as int, loc@, f));
            }
        } else if is_alnum(c) {
            let begin = loc;
            let mut cur = loc;
            let mut j = i;
            while j < n && is_alnum(input.get_char(j))
                invariant
                    s == input@,
                    n == s.len(),
                    n < usize::MAX,
                    i < n,
                    i <= j <= n,
                    begin == loc,
                    1 <= cur.line,
                    1 <= cur.col,
                    cur.line + cur.col <= j + 2,
                    cur@ == loc_advance(begin@, s, i as int, j as int),
                    alnum_run_end(s, i as int) == alnum_run_end(s, j as int),
                decreases n - j,
            {
                let d = input.get_char(j);
                proof {
                    assert(alnum_run_end(s, j as int) == alnum_run_end(s, j + 1));
                    lemma_loc_advance_snoc(begin@, s, i as int, j as int);
                }
                cur = loc_next(cur, d);
                j += 1;
            }
            proof {
                assert(alnum_run_end(s, j as int) == j);
                assert(alnum_run_end(s, i as int) == j);
            }
            let w = input.substring_char(i, j);
            let kind_found = if str_eq(w, "question") {
                Some(TokenKind::Question)
            } else if str_eq(w, "answer") {
                Some(TokenKind::Answer)
            } else if str_eq(w, "value") {
                Some(TokenKind::Value)
            } else if str_eq(w, "title") {
                Some(TokenKind::Title)
            } else if str_eq(w, "pass") {
                Some(TokenKind::Pass)
            } else if str_eq(w, "by") {
                Some(TokenKind::By)
            } else {
                None
            };
            match kind_found {
                Some(kind) => {
                    let end = cur;
                    let token = Token { kind, begin, end };
                    let ghost tm = token@;
                    toks.push(token);
                    i = j;
                    loc = end;
                    proof {
                        assert(toks.deep_view() =~= toks0.push(tm));
                        assert(lex_from(s, i0, loc0, f) == lex_prepend(
                            tm,
                            lex_from(s, i as int, loc@, f),
                        ));
                        lemma_compose_push(toks0, tm, lex_from(s, i as int, loc@, f));
                    }
                },
                None => {
                    let e = Error {
                        loc: begin,
                        file: file.to_owned(),
                        kind: ErrorKind::InvalidKeyword(w.to_owned()),
                    };
                    proof {
                        assert(lex_from(s, i0, loc0, f) == Err::<Seq<TokenModel>, ErrorModel>(e@));
                    }
                    return Err(e);
                },
            }
        } else if c == '#' {
            let mut cur = loc;
            let mut j = i;
            while j < n && input.get_char(j) != '\n'
                invariant
                    s == input@,
                    n == s.len(),
                    n < usize::MAX,
                    i < n,
                    i <= j <= n,
                    1 <= cur.line,
                    1 <= cur.col,
                    cur.line + cur.col <= j + 2,
                    cur@ == loc_advance(loc0, s, i as int, j as int),
                    line_break_at(s, i as int) == line_break_at(s, j as int),
                decreases n - j,
            {
                let d = input.get_char(j);
                proof {
                    assert(line_break_at(s, j as int) == line_break_at(s, j + 1));
                    lemma_loc_advance_snoc(loc0, s, i as int, j as int);
                }
                cur = loc_next(cur, d);
                j += 1;
            }
            proof {
                assert(line_break_at(s, j as int) == j);
                assert(line_break_at(s, i as int) == j);
            }
            if j < n {
                let d = input.get_char(j);
                proof {
                    lemma_loc_advance_snoc(loc0, s, i as int, j as int);
                }
                cur = loc_next(cur, d);
                j += 1;
            }
            i = j;
            loc = cur;
        } else if c == '\n' || is_space(c) {
            loc = loc_next(loc, c);
            i = i + 1;
        } else {
            let piece = input.substring_char(i, i + 1).to_owned();
            let e = Error {
                loc,
                file: file.to_owned(),
                kind: ErrorKind::UnrecognizedToken(piece),
            };
            proof {
                assert(s.subrange(i as int, i + 1) =~= e.kind@->UnrecognizedToken_0);
                assert(lex_from(s, i0, loc0, f) == Err::<Seq<TokenModel>, ErrorModel>(e@));
            }
            return Err(e);
        }
    }
    proof {
        assert(toks.deep_view() + Seq::<TokenModel>::empty() =~= toks.deep_view());
    }
    Ok(toks)
}


// ---------------------------------------------------------------------------
// Laws of the lexer.
// ---------------------------------------------------------------------------

/// Advancing a cursor never moves it backwards.
proof fn lemma_loc_advance_le(loc: LocModel, s: Seq<char>, i: int, j: int)
    requires
        i <= j,
    ensures
        loc_le(loc, loc_advance(loc, s, i, j)),
    decreases j - i,
{
    if i < j {
        lemma_loc_advance_le(loc_after(loc, s[i]), s, i + 1, j);
    }
}

/// The inductive form of the span law: every token that a scan from
/// cursor `loc` produces begins at or after `loc`, ends at or after its
/// own beginning, and begins at or after the end of the token before it.
pub proof fn lemma_lex_from_spans(
    s: Seq<char>,
    i: int,
    loc: LocModel,
    file: Seq<char>,
    ts: Seq<TokenModel>,
)
    requires
        0 <= i,
        lex_from(s, i, loc, file) == Ok::<Seq<TokenModel>, ErrorModel>(ts),
    ensures
        forall|k: int| 0 <= k < ts.len() ==> loc_le(loc, #[trigger] ts[k].begin),
        forall|k: int| 0 <= k < ts.len() ==> loc_le(#[trigger] ts[k].begin, ts[k].end),
        forall|k: int| 0 <= k < ts.len() - 1 ==> loc_le(#[trigger] ts[k].end, ts[k + 1].begin),
    decreases s.len() - i,
{
    if i >= s.len() {
        // no tokens
    } else {
        let c = s[i];
        if c == '{' || c == '}' || c == ',' {
            let end = loc_after(loc, c);
            let rest = lex_from(s, i + 1, end, file);
            lemma_lex_from_spans(s, i + 1, end, file, rest->Ok_0);
            assert(ts[0].end == end);
        } else if c == '"' {
            let j = close_quote_at(s, i + 1);
            lemma_close_quote_at_ge(s, i + 1);
            let end = loc_advance(loc, s, i, j + 1);
            let rest = lex_from(s, j + 1, end, file);
            lemma_lex_from_spans(s, j + 1, end, file, rest->Ok_0);
            lemma_loc_advance_le(loc, s, i, j + 1);
            assert(ts[0].end == end);
        } else if c == '-' || is_digit_char(c) {
            let lo = if c == '-' {
                i + 1
            } else {
                i
            };
            let j = digit_run_end(s, lo);
            lemma_digit_run_end_ge(s, lo);
            let end = loc_advance(loc, s, i, j);
            let rest = lex_from(s, j, end, file);
            lemma_lex_from_spans(s, j, end, file, rest->Ok_0);
            lemma_loc_advance_le(loc, s, i, j);
            assert(ts[0].end == end);
        } else if is_alnum_char(c) {
            let j = alnum_run_end(s, i);
            lemma_alnum_run_end_ge(s, i);
            let end = loc_advance(loc, s, i, j);
            let rest = lex_from(s, j, end, file);
            lemma_lex_from_spans(s, j, end, file, rest->Ok_0);
            lemma_loc_advance_le(loc, s, i, j);
            assert(ts[0].end == end);
        } else if c == '#' {
            let b = line_break_at(s, i);
            lemma_line_break_at_ge(s, i);
            let j = if b < s.len() {
                b + 1
            } else {
                b
            };
            let next = loc_advance(loc, s, i, j);
            lemma_lex_from_spans(s, j, next, file, ts);
            lemma_loc_advance_le(loc, s, i, j);
        } else if c == '\n' || is_space_char(c) {
            lemma_lex_from_spans(s, i + 1, loc_after(loc, c), file, ts);
        } else {
            // an error, contradicting the Ok hypothesis
        }
    }
}

/// Spans are ordered: in the token sequence of any source text, each
/// token's span `[begin, end)` is non-empty-or-forward and the spans of
/// consecutive tokens never overlap and never move backwards.
pub proof fn lemma_token_spans_ordered(s: Seq<char>, file: Seq<char>, ts: Seq<TokenModel>)
    requires
        spec_tokenize(s, file) == Ok::<Seq<TokenModel>, ErrorModel>(ts),
    ensures
        forall|k: int| 0 <= k < ts.len() ==> loc_le(#[trigger] ts[k].begin, ts[k].end),
        forall|k: int| 0 <= k < ts.len() - 1 ==> loc_le(#[trigger] ts[k].end, ts[k + 1].begin),
{
    lemma_lex_from_spans(s, 0, LocModel { line: 1, col: 1 }, file, ts);
}

/// Keywords are exhaustive: a bare word - a maximal alphanumeric run that
/// starts with a letter - that is not in the fixed keyword table makes
/// the scan fail right there with an invalid-keyword error naming that
/// exact run.
pub proof fn lemma_keyword_exhaustive(s: Seq<char>, i: int, loc: LocModel, file: Seq<char>)
    requires
        0 <= i < s.len(),
        is_alnum_char(s[i]),
        !is_digit_char(s[i]),
        keyword_kind(s.subrange(i, alnum_run_end(s, i))) is None,
    ensures
        lex_from(s, i, loc, file) == Err::<Seq<TokenModel>, ErrorModel>(
            lex_err(
                loc,
                file,
                ErrorKindModel::InvalidKeyword(s.subrange(i, alnum_run_end(s, i))),
            ),
        ),
{
}

} // verus!
