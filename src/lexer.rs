//! Byte stream to tokens, with source locations and one token of lookahead.
use vstd::prelude::*;

use crate::error::{CompileError, ErrorKind};

verus! {

/// A source location: 1-based row and column.
#[derive(Clone, Copy, Debug, PartialEq, Eq, Structural)]
pub struct Loc {
    pub row: usize,
    pub col: usize,
}

#[derive(Clone, Copy, Debug, PartialEq, Eq, Structural)]
pub enum BinOpKind {
    Add,
    Sub,
    Mul,
    Div,
    Gt,
    Ge,
    Lt,
    Le,
    Eq,
    Ne,
    And,
    Or,
}

#[derive(Clone, Copy, Debug, PartialEq, Eq, Structural)]
pub enum Keyword {
    If,
    Else,
    Fn,
    Return,
    For,
    Int,
}

#[derive(Clone, Copy, Debug, PartialEq, Eq, Structural)]
pub enum Punct {
    Semicolon,
    Comma,
    OpenParen,
    CloseParen,
    OpenCurly,
    CloseCurly,
    Colon,
    Eq,
}

#[derive(Clone, Debug, PartialEq, Eq)]
pub enum Token {
    Ident(Vec<u8>),
    StrLit(Vec<u8>),
    Number(i32),
    BinOp(BinOpKind),
    Keyword(Keyword),
    Punct(Punct),
}

/// The mathematical value of a token.
pub enum TokenV {
    Ident(Seq<u8>),
    StrLit(Seq<u8>),
    Number(int),
    BinOp(BinOpKind),
    Keyword(Keyword),
    Punct(Punct),
}

impl View for Token {
    type V = TokenV;

    open spec fn view(&self) -> TokenV {
        match self {
            Token::Ident(v) => TokenV::Ident(v@),
            Token::StrLit(v) => TokenV::StrLit(v@),
            Token::Number(n) => TokenV::Number(*n as int),
            Token::BinOp(k) => TokenV::BinOp(*k),
            Token::Keyword(k) => TokenV::Keyword(*k),
            Token::Punct(p) => TokenV::Punct(*p),
        }
    }
}

impl Token {
    /// A copy of the token.
    pub fn duplicate(&self) -> (r: Token)
        ensures
            r@ == self@,
    {
        match self {
            Token::Ident(v) => Token::Ident(vstd::slice::slice_to_vec(v.as_slice())),
            Token::StrLit(v) => Token::StrLit(vstd::slice::slice_to_vec(v.as_slice())),
            Token::Number(n) => Token::Number(*n),
            Token::BinOp(k) => Token::BinOp(*k),
            Token::Keyword(k) => Token::Keyword(*k),
            Token::Punct(p) => Token::Punct(*p),
        }
    }

    /// Whether the token is the punctuator `p`.
    pub fn is_punct(&self, p: Punct) -> (r: bool)
        ensures
            r == (self@ == TokenV::Punct(p)),
    {
        match self {
            Token::Punct(q) => *q == p,
            _ => false,
        }
    }
}

/// Why the bytes at some position form no token.
#[derive(Clone, Copy, Debug, PartialEq, Eq, Structural)]
pub enum LexErrorKind {
    /// A run of digits whose value does not fit in a signed 32-bit integer.
    InvalidNumber,
    /// A byte that starts no token.
    UndefinedToken,
    /// A string literal that holds a line break or a single quote, or lacks its closing
    /// double quote.
    UnterminatedString,
}

pub open spec fn is_ws(b: u8) -> bool {
    b == 9 || b == 10 || b == 13 || b == 32
}

pub open spec fn is_alpha(b: u8) -> bool {
    (65 <= b <= 90) || (97 <= b <= 122)
}

pub open spec fn is_digit(b: u8) -> bool {
    48 <= b <= 57
}

pub open spec fn is_alnum(b: u8) -> bool {
    is_alpha(b) || is_digit(b)
}

/// A byte that may not stand inside a string literal.
pub open spec fn ends_strlit(b: u8) -> bool {
    b == 34 || b == 39 || b == 10 || b == 13
}

/// The first position at or after `p` that holds no whitespace.
pub open spec fn skip_ws(src: Seq<u8>, p: int) -> int
    decreases src.len() - p,
{
    if 0 <= p < src.len() && is_ws(src[p]) {
        skip_ws(src, p + 1)
    } else {
        p
    }
}

/// The end of the run of letters and digits that starts at `p`.
pub open spec fn alnum_end(src: Seq<u8>, p: int) -> int
    decreases src.len() - p,
{
    if 0 <= p < src.len() && is_alnum(src[p]) {
        alnum_end(src, p + 1)
    } else {
        p
    }
}

/// The end of the run of digits that starts at `p`.
pub open spec fn digit_end(src: Seq<u8>, p: int) -> int
    decreases src.len() - p,
{
    if 0 <= p < src.len() && is_digit(src[p]) {
        digit_end(src, p + 1)
    } else {
        p
    }
}

/// The first position at or after `p` whose byte may not stand in a string literal.
pub open spec fn strlit_end(src: Seq<u8>, p: int) -> int
    decreases src.len() - p,
{
    if 0 <= p < src.len() && !ends_strlit(src[p]) {
        strlit_end(src, p + 1)
    } else {
        p
    }
}

/// The decimal value of a run of digits.
pub open spec fn digits_value(s: Seq<u8>) -> int
    decreases s.len(),
{
    if s.len() == 0 {
        0
    } else {
        digits_value(s.drop_last()) * 10 + (s.last() - 48)
    }
}

pub open spec fn keyword_of(w: Seq<u8>) -> Option<Keyword> {
    if w.len() == 2 && w[0] == 105 && w[1] == 102 {
        Some(Keyword::If)
    } else if w.len() == 2 && w[0] == 102 && w[1] == 110 {
        Some(Keyword::Fn)
    } else if w.len() == 6 && w[0] == 114 && w[1] == 101 && w[2] == 116 && w[3] == 117 && w[4]
        == 114 && w[5] == 110 {
        Some(Keyword::Return)
    } else if w.len() == 4 && w[0] == 101 && w[1] == 108 && w[2] == 115 && w[3] == 101 {
        Some(Keyword::Else)
    } else if w.len() == 3 && w[0] == 102 && w[1] == 111 && w[2] == 114 {
        Some(Keyword::For)
    } else if w.len() == 3 && w[0] == 105 && w[1] == 110 && w[2] == 116 {
        Some(Keyword::Int)
    } else {
        None
    }
}

/// What the bytes at `p` (a position holding no whitespace) read as.
pub enum Scan {
    /// A token and the number of bytes it takes.
    Tok(TokenV, int),
    Bad(LexErrorKind),
}

pub open spec fn scan(src: Seq<u8>, p: int) -> Scan {
    let b = src[p];
    let nx: u8 = if p + 1 < src.len() {
        src[p + 1]
    } else {
        0
    };
    if b == 43 {
        Scan::Tok(TokenV::BinOp(BinOpKind::Add), 1)
    } else if b == 45 {
        Scan::Tok(TokenV::BinOp(BinOpKind::Sub), 1)
    } else if b == 42 {
        Scan::Tok(TokenV::BinOp(BinOpKind::Mul), 1)
    } else if b == 47 {
        Scan::Tok(TokenV::BinOp(BinOpKind::Div), 1)
    } else if b == 61 {
        if nx == 61 {
            Scan::Tok(TokenV::BinOp(BinOpKind::Eq), 2)
        } else {
            Scan::Tok(TokenV::Punct(Punct::Eq), 1)
        }
    } else if b == 33 && nx == 61 {
        Scan::Tok(TokenV::BinOp(BinOpKind::Ne), 2)
    } else if b == 38 && nx == 38 {
        Scan::Tok(TokenV::BinOp(BinOpKind::And), 2)
    } else if b == 124 && nx == 124 {
        Scan::Tok(TokenV::BinOp(BinOpKind::Or), 2)
    } else if b == 62 {
        if nx == 61 {
            Scan::Tok(TokenV::BinOp(BinOpKind::Ge), 2)
        } else {
            Scan::Tok(TokenV::BinOp(BinOpKind::Gt), 1)
        }
    } else if b == 60 {
        if nx == 61 {
            Scan::Tok(TokenV::BinOp(BinOpKind::Le), 2)
        } else {
            Scan::Tok(TokenV::BinOp(BinOpKind::Lt), 1)
        }
    } else if b == 44 {
        Scan::Tok(TokenV::Punct(Punct::Comma), 1)
    } else if b == 59 {
        Scan::Tok(TokenV::Punct(Punct::Semicolon), 1)
    } else if b == 40 {
        Scan::Tok(TokenV::Punct(Punct::OpenParen), 1)
    } else if b == 41 {
        Scan::Tok(TokenV::Punct(Punct::CloseParen), 1)
    } else if b == 123 {
        Scan::Tok(TokenV::Punct(Punct::OpenCurly), 1)
    } else if b == 125 {
        Scan::Tok(TokenV::Punct(Punct::CloseCurly), 1)
    } else if b == 58 {
        Scan::Tok(TokenV::Punct(Punct::Colon), 1)
    } else if is_alpha(b) {
        let e = alnum_end(src, p + 1);
        let w = src.subrange(p, e);
        match keyword_of(w) {
            Some(k) => Scan::Tok(TokenV::Keyword(k), e - p),
            None => Scan::Tok(TokenV::Ident(w), e - p),
        }
    } else if is_digit(b) {
        let e = digit_end(src, p + 1);
        let v = digits_value(src.subrange(p, e));
        if v <= i32::MAX {
            Scan::Tok(TokenV::Number(v), e - p)
        } else {
            Scan::Bad(LexErrorKind::InvalidNumber)
        }
    } else if b == 34 {
        let e = strlit_end(src, p + 1);
        if e < src.len() && src[e] == 34 {
            Scan::Tok(TokenV::StrLit(src.subrange(p + 1, e)), e + 1 - p)
        } else {
            Scan::Bad(LexErrorKind::UnterminatedString)
        }
    } else {
        Scan::Bad(LexErrorKind::UndefinedToken)
    }
}

/// The outcome of reading one token from position `pos`.
pub enum Step {
    /// Only whitespace is left.
    End,
    /// A token that starts at `start` and ends before `end`.
    Tok(TokenV, int, int),
    /// The bytes at `at` form no token.
    Bad(LexErrorKind, int),
}

pub open spec fn step(src: Seq<u8>, pos: int) -> Step {
    let s = skip_ws(src, pos);
    if s >= src.len() {
        Step::End
    } else {
        match scan(src, s) {
            Scan::Tok(t, n) => Step::Tok(t, s, s + n),
            Scan::Bad(k) => Step::Bad(k, s),
        }
    }
}

/// The position from which reading goes on after one step from `pos`.
pub open spec fn step_pos(src: Seq<u8>, pos: int) -> int {
    match step(src, pos) {
        Step::Tok(_, _, e) => e,
        _ => skip_ws(src, pos),
    }
}

/// The 1-based row and column of position `p`.
pub open spec fn loc_at(src: Seq<u8>, p: int) -> (int, int)
    decreases p,
{
    if p <= 0 {
        (1, 1)
    } else {
        let (r, c) = loc_at(src, p - 1);
        if src[p - 1] == 10 {
            (r + 1, 1)
        } else {
            (r, c + 1)
        }
    }
}

pub open spec fn loc_is(l: Loc, src: Seq<u8>, p: int) -> bool {
    l.row as int == loc_at(src, p).0 && l.col as int == loc_at(src, p).1
}

/// What reading one token from `pos` owes: the token, the end, or the lexical error with
/// the location of the bytes that form no token.
pub open spec fn reads(r: Result<Option<Token>, CompileError>, src: Seq<u8>, pos: int) -> bool {
    match step(src, pos) {
        Step::End => r == Ok::<Option<Token>, CompileError>(None),
        Step::Tok(t, _, _) => r is Ok && r->Ok_0 is Some && r->Ok_0->Some_0@ == t,
        Step::Bad(k, at) => r is Err && r->Err_0.kind == ErrorKind::Lexical(k) && loc_is(
            r->Err_0.loc,
            src,
            at,
        ),
    }
}

/// Where a token read from `pos` starts, or where the source ends.
pub open spec fn token_start(src: Seq<u8>, pos: int) -> int {
    skip_ws(src, pos)
}

pub proof fn lemma_loc_bounds(src: Seq<u8>, p: int)
    requires
        0 <= p,
    ensures
        1 <= loc_at(src, p).0 <= p + 1,
        1 <= loc_at(src, p).1 <= p + 1,
    decreases p,
{
    if p > 0 {
        lemma_loc_bounds(src, p - 1);
    }
}

proof fn lemma_loc_no_newline(src: Seq<u8>, s: int, e: int)
    requires
        0 <= s <= e <= src.len(),
        forall|q: int| s <= q < e ==> src[q] != 10,
    ensures
        loc_at(src, e) == (loc_at(src, s).0, loc_at(src, s).1 + (e - s)),
    decreases e - s,
{
    if e > s {
        lemma_loc_no_newline(src, s, e - 1);
    }
}

proof fn lemma_skip_ws_bounds(src: Seq<u8>, p: int)
    requires
        0 <= p <= src.len(),
    ensures
        p <= skip_ws(src, p) <= src.len(),
        skip_ws(src, p) < src.len() ==> !is_ws(src[skip_ws(src, p)]),
    decreases src.len() - p,
{
    if p < src.len() && is_ws(src[p]) {
        lemma_skip_ws_bounds(src, p + 1);
    }
}

proof fn lemma_digits_value_nonneg(s: Seq<u8>)
    requires
        forall|q: int| 0 <= q < s.len() ==> is_digit(s[q]),
    ensures
        digits_value(s) >= 0,
    decreases s.len(),
{
    if s.len() > 0 {
        lemma_digits_value_nonneg(s.drop_last());
    }
}

proof fn lemma_alnum_run(src: Seq<u8>, p: int)
    requires
        0 <= p <= src.len(),
    ensures
        p <= alnum_end(src, p) <= src.len(),
        forall|q: int| p <= q < alnum_end(src, p) ==> is_alnum(#[trigger] src[q]),
    decreases src.len() - p,
{
    if p < src.len() && is_alnum(src[p]) {
        lemma_alnum_run(src, p + 1);
    }
}

proof fn lemma_digit_run(src: Seq<u8>, p: int)
    requires
        0 <= p <= src.len(),
    ensures
        p <= digit_end(src, p) <= src.len(),
        forall|q: int| p <= q < digit_end(src, p) ==> is_digit(#[trigger] src[q]),
    decreases src.len() - p,
{
    if p < src.len() && is_digit(src[p]) {
        lemma_digit_run(src, p + 1);
    }
}

proof fn lemma_strlit_run(src: Seq<u8>, p: int)
    requires
        0 <= p <= src.len(),
    ensures
        p <= strlit_end(src, p) <= src.len(),
        forall|q: int| p <= q < strlit_end(src, p) ==> !ends_strlit(#[trigger] src[q]),
    decreases src.len() - p,
{
    if p < src.len() && !ends_strlit(src[p]) {
        lemma_strlit_run(src, p + 1);
    }
}

/// A token takes at least one byte, ends within the source, and holds no line break.
proof fn lemma_scan_span(src: Seq<u8>, s: int)
    requires
        0 <= s < src.len(),
    ensures
        scan(src, s) matches Scan::Tok(_, n) ==> 1 <= n && s + n <= src.len() && forall|q: int|
            s <= q < s + n ==> #[trigger] src[q] != 10,
{
    lemma_alnum_run(src, s + 1);
    lemma_digit_run(src, s + 1);
    lemma_strlit_run(src, s + 1);
}

/// The token read from `pos` starts after it and ends after its start.
pub proof fn lemma_step_bounds(src: Seq<u8>, pos: int)
    requires
        0 <= pos <= src.len(),
    ensures
        pos <= skip_ws(src, pos) <= step_pos(src, pos) <= src.len(),
        step(src, pos) matches Step::Tok(_, s, e) ==> s == skip_ws(src, pos) && s < e
            == step_pos(src, pos),
{
    lemma_skip_ws_bounds(src, pos);
    if skip_ws(src, pos) < src.len() {
        lemma_scan_span(src, skip_ws(src, pos));
    }
}

/// The two-character operators read as one token each, never as two: `==` is one `Eq`
/// operator and not two `=` punctuators, and so for `!=`, `&&`, `||`, `>=` and `<=`.
pub proof fn law_two_char_ops_unsplit(src: Seq<u8>, p: int)
    requires
        0 <= p,
        p + 1 < src.len(),
    ensures
        src[p] == 61 && src[p + 1] == 61 ==> scan(src, p) == Scan::Tok(TokenV::BinOp(BinOpKind::Eq), 2),
        src[p] == 33 && src[p + 1] == 61 ==> scan(src, p) == Scan::Tok(TokenV::BinOp(BinOpKind::Ne), 2),
        src[p] == 38 && src[p + 1] == 38 ==> scan(src, p) == Scan::Tok(TokenV::BinOp(BinOpKind::And), 2),
        src[p] == 124 && src[p + 1] == 124 ==> scan(src, p) == Scan::Tok(TokenV::BinOp(BinOpKind::Or), 2),
        src[p] == 62 && src[p + 1] == 61 ==> scan(src, p) == Scan::Tok(TokenV::BinOp(BinOpKind::Ge), 2),
        src[p] == 60 && src[p + 1] == 61 ==> scan(src, p) == Scan::Tok(TokenV::BinOp(BinOpKind::Le), 2),
{
}

/// Skipping whitespace twice skips no more than once.
pub proof fn lemma_skip_ws_idem(src: Seq<u8>, p: int)
    requires
        0 <= p <= src.len(),
    ensures
        skip_ws(src, skip_ws(src, p)) == skip_ws(src, p),
    decreases src.len() - p,
{
    if p < src.len() && is_ws(src[p]) {
        lemma_skip_ws_idem(src, p + 1);
    }
}

/// Two reads from one position agree: both reach the end, or both give the same token.
pub proof fn law_reads_agree(
    r1: Result<Option<Token>, CompileError>,
    r2: Result<Option<Token>, CompileError>,
    src: Seq<u8>,
    pos: int,
)
    requires
        reads(r1, src, pos),
        reads(r2, src, pos),
    ensures
        r1 is Ok <==> r2 is Ok,
        r1 is Ok ==> (r1->Ok_0 is Some <==> r2->Ok_0 is Some),
        r1 matches Ok(Some(t1)) ==> r2 matches Ok(Some(t2)) && t1@ == t2@,
        r1 is Err ==> r1 == r2,
{
}

fn byte_is_ws(b: u8) -> (r: bool)
    ensures
        r == is_ws(b),
{
    b == 9 || b == 10 || b == 13 || b == 32
}

fn byte_is_alpha(b: u8) -> (r: bool)
    ensures
        r == is_alpha(b),
{
    (65 <= b && b <= 90) || (97 <= b && b <= 122)
}

fn byte_is_digit(b: u8) -> (r: bool)
    ensures
        r == is_digit(b),
{
    48 <= b && b <= 57
}

fn keyword_at(src: &Vec<u8>, s: usize, e: usize) -> (r: Option<Keyword>)
    requires
        s <= e <= src@.len(),
    ensures
        r == keyword_of(src@.subrange(s as int, e as int)),
{
    let ghost w = src@.subrange(s as int, e as int);
    let n = e - s;
    if n == 2 && src[s] == 105 && src[s + 1] == 102 {
        Some(Keyword::If)
    } else if n == 2 && src[s] == 102 && src[s + 1] == 110 {
        Some(Keyword::Fn)
    } else if n == 6 && src[s] == 114 && src[s + 1] == 101 && src[s + 2] == 116 && src[s + 3]
        == 117 && src[s + 4] == 114 && src[s + 5] == 110 {
        Some(Keyword::Return)
    } else if n == 4 && src[s] == 101 && src[s + 1] == 108 && src[s + 2] == 115 && src[s + 3]
        == 101 {
        Some(Keyword::Else)
    } else if n == 3 && src[s] == 102 && src[s + 1] == 111 && src[s + 2] == 114 {
        Some(Keyword::For)
    } else if n == 3 && src[s] == 105 && src[s + 1] == 110 && src[s + 2] == 116 {
        Some(Keyword::Int)
    } else {
        None
    }
}

fn copy_range(src: &Vec<u8>, s: usize, e: usize) -> (r: Vec<u8>)
    requires
        s <= e <= src@.len(),
    ensures
        r@ == src@.subrange(s as int, e as int),
{
    let part = vstd::slice::slice_subrange(src.as_slice(), s, e);
    vstd::slice::slice_to_vec(part)
}

/// Reads one token at a time from a byte slice, with one token of lookahead.
#[derive(Debug)]
pub struct Lexer {
    /// The location of the token read last, or of the end of the source.
    pub loc: Loc,
    src: Vec<u8>,
    pos: usize,
    here: Loc,
    peeked: Option<(Token, usize, usize)>,
}

impl Lexer {
    /// The bytes being read.
    pub closed spec fn source(&self) -> Seq<u8> {
        self.src@
    }

    /// The read position lies within the source, and so does the token read from it.
    pub proof fn lemma_bounds(&self)
        requires
            self.wf(),
        ensures
            0 <= self.position() <= self.source().len(),
            self.position() <= skip_ws(self.source(), self.position()) <= step_pos(
                self.source(),
                self.position(),
            ) <= self.source().len(),
            step(self.source(), self.position()) matches Step::Tok(_, s, e) ==> s == skip_ws(
                self.source(),
                self.position(),
            ) && self.position() <= s < e == step_pos(self.source(), self.position()),
    {
        lemma_step_bounds(self.src@, self.pos as int);
    }

    /// The location of the token read last.
    pub closed spec fn cur_loc(&self) -> Loc {
        self.loc
    }

    /// The position from which the next token is read.
    pub closed spec fn position(&self) -> int {
        self.pos as int
    }

    pub closed spec fn wf(&self) -> bool {
        &&& self.src@.len() < usize::MAX
        &&& self.pos <= self.src@.len()
        &&& loc_is(self.here, self.src@, self.pos as int)
        &&& match self.peeked {
            Some((t, s, e)) => step(self.src@, self.pos as int) == Step::Tok(t@, s as int, e as int)
                && loc_is(self.loc, self.src@, s as int),
            None => true,
        }
    }

    pub fn new(src: &[u8]) -> (r: Lexer)
        requires
            src@.len() < usize::MAX,
        ensures
            r.wf(),
            r.source() == src@,
            r.position() == 0,
            r.cur_loc() == (Loc { row: 1, col: 1 }),
    {
        Lexer {
            loc: Loc { row: 1, col: 1 },
            src: vstd::slice::slice_to_vec(src),
            pos: 0,
            here: Loc { row: 1, col: 1 },
            peeked: None,
        }
    }

    /// The first position at or after `pos` without whitespace, and its location.
    fn skip_whitespace(&self) -> (r: (usize, Loc))
        requires
            self.wf(),
        ensures
            r.0 as int == skip_ws(self.src@, self.pos as int),
            loc_is(r.1, self.src@, r.0 as int),
            r.0 <= self.src@.len(),
    {
        let mut i = self.pos;
        let mut l = self.here;
        while i < self.src.len() && byte_is_ws(self.src[i])
            invariant
                self.wf(),
                self.pos <= i <= self.src@.len(),
                loc_is(l, self.src@, i as int),
                skip_ws(self.src@, i as int) == skip_ws(self.src@, self.pos as int),
            decreases self.src@.len() - i,
        {
            proof {
                lemma_loc_bounds(self.src@, i as int);
            }
            if self.src[i] == 10 {
                l = Loc { row: l.row + 1, col: 1 };
            } else {
                l = Loc { row: l.row, col: l.col + 1 };
            }
            i = i + 1;
        }
        (i, l)
    }

    /// The token at `p`, a position without whitespace, and where it ends.
    fn scan_at(&self, p: usize) -> (r: Result<(Token, usize), LexErrorKind>)
        requires
            self.wf(),
            p < self.src@.len(),
        ensures
            match scan(self.src@, p as int) {
                Scan::Tok(t, n) => r is Ok && r->Ok_0.0@ == t && r->Ok_0.1 == p + n,
                Scan::Bad(k) => r == Err::<(Token, usize), LexErrorKind>(k),
            },
    {
        let src = &self.src;
        let b = src[p];
        let nx: u8 = if p + 1 < src.len() {
            src[p + 1]
        } else {
            0
        };
        if b == 43 {
            Ok((Token::BinOp(BinOpKind::Add), p + 1))
        } else if b == 45 {
            Ok((Token::BinOp(BinOpKind::Sub), p + 1))
        } else if b == 42 {
            Ok((Token::BinOp(BinOpKind::Mul), p + 1))
        } else if b == 47 {
            Ok((Token::BinOp(BinOpKind::Div), p + 1))
        } else if b == 61 {
            if nx == 61 {
                Ok((Token::BinOp(BinOpKind::Eq), p + 2))
            } else {
                Ok((Token::Punct(Punct::Eq), p + 1))
            }
        } else if b == 33 && nx == 61 {
            Ok((Token::BinOp(BinOpKind::Ne), p + 2))
        } else if b == 38 && nx == 38 {
            Ok((Token::BinOp(BinOpKind::And), p + 2))
        } else if b == 124 && nx == 124 {
            Ok((Token::BinOp(BinOpKind::Or), p + 2))
        } else if b == 62 {
            if nx == 61 {
                Ok((Token::BinOp(BinOpKind::Ge), p + 2))
            } else {
                Ok((Token::BinOp(BinOpKind::Gt), p + 1))
            }
        } else if b == 60 {
            if nx == 61 {
                Ok((Token::BinOp(BinOpKind::Le), p + 2))
            } else {
                Ok((Token::BinOp(BinOpKind::Lt), p + 1))
            }
        } else if b == 44 {
            Ok((Token::Punct(Punct::Comma), p + 1))
        } else if b == 59 {
            Ok((Token::Punct(Punct::Semicolon), p + 1))
        } else if b == 40 {
            Ok((Token::Punct(Punct::OpenParen), p + 1))
        } else if b == 41 {
            Ok((Token::Punct(Punct::CloseParen), p + 1))
        } else if b == 123 {
            Ok((Token::Punct(Punct::OpenCurly), p + 1))
        } else if b == 125 {
            Ok((Token::Punct(Punct::CloseCurly), p + 1))
        } else if b == 58 {
            Ok((Token::Punct(Punct::Colon), p + 1))
        } else if byte_is_alpha(b) {
            self.ident_or_keyword(p)
        } else if byte_is_digit(b) {
            self.number(p)
        } else if b == 34 {
            self.string_literal(p)
        } else {
            Err(LexErrorKind::UndefinedToken)
        }
    }

    fn ident_or_keyword(&self, p: usize) -> (r: Result<(Token, usize), LexErrorKind>)
        requires
            self.wf(),
            p < self.src@.len(),
        ensures
            ({
                let e = alnum_end(self.src@, p + 1);
                let w = self.src@.subrange(p as int, e);
                match keyword_of(w) {
                    Some(k) => r is Ok && r->Ok_0.0@ == TokenV::Keyword(k) && r->Ok_0.1 == e,
                    None => r is Ok && r->Ok_0.0@ == TokenV::Ident(w) && r->Ok_0.1 == e,
                }
            }),
    {
        let src = &self.src;
        let mut i = p + 1;
        while i < src.len() && (byte_is_alpha(src[i]) || byte_is_digit(src[i]))
            invariant
                p < i <= src@.len(),
                alnum_end(src@, i as int) == alnum_end(src@, p + 1),
            decreases src@.len() - i,
        {
            i = i + 1;
        }
        match keyword_at(src, p, i) {
            Some(k) => Ok((Token::Keyword(k), i)),
            None => Ok((Token::Ident(copy_range(src, p, i)), i)),
        }
    }

    fn number(&self, p: usize) -> (r: Result<(Token, usize), LexErrorKind>)
        requires
            self.wf(),
            p < self.src@.len(),
            is_digit(self.src@[p as int]),
        ensures
            ({
                let e = digit_end(self.src@, p + 1);
                let v = digits_value(self.src@.subrange(p as int, e));
                if v <= i32::MAX {
                    r is Ok && r->Ok_0.0@ == TokenV::Number(v) && r->Ok_0.1 == e
                } else {
                    r == Err::<(Token, usize), LexErrorKind>(LexErrorKind::InvalidNumber)
                }
            }),
    {
        let src = &self.src;
        let mut i = p + 1;
        let mut acc: i32 = (src[p] - 48) as i32;
        let mut big = false;
        proof {
            let s1 = src@.subrange(p as int, p + 1);
            assert(s1.drop_last() =~= Seq::<u8>::empty());
            assert(digits_value(s1.drop_last()) == 0);
            assert(s1.last() == src@[p as int]);
        }
        while i < src.len() && byte_is_digit(src[i])
            invariant
                p < i <= src@.len(),
                digit_end(src@, i as int) == digit_end(src@, p + 1),
                forall|q: int| p <= q < i ==> is_digit(src@[q]),
                !big ==> acc as int == digits_value(src@.subrange(p as int, i as int)),
                big ==> digits_value(src@.subrange(p as int, i as int)) > i32::MAX,
            decreases src@.len() - i,
        {
            let d = (src[i] - 48) as i32;
            let ghost s0 = src@.subrange(p as int, i as int);
            let ghost s1 = src@.subrange(p as int, i + 1);
            proof {
                assert(s1.drop_last() =~= s0);
                assert(s1.last() == src@[i as int]);
                lemma_digits_value_nonneg(s0);
                let v0 = digits_value(s0);
                assert(v0 * 10 >= v0) by (nonlinear_arith)
                    requires
                        v0 >= 0,
                ;
            }
            if !big {
                if acc > (i32::MAX - d) / 10 {
                    big = true;
                } else {
                    acc = acc * 10 + d;
                }
            }
            i = i + 1;
        }
        if big {
            Err(LexErrorKind::InvalidNumber)
        } else {
            Ok((Token::Number(acc), i))
        }
    }

    fn string_literal(&self, p: usize) -> (r: Result<(Token, usize), LexErrorKind>)
        requires
            self.wf(),
            p < self.src@.len(),
        ensures
            ({
                let e = strlit_end(self.src@, p + 1);
                if e < self.src@.len() && self.src@[e] == 34 {
                    r is Ok && r->Ok_0.0@ == TokenV::StrLit(self.src@.subrange(p + 1, e))
                        && r->Ok_0.1 == e + 1
                } else {
                    r == Err::<(Token, usize), LexErrorKind>(LexErrorKind::UnterminatedString)
                }
            }),
    {
        let src = &self.src;
        let mut i = p + 1;
        while i < src.len() && !(src[i] == 34 || src[i] == 39 || src[i] == 10 || src[i] == 13)
            invariant
                p < i <= src@.len(),
                strlit_end(src@, i as int) == strlit_end(src@, p + 1),
            decreases src@.len() - i,
        {
            i = i + 1;
        }
        if i < src.len() && src[i] == 34 {
            Ok((Token::StrLit(copy_range(src, p + 1, i)), i + 1))
        } else {
            Err(LexErrorKind::UnterminatedString)
        }
    }
    /// Fills the lookahead with the token at the read position, where there is one.
    fn fill(&mut self) -> (r: Result<(), CompileError>)
        requires
            old(self).wf(),
        ensures
            final(self).wf(),
            final(self).src == old(self).src,
            final(self).pos == old(self).pos,
            final(self).here == old(self).here,
            match step(old(self).src@, old(self).pos as int) {
                Step::End => r is Ok && final(self).peeked is None && loc_is(
                    final(self).loc,
                    old(self).src@,
                    skip_ws(old(self).src@, old(self).pos as int),
                ),
                Step::Tok(_, _, _) => r is Ok && final(self).peeked is Some,
                Step::Bad(k, at) => r is Err && r->Err_0.kind == ErrorKind::Lexical(k) && loc_is(
                    r->Err_0.loc,
                    old(self).src@,
                    at,
                ),
            },
    {
        if self.peeked.is_some() {
            return Ok(());
        }
        let (s, l) = self.skip_whitespace();
        self.loc = l;
        if s >= self.src.len() {
            return Ok(());
        }
        match self.scan_at(s) {
            Ok((t, e)) => {
                self.peeked = Some((t, s, e));
                Ok(())
            },
            Err(k) => Err(CompileError { loc: l, kind: ErrorKind::Lexical(k) }),
        }
    }

    /// The next token, left unread: reading again gives it again.
    pub fn peek_any(&mut self) -> (r: Result<Option<Token>, CompileError>)
        requires
            old(self).wf(),
        ensures
            final(self).wf(),
            final(self).source() == old(self).source(),
            final(self).position() <= final(self).source().len(),
            final(self).position() == old(self).position(),
            reads(r, old(self).source(), old(self).position()),
            r is Ok ==> loc_is(
                final(self).cur_loc(),
                old(self).source(),
                token_start(old(self).source(), old(self).position()),
            ),
    {
        let f = self.fill();
        match f {
            Err(e) => Err(e),
            Ok(()) => match &self.peeked {
                Some((t, _, _)) => Ok(Some(t.duplicate())),
                None => Ok(None),
            },
        }
    }

    /// The next token, consumed; `None` at the end of the source.
    pub fn next_any(&mut self) -> (r: Result<Option<Token>, CompileError>)
        requires
            old(self).wf(),
        ensures
            final(self).wf(),
            final(self).source() == old(self).source(),
            final(self).position() <= final(self).source().len(),
            reads(r, old(self).source(), old(self).position()),
            final(self).position() >= old(self).position(),
            r matches Ok(Some(_)) ==> final(self).position() > old(self).position(),
            r is Ok ==> final(self).position() == step_pos(old(self).source(), old(self).position()),
            r is Ok ==> loc_is(
                final(self).cur_loc(),
                old(self).source(),
                token_start(old(self).source(), old(self).position()),
            ),
    {
        proof {
            lemma_step_bounds(self.src@, self.pos as int);
        }
        let f = self.fill();
        match f {
            Err(e) => {
                return Err(e);
            },
            Ok(()) => {},
        }
        match self.peeked.take() {
            Some((t, s, e)) => {
                proof {
                    lemma_scan_span(self.src@, s as int);
                    lemma_loc_no_newline(self.src@, s as int, e as int);
                    lemma_loc_bounds(self.src@, e as int);
                }
                self.pos = e;
                self.here = Loc { row: self.loc.row, col: self.loc.col + (e - s) };
                Ok(Some(t))
            },
            None => {
                let (s, l) = self.skip_whitespace();
                self.pos = s;
                self.here = l;
                Ok(None)
            },
        }
    }

    /// The location of the token read last, or of the end of the source.
    pub fn current_loc(&self) -> (r: Loc)
        ensures
            r == self.cur_loc(),
    {
        self.loc
    }

    /// The error for a token that the grammar does not allow where it stands.
    pub fn unexpected_token_err(&self, token: Token) -> (e: CompileError)
        ensures
            e == (CompileError { loc: self.cur_loc(), kind: ErrorKind::UnexpectedToken(token) }),
    {
        CompileError { loc: self.loc, kind: ErrorKind::UnexpectedToken(token) }
    }

    /// The next token, consumed; an error at the end of the source.
    pub fn expect_any(&mut self) -> (r: Result<Token, CompileError>)
        requires
            old(self).wf(),
        ensures
            final(self).wf(),
            final(self).source() == old(self).source(),
            final(self).position() <= final(self).source().len(),
            final(self).position() >= old(self).position(),
            r is Ok ==> final(self).position() > old(self).position(),
            r is Ok ==> loc_is(
                final(self).cur_loc(),
                old(self).source(),
                token_start(old(self).source(), old(self).position()),
            ),
            match step(old(self).source(), old(self).position()) {
                Step::Tok(t, _, e) => r is Ok && r->Ok_0@ == t && final(self).position() == e,
                Step::End => r is Err && r->Err_0.kind == ErrorKind::UnexpectedEnd,
                Step::Bad(k, _) => r is Err && r->Err_0.kind == ErrorKind::Lexical(k),
            },
    {
        proof {
            lemma_step_bounds(self.src@, self.pos as int);
        }
        let n = self.next_any();
        match n {
            Ok(Some(t)) => Ok(t),
            Ok(None) => Err(CompileError { loc: self.loc, kind: ErrorKind::UnexpectedEnd }),
            Err(e) => Err(e),
        }
    }

    /// The next token, left unread; an error at the end of the source.
    pub fn expect_peek_any(&mut self) -> (r: Result<Token, CompileError>)
        requires
            old(self).wf(),
        ensures
            final(self).wf(),
            final(self).source() == old(self).source(),
            final(self).position() <= final(self).source().len(),
            final(self).position() == old(self).position(),
            match step(old(self).source(), old(self).position()) {
                Step::Tok(t, _, _) => r is Ok && r->Ok_0@ == t,
                Step::End => r is Err && r->Err_0.kind == ErrorKind::UnexpectedEnd,
                Step::Bad(k, _) => r is Err && r->Err_0.kind == ErrorKind::Lexical(k),
            },
    {
        let n = self.peek_any();
        match n {
            Ok(Some(t)) => Ok(t),
            Ok(None) => Err(CompileError { loc: self.loc, kind: ErrorKind::UnexpectedEnd }),
            Err(e) => Err(e),
        }
    }

    /// Consumes the next token, which must be an identifier, and returns its name.
    pub fn expect_ident(&mut self) -> (r: Result<Vec<u8>, CompileError>)
        requires
            old(self).wf(),
        ensures
            final(self).wf(),
            final(self).source() == old(self).source(),
            final(self).position() <= final(self).source().len(),
            final(self).position() >= old(self).position(),
            r is Ok ==> final(self).position() > old(self).position(),
            match step(old(self).source(), old(self).position()) {
                Step::Tok(TokenV::Ident(w), _, e) => r is Ok && r->Ok_0@ == w
                    && final(self).position() == e,
                Step::Tok(t, _, _) => r is Err && (r->Err_0.kind matches ErrorKind::UnexpectedToken(u)
                    && u@ == t),
                Step::End => r is Err && r->Err_0.kind == ErrorKind::UnexpectedEnd,
                Step::Bad(k, _) => r is Err && r->Err_0.kind == ErrorKind::Lexical(k),
            },
    {
        proof {
            lemma_step_bounds(self.src@, self.pos as int);
        }
        let t = self.expect_any();
        match t {
            Ok(Token::Ident(w)) => Ok(w),
            Ok(other) => Err(self.unexpected_token_err(other)),
            Err(e) => Err(e),
        }
    }

    /// Consumes the next token, which must be the punctuator `expected`.
    pub fn expect_punct(&mut self, expected: Punct) -> (r: Result<(), CompileError>)
        requires
            old(self).wf(),
        ensures
            final(self).wf(),
            final(self).source() == old(self).source(),
            final(self).position() <= final(self).source().len(),
            final(self).position() >= old(self).position(),
            r is Ok ==> final(self).position() > old(self).position(),
            match step(old(self).source(), old(self).position()) {
                Step::Tok(t, _, e) => if t == TokenV::Punct(expected) {
                    r is Ok && final(self).position() == e
                } else {
                    r is Err && (r->Err_0.kind matches ErrorKind::UnexpectedToken(u) && u@ == t)
                },
                Step::End => r is Err && r->Err_0.kind == ErrorKind::UnexpectedEnd,
                Step::Bad(k, _) => r is Err && r->Err_0.kind == ErrorKind::Lexical(k),
            },
    {
        proof {
            lemma_step_bounds(self.src@, self.pos as int);
        }
        let t = self.expect_any();
        match t {
            Ok(tok) => {
                if tok.is_punct(expected) {
                    Ok(())
                } else {
                    Err(self.unexpected_token_err(tok))
                }
            },
            Err(e) => Err(e),
        }
    }
} // impl Lexer

} // verus!
