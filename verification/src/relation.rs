//! Relation expressions: propositional formulas over node identifiers.
//!
//! An expression such as `(n-4a7b2c AND n-3f8a1d) IMPLIES n-7c1d3e` is
//! tokenised, then parsed by recursive descent under the grammar
//!
//! ```text
//! expr    → iff
//! iff     → implies (IFF implies)*        left-associative
//! implies → or (IMPLIES implies)?          right-associative
//! or      → and (OR and)*                  left-associative
//! and     → unary (AND unary)*             left-associative
//! unary   → NOT unary | atom
//! atom    → LPAREN expr RPAREN | NODE_ID
//! ```
//!
//! The grammar is stated as spec functions over token sequences; every
//! executable parsing step is proved to compute exactly what they describe.
use vstd::prelude::*;

pub mod laws;

use crate::text::{copy_string, lemma_push_contains, push_char, str_chars, string_from_chars, texts, vec_contains_text};

verus! {

// ── Syntax trees ─────────────────────────────────────────

/// A parsed relation expression.
#[derive(Debug, PartialEq)]
pub enum RelationExpr {
    /// A leaf naming a dependency by its node ID.
    Operand(String),
    /// Logical NOT.
    Not(Box<RelationExpr>),
    /// Logical AND.
    And(Box<RelationExpr>, Box<RelationExpr>),
    /// Logical OR.
    Or(Box<RelationExpr>, Box<RelationExpr>),
    /// Logical implication.
    Implies(Box<RelationExpr>, Box<RelationExpr>),
    /// Logical equivalence.
    Iff(Box<RelationExpr>, Box<RelationExpr>),
}

/// The mathematical value of a relation expression.
pub enum Formula {
    Operand(Seq<char>),
    Not(Box<Formula>),
    And(Box<Formula>, Box<Formula>),
    Or(Box<Formula>, Box<Formula>),
    Implies(Box<Formula>, Box<Formula>),
    Iff(Box<Formula>, Box<Formula>),
}

/// The formula that an expression denotes.
pub open spec fn formula_of(e: RelationExpr) -> Formula
    decreases e,
{
    match e {
        RelationExpr::Operand(s) => Formula::Operand(s@),
        RelationExpr::Not(a) => Formula::Not(Box::new(formula_of(*a))),
        RelationExpr::And(a, b) => Formula::And(Box::new(formula_of(*a)), Box::new(formula_of(*b))),
        RelationExpr::Or(a, b) => Formula::Or(Box::new(formula_of(*a)), Box::new(formula_of(*b))),
        RelationExpr::Implies(a, b) => Formula::Implies(
            Box::new(formula_of(*a)),
            Box::new(formula_of(*b)),
        ),
        RelationExpr::Iff(a, b) => Formula::Iff(Box::new(formula_of(*a)), Box::new(formula_of(*b))),
    }
}

impl View for RelationExpr {
    type V = Formula;

    open spec fn view(&self) -> Formula {
        formula_of(*self)
    }
}

/// The operands of a formula from left to right, repeats included.
pub open spec fn leaves(f: Formula) -> Seq<Seq<char>>
    decreases f,
{
    match f {
        Formula::Operand(s) => seq![s],
        Formula::Not(a) => leaves(*a),
        Formula::And(a, b) => leaves(*a) + leaves(*b),
        Formula::Or(a, b) => leaves(*a) + leaves(*b),
        Formula::Implies(a, b) => leaves(*a) + leaves(*b),
        Formula::Iff(a, b) => leaves(*a) + leaves(*b),
    }
}

/// `s` with each repeated element dropped after its first occurrence.
pub open spec fn dedup(s: Seq<Seq<char>>) -> Seq<Seq<char>>
    decreases s.len(),
{
    if s.len() == 0 {
        Seq::empty()
    } else {
        let d = dedup(s.drop_last());
        if d.contains(s.last()) {
            d
        } else {
            d.push(s.last())
        }
    }
}

// ── Errors ───────────────────────────────────────────────

/// The class of a relation error.
#[derive(Debug, Clone, Copy, PartialEq, Eq)]
pub enum RelationErrorKind {
    UnexpectedToken,
    UnexpectedEnd,
    UnmatchedParen,
    /// Operand in the expression not found in the dependency list.
    UnknownOperand,
    /// Dependency not referenced in the expression.
    MissingOperand,
    EmptyExpression,
}

/// A single error from parsing or validating a relation expression.
#[derive(Debug, Clone, PartialEq)]
pub struct RelationError {
    pub kind: RelationErrorKind,
    /// Position in the trimmed input where the error occurred, if any. It
    /// counts characters; every character before an error position, and
    /// every character of an expression that lexes, is ASCII, so the count
    /// is also a byte offset.
    pub position: Option<usize>,
    pub message: String,
}

/// The mathematical value of a relation error.
pub struct ErrorSpec {
    pub kind: RelationErrorKind,
    pub position: Option<int>,
    pub message: Seq<char>,
}

/// An optional position as an integer.
pub open spec fn opt_pos(p: Option<usize>) -> Option<int> {
    match p {
        Some(x) => Some(x as int),
        None => None,
    }
}

impl View for RelationError {
    type V = ErrorSpec;

    open spec fn view(&self) -> ErrorSpec {
        ErrorSpec { kind: self.kind, position: opt_pos(self.position), message: self.message@ }
    }
}

/// Views of a sequence of errors.
pub open spec fn errors_view(v: Seq<RelationError>) -> Seq<ErrorSpec> {
    v.map_values(|e: RelationError| e@)
}

impl RelationError {
    /// The text shown for this error: the message, followed by the position
    /// when there is one.
    pub fn to_string(&self) -> (r: String)
        ensures
            r@ == (match self.position {
                Some(p) => self.message@ + " (at position "@ + crate::text::decimal(p as nat)
                    + ")"@,
                None => self.message@,
            }),
    {
        let mut r = crate::text::copy_string(&self.message);
        match self.position {
            Some(p) => {
                r.append(" (at position ");
                let d = crate::text::usize_decimal(p);
                r.append(d.as_str());
                r.append(")");
            },
            None => {},
        }
        r
    }
}

// ── Characters ───────────────────────────────────────────

/// ASCII whitespace as `u8::is_ascii_whitespace` defines it.
pub open spec fn is_ascii_ws(c: char) -> bool {
    c == ' ' || c == '\t' || c == '\n' || c == '\x0C' || c == '\r'
}

/// ASCII letters and digits.
pub open spec fn is_ascii_alnum(c: char) -> bool {
    (48 <= (c as u32) <= 57) || (65 <= (c as u32) <= 90) || (97 <= (c as u32) <= 122)
}

/// Characters that may continue a word.
pub open spec fn is_word_char(c: char) -> bool {
    is_ascii_alnum(c) || c == '-' || c == '_'
}

/// Unicode `White_Space`, the set that `str::trim` removes.
pub open spec fn is_unicode_ws(c: char) -> bool {
    let u = c as u32;
    (9 <= u <= 13) || u == 32 || u == 0x85 || u == 0xA0 || u == 0x1680 || (0x2000 <= u <= 0x200A)
        || u == 0x2028 || u == 0x2029 || u == 0x202F || u == 0x205F || u == 0x3000
}

fn ascii_ws(c: char) -> (r: bool)
    ensures
        r == is_ascii_ws(c),
{
    c == ' ' || c == '\t' || c == '\n' || c == '\x0C' || c == '\r'
}

fn ascii_alnum(c: char) -> (r: bool)
    ensures
        r == is_ascii_alnum(c),
{
    let u = c as u32;
    (48 <= u && u <= 57) || (65 <= u && u <= 90) || (97 <= u && u <= 122)
}

fn word_char(c: char) -> (r: bool)
    ensures
        r == is_word_char(c),
{
    ascii_alnum(c) || c == '-' || c == '_'
}

fn unicode_ws(c: char) -> (r: bool)
    ensures
        r == is_unicode_ws(c),
{
    let u = c as u32;
    (9 <= u && u <= 13) || u == 32 || u == 0x85 || u == 0xA0 || u == 0x1680 || (0x2000 <= u && u
        <= 0x200A) || u == 0x2028 || u == 0x2029 || u == 0x202F || u == 0x205F || u == 0x3000
}

/// `s` without leading whitespace.
pub open spec fn trim_front(s: Seq<char>) -> Seq<char>
    decreases s.len(),
{
    if s.len() > 0 && is_unicode_ws(s[0]) {
        trim_front(s.drop_first())
    } else {
        s
    }
}

/// `s` without trailing whitespace.
pub open spec fn trim_back(s: Seq<char>) -> Seq<char>
    decreases s.len(),
{
    if s.len() > 0 && is_unicode_ws(s.last()) {
        trim_back(s.drop_last())
    } else {
        s
    }
}

/// `s` without leading or trailing whitespace.
pub open spec fn trim(s: Seq<char>) -> Seq<char> {
    trim_back(trim_front(s))
}

/// The trimmed characters of `v`.
fn trimmed(v: &Vec<char>) -> (r: Vec<char>)
    ensures
        r@ == trim(v@),
{
    let n = v.len();
    let mut a: usize = 0;
    assert(v@.subrange(0, n as int) =~= v@);
    while a < n && unicode_ws(v[a])
        invariant
            n == v@.len(),
            a <= n,
            trim_front(v@) == trim_front(v@.subrange(a as int, n as int)),
        decreases n - a,
    {
        assert(v@.subrange(a as int, n as int).drop_first() =~= v@.subrange(
            a as int + 1,
            n as int,
        ));
        a = a + 1;
    }
    assert(trim_front(v@) == v@.subrange(a as int, n as int));
    let mut b: usize = n;
    while b > a && unicode_ws(v[b - 1])
        invariant
            n == v@.len(),
            a <= b <= n,
            trim(v@) == trim_back(v@.subrange(a as int, b as int)),
        decreases b,
    {
        assert(v@.subrange(a as int, b as int).drop_last() =~= v@.subrange(
            a as int,
            b as int - 1,
        ));
        b = b - 1;
    }
    let mut r: Vec<char> = Vec::new();
    let mut i = a;
    while i < b
        invariant
            n == v@.len(),
            a <= i <= b <= n,
            r@ == v@.subrange(a as int, i as int),
        decreases b - i,
    {
        r.push(v[i]);
        i = i + 1;
        assert(r@ =~= v@.subrange(a as int, i as int));
    }
    r
}

// ── Tokens ───────────────────────────────────────────────

/// The mathematical value of a token kind.
pub enum Tok {
    LParen,
    RParen,
    And,
    Or,
    Not,
    Implies,
    Iff,
    Id(Seq<char>),
}

/// A token with the index at which it starts.
pub struct TokenSpec {
    pub kind: Tok,
    pub pos: int,
}

#[derive(Debug)]
enum TokenKind {
    LParen,
    RParen,
    And,
    Or,
    Not,
    Implies,
    Iff,
    NodeId(String),
}

#[derive(Debug)]
struct Token {
    kind: TokenKind,
    position: usize,
}

spec fn kind_view(k: TokenKind) -> Tok {
    match k {
        TokenKind::LParen => Tok::LParen,
        TokenKind::RParen => Tok::RParen,
        TokenKind::And => Tok::And,
        TokenKind::Or => Tok::Or,
        TokenKind::Not => Tok::Not,
        TokenKind::Implies => Tok::Implies,
        TokenKind::Iff => Tok::Iff,
        TokenKind::NodeId(s) => Tok::Id(s@),
    }
}

spec fn token_view(t: Token) -> TokenSpec {
    TokenSpec { kind: kind_view(t.kind), pos: t.position as int }
}

spec fn tokens_view(v: Seq<Token>) -> Seq<TokenSpec> {
    v.map_values(|t: Token| token_view(t))
}

/// The token kind that a word stands for: a keyword or a node ID.
pub open spec fn word_kind(w: Seq<char>) -> Tok {
    if w == seq!['A', 'N', 'D'] {
        Tok::And
    } else if w == seq!['O', 'R'] {
        Tok::Or
    } else if w == seq!['N', 'O', 'T'] {
        Tok::Not
    } else if w == seq!['I', 'M', 'P', 'L', 'I', 'E', 'S'] {
        Tok::Implies
    } else if w == seq!['I', 'F', 'F'] {
        Tok::Iff
    } else {
        Tok::Id(w)
    }
}

/// The index just past the word that may start at `i`.
pub open spec fn word_end(s: Seq<char>, i: int) -> int
    decreases s.len() - i,
{
    if 0 <= i < s.len() && is_word_char(s[i]) {
        word_end(s, i + 1)
    } else {
        i
    }
}

/// The message for a character that starts no token.
pub open spec fn unexpected_char_message(c: char) -> Seq<char> {
    "unexpected character '"@ + seq![c] + "'"@
}

/// `t` put before the tokens of `r`, if `r` is a success.
pub open spec fn cons_token(t: TokenSpec, r: Result<Seq<TokenSpec>, ErrorSpec>) -> Result<
    Seq<TokenSpec>,
    ErrorSpec,
> {
    match r {
        Ok(ts) => Ok(seq![t] + ts),
        Err(e) => Err(e),
    }
}

/// The tokens of `s` from index `i` on, or the first lexical error.
pub open spec fn lex_from(s: Seq<char>, i: int) -> Result<Seq<TokenSpec>, ErrorSpec>
    decreases s.len() - i,
{
    if i < 0 || i >= s.len() {
        Ok(Seq::empty())
    } else if is_ascii_ws(s[i]) {
        lex_from(s, i + 1)
    } else if s[i] == '(' {
        cons_token(TokenSpec { kind: Tok::LParen, pos: i }, lex_from(s, i + 1))
    } else if s[i] == ')' {
        cons_token(TokenSpec { kind: Tok::RParen, pos: i }, lex_from(s, i + 1))
    } else if is_ascii_alnum(s[i]) {
        let j = word_end(s, i);
        if i < j <= s.len() {
            cons_token(TokenSpec { kind: word_kind(s.subrange(i, j)), pos: i }, lex_from(s, j))
        } else {
            Ok(Seq::empty())
        }
    } else {
        Err(
            ErrorSpec {
                kind: RelationErrorKind::UnexpectedToken,
                position: Some(i),
                message: unexpected_char_message(s[i]),
            },
        )
    }
}

proof fn lemma_word_end(s: Seq<char>, i: int)
    requires
        0 <= i <= s.len(),
    ensures
        i <= word_end(s, i) <= s.len(),
        forall|k: int| i <= k < word_end(s, i) ==> is_word_char(#[trigger] s[k]),
        word_end(s, i) < s.len() ==> !is_word_char(s[word_end(s, i)]),
    decreases s.len() - i,
{
    if i < s.len() && is_word_char(s[i]) {
        lemma_word_end(s, i + 1);
    }
}

spec fn with_prefix(prefix: Seq<TokenSpec>, r: Result<Seq<TokenSpec>, ErrorSpec>) -> Result<
    Seq<TokenSpec>,
    ErrorSpec,
> {
    match r {
        Ok(ts) => Ok(prefix + ts),
        Err(e) => Err(e),
    }
}

fn word_is(v: &Vec<char>, start: usize, end: usize, kw: &Vec<char>) -> (b: bool)
    requires
        start <= end <= v@.len(),
    ensures
        b == (v@.subrange(start as int, end as int) == kw@),
{
    let ghost w = v@.subrange(start as int, end as int);
    if end - start != kw.len() {
        assert(w.len() != kw@.len());
        return false;
    }
    let mut k: usize = 0;
    while k < kw.len()
        invariant
            start <= end <= v@.len(),
            end - start == kw@.len(),
            w == v@.subrange(start as int, end as int),
            k <= kw@.len(),
            forall|j: int| 0 <= j < k ==> w[j] == kw@[j],
        decreases kw@.len() - k,
    {
        if v[start + k] != kw[k] {
            assert(w[k as int] != kw@[k as int]);
            return false;
        }
        k = k + 1;
    }
    assert(w =~= kw@);
    true
}

fn keyword_or_id(v: &Vec<char>, start: usize, end: usize) -> (k: TokenKind)
    requires
        start <= end <= v@.len(),
    ensures
        kind_view(k) == word_kind(v@.subrange(start as int, end as int)),
{
    let and_kw = vec!['A', 'N', 'D'];
    let or_kw = vec!['O', 'R'];
    let not_kw = vec!['N', 'O', 'T'];
    let implies_kw = vec!['I', 'M', 'P', 'L', 'I', 'E', 'S'];
    let iff_kw = vec!['I', 'F', 'F'];
    assert(and_kw@ =~= seq!['A', 'N', 'D']);
    assert(or_kw@ =~= seq!['O', 'R']);
    assert(not_kw@ =~= seq!['N', 'O', 'T']);
    assert(implies_kw@ =~= seq!['I', 'M', 'P', 'L', 'I', 'E', 'S']);
    assert(iff_kw@ =~= seq!['I', 'F', 'F']);
    if word_is(v, start, end, &and_kw) {
        TokenKind::And
    } else if word_is(v, start, end, &or_kw) {
        TokenKind::Or
    } else if word_is(v, start, end, &not_kw) {
        TokenKind::Not
    } else if word_is(v, start, end, &implies_kw) {
        TokenKind::Implies
    } else if word_is(v, start, end, &iff_kw) {
        TokenKind::Iff
    } else {
        TokenKind::NodeId(string_from_chars(v, start, end))
    }
}

fn unexpected_char_error(c: char, i: usize) -> (e: RelationError)
    ensures
        e@ == (ErrorSpec {
            kind: RelationErrorKind::UnexpectedToken,
            position: Some(i as int),
            message: unexpected_char_message(c),
        }),
{
    let mut m = String::from_str("unexpected character '");
    push_char(&mut m, c);
    m.append("'");
    assert(m@ =~= unexpected_char_message(c));
    RelationError { kind: RelationErrorKind::UnexpectedToken, position: Some(i), message: m }
}

/// Splits `s` into tokens.
fn tokenize(s: &Vec<char>) -> (r: Result<Vec<Token>, RelationError>)
    ensures
        match r {
            Ok(ts) => lex_from(s@, 0) == Ok::<Seq<TokenSpec>, ErrorSpec>(tokens_view(ts@)),
            Err(e) => lex_from(s@, 0) == Err::<Seq<TokenSpec>, ErrorSpec>(e@),
        },
        r matches Ok(ts) ==> forall|k: int| 0 <= k < ts@.len() ==> ts@[k].position < s@.len(),
{
    let n = s.len();
    let mut tokens: Vec<Token> = Vec::new();
    let mut i: usize = 0;
    while i < n
        invariant
            n == s@.len(),
            i <= n,
            lex_from(s@, 0) == with_prefix(tokens_view(tokens@), lex_from(s@, i as int)),
            forall|k: int| 0 <= k < tokens@.len() ==> tokens@[k].position < n,
        decreases n - i,
    {
        let c = s[i];
        let ghost old_tokens = tokens_view(tokens@);
        if ascii_ws(c) {
            i = i + 1;
        } else if c == '(' {
            tokens.push(Token { kind: TokenKind::LParen, position: i });
            assert(tokens_view(tokens@) =~= old_tokens + seq![
                TokenSpec { kind: Tok::LParen, pos: i as int },
            ]);
            assert(with_prefix(tokens_view(tokens@), lex_from(s@, i + 1)) == with_prefix(
                old_tokens,
                lex_from(s@, i as int),
            )) by {
                match lex_from(s@, i + 1) {
                    Ok(ts) => {
                        assert(old_tokens + (seq![TokenSpec { kind: Tok::LParen, pos: i as int }]
                            + ts) =~= tokens_view(tokens@) + ts);
                    },
                    Err(e) => {},
                }
            }
            i = i + 1;
        } else if c == ')' {
            tokens.push(Token { kind: TokenKind::RParen, position: i });
            assert(tokens_view(tokens@) =~= old_tokens + seq![
                TokenSpec { kind: Tok::RParen, pos: i as int },
            ]);
            assert(with_prefix(tokens_view(tokens@), lex_from(s@, i + 1)) == with_prefix(
                old_tokens,
                lex_from(s@, i as int),
            )) by {
                match lex_from(s@, i + 1) {
                    Ok(ts) => {
                        assert(old_tokens + (seq![TokenSpec { kind: Tok::RParen, pos: i as int }]
                            + ts) =~= tokens_view(tokens@) + ts);
                    },
                    Err(e) => {},
                }
            }
            i = i + 1;
        } else if ascii_alnum(c) {
            let start = i;
            proof {
                lemma_word_end(s@, start as int);
            }
            while i < n && word_char(s[i])
                invariant
                    n == s@.len(),
                    start <= i <= n,
                    word_end(s@, start as int) == word_end(s@, i as int),
                decreases n - i,
            {
                i = i + 1;
            }
            assert(word_end(s@, i as int) == i as int);
            let kind = keyword_or_id(s, start, i);
            let ghost t = TokenSpec { kind: kind_view(kind), pos: start as int };
            tokens.push(Token { kind, position: start });
            assert(tokens_view(tokens@) =~= old_tokens + seq![t]);
            assert(with_prefix(tokens_view(tokens@), lex_from(s@, i as int)) == with_prefix(
                old_tokens,
                lex_from(s@, start as int),
            )) by {
                match lex_from(s@, i as int) {
                    Ok(ts) => {
                        assert(old_tokens + (seq![t] + ts) =~= tokens_view(tokens@) + ts);
                    },
                    Err(e) => {},
                }
            }
        } else {
            return Err(unexpected_char_error(c, i));
        }
    }
    assert(tokens_view(tokens@) + Seq::<TokenSpec>::empty() =~= tokens_view(tokens@));
    Ok(tokens)
}

// ── Grammar ──────────────────────────────────────────────

/// Result of parsing a prefix: the formula and the index of the next token.
pub type Parsed = Result<(Formula, int), ErrorSpec>;

/// How a token kind is printed in messages.
pub open spec fn tok_name(k: Tok) -> Seq<char> {
    match k {
        Tok::LParen => "LParen"@,
        Tok::RParen => "RParen"@,
        Tok::And => "And"@,
        Tok::Or => "Or"@,
        Tok::Not => "Not"@,
        Tok::Implies => "Implies"@,
        Tok::Iff => "Iff"@,
        Tok::Id(s) => "NodeId(\""@ + s + "\")"@,
    }
}

/// The error for an expression that ends where an operand is expected.
pub open spec fn end_error(end: int) -> ErrorSpec {
    ErrorSpec {
        kind: RelationErrorKind::UnexpectedEnd,
        position: Some(end),
        message: "unexpected end of expression, expected operand"@,
    }
}

/// The error for a `(` at `pos` that is never closed.
pub open spec fn unmatched_open_error(pos: int) -> ErrorSpec {
    ErrorSpec {
        kind: RelationErrorKind::UnmatchedParen,
        position: Some(pos),
        message: "unmatched opening parenthesis"@,
    }
}

/// The error for token `t` standing where a `)` is expected.
pub open spec fn expected_close_error(t: TokenSpec) -> ErrorSpec {
    ErrorSpec {
        kind: RelationErrorKind::UnmatchedParen,
        position: Some(t.pos),
        message: "expected closing parenthesis, found "@ + tok_name(t.kind),
    }
}

/// The error for token `t` standing where an operand is expected.
pub open spec fn expected_operand_error(t: TokenSpec) -> ErrorSpec {
    ErrorSpec {
        kind: RelationErrorKind::UnexpectedToken,
        position: Some(t.pos),
        message: "expected operand or '(', found "@ + tok_name(t.kind),
    }
}

/// The error for token `t` left over after a complete expression.
pub open spec fn trailing_error(t: TokenSpec) -> ErrorSpec {
    ErrorSpec {
        kind: RelationErrorKind::UnexpectedToken,
        position: Some(t.pos),
        message: "unexpected token after expression: "@ + tok_name(t.kind),
    }
}

/// `expr → iff`
pub open spec fn p_expr(t: Seq<TokenSpec>, pos: int, end: int) -> Parsed
    decreases t.len() - pos, 7int,
{
    p_iff(t, pos, end)
}

/// `iff → implies (IFF implies)*`
pub open spec fn p_iff(t: Seq<TokenSpec>, pos: int, end: int) -> Parsed
    decreases t.len() - pos, 6int,
{
    match p_implies(t, pos, end) {
        Ok((l, p)) => if pos < p <= t.len() {
            iff_rest(t, p, end, l)
        } else {
            Ok((l, p))
        },
        Err(e) => Err(e),
    }
}

/// The `(IFF implies)*` tail after the left operand `l`.
pub open spec fn iff_rest(t: Seq<TokenSpec>, p: int, end: int, l: Formula) -> Parsed
    decreases t.len() - p, 6int,
{
    if 0 <= p < t.len() && t[p].kind is Iff {
        match p_implies(t, p + 1, end) {
            Ok((r, q)) => {
                let f = Formula::Iff(Box::new(l), Box::new(r));
                if p + 1 < q <= t.len() {
                    iff_rest(t, q, end, f)
                } else {
                    Ok((f, q))
                }
            },
            Err(e) => Err(e),
        }
    } else {
        Ok((l, p))
    }
}

/// `implies → or (IMPLIES implies)?`
pub open spec fn p_implies(t: Seq<TokenSpec>, pos: int, end: int) -> Parsed
    decreases t.len() - pos, 5int,
{
    match p_or(t, pos, end) {
        Ok((l, p)) => if pos <= p < t.len() && t[p].kind is Implies {
            match p_implies(t, p + 1, end) {
                Ok((r, q)) => Ok((Formula::Implies(Box::new(l), Box::new(r)), q)),
                Err(e) => Err(e),
            }
        } else {
            Ok((l, p))
        },
        Err(e) => Err(e),
    }
}

/// `or → and (OR and)*`
pub open spec fn p_or(t: Seq<TokenSpec>, pos: int, end: int) -> Parsed
    decreases t.len() - pos, 4int,
{
    match p_and(t, pos, end) {
        Ok((l, p)) => if pos < p <= t.len() {
            or_rest(t, p, end, l)
        } else {
            Ok((l, p))
        },
        Err(e) => Err(e),
    }
}

/// The `(OR and)*` tail after the left operand `l`.
pub open spec fn or_rest(t: Seq<TokenSpec>, p: int, end: int, l: Formula) -> Parsed
    decreases t.len() - p, 4int,
{
    if 0 <= p < t.len() && t[p].kind is Or {
        match p_and(t, p + 1, end) {
            Ok((r, q)) => {
                let f = Formula::Or(Box::new(l), Box::new(r));
                if p + 1 < q <= t.len() {
                    or_rest(t, q, end, f)
                } else {
                    Ok((f, q))
                }
            },
            Err(e) => Err(e),
        }
    } else {
        Ok((l, p))
    }
}

/// `and → unary (AND unary)*`
pub open spec fn p_and(t: Seq<TokenSpec>, pos: int, end: int) -> Parsed
    decreases t.len() - pos, 3int,
{
    match p_unary(t, pos, end) {
        Ok((l, p)) => if pos < p <= t.len() {
            and_rest(t, p, end, l)
        } else {
            Ok((l, p))
        },
        Err(e) => Err(e),
    }
}

/// The `(AND unary)*` tail after the left operand `l`.
pub open spec fn and_rest(t: Seq<TokenSpec>, p: int, end: int, l: Formula) -> Parsed
    decreases t.len() - p, 3int,
{
    if 0 <= p < t.len() && t[p].kind is And {
        match p_unary(t, p + 1, end) {
            Ok((r, q)) => {
                let f = Formula::And(Box::new(l), Box::new(r));
                if p + 1 < q <= t.len() {
                    and_rest(t, q, end, f)
                } else {
                    Ok((f, q))
                }
            },
            Err(e) => Err(e),
        }
    } else {
        Ok((l, p))
    }
}

/// `unary → NOT unary | atom`
pub open spec fn p_unary(t: Seq<TokenSpec>, pos: int, end: int) -> Parsed
    decreases t.len() - pos, 2int,
{
    if 0 <= pos < t.len() && t[pos].kind is Not {
        match p_unary(t, pos + 1, end) {
            Ok((e, p)) => Ok((Formula::Not(Box::new(e)), p)),
            Err(e) => Err(e),
        }
    } else {
        p_atom(t, pos, end)
    }
}

/// `atom → LPAREN expr RPAREN | NODE_ID`
pub open spec fn p_atom(t: Seq<TokenSpec>, pos: int, end: int) -> Parsed
    decreases t.len() - pos, 1int,
{
    if pos < 0 || pos >= t.len() {
        Err(end_error(end))
    } else {
        match t[pos].kind {
            Tok::LParen => match p_expr(t, pos + 1, end) {
                Ok((e, p)) => if p < 0 || p >= t.len() {
                    Err(unmatched_open_error(t[pos].pos))
                } else if t[p].kind is RParen {
                    Ok((e, p + 1))
                } else {
                    Err(expected_close_error(t[p]))
                },
                Err(e) => Err(e),
            },
            Tok::Id(id) => Ok((Formula::Operand(id), pos + 1)),
            _ => Err(expected_operand_error(t[pos])),
        }
    }
}

/// A whole token sequence read as one expression.
pub open spec fn parse_tokens(t: Seq<TokenSpec>, end: int) -> Result<Formula, ErrorSpec> {
    match p_expr(t, 0, end) {
        Ok((e, p)) => if 0 <= p < t.len() {
            Err(trailing_error(t[p]))
        } else {
            Ok(e)
        },
        Err(e) => Err(e),
    }
}

/// The error for an empty expression.
pub open spec fn empty_expression_error() -> ErrorSpec {
    ErrorSpec {
        kind: RelationErrorKind::EmptyExpression,
        position: None,
        message: "relation expression is empty"@,
    }
}

/// What `parse_expression` gives for the characters `s`.
pub open spec fn parse_expression_spec(s: Seq<char>) -> Result<Formula, Seq<ErrorSpec>> {
    let tr = trim(s);
    if tr.len() == 0 {
        Err(seq![empty_expression_error()])
    } else {
        match lex_from(tr, 0) {
            Err(e) => Err(seq![e]),
            Ok(t) => match parse_tokens(t, tr.len() as int) {
                Ok(f) => Ok(f),
                Err(e) => Err(seq![e]),
            },
        }
    }
}

// ── Parser ───────────────────────────────────────────────

struct Parser {
    tokens: Vec<Token>,
    pos: usize,
    input_len: usize,
}

fn token_name(k: &TokenKind) -> (r: String)
    ensures
        r@ == tok_name(kind_view(*k)),
{
    match k {
        TokenKind::LParen => String::from_str("LParen"),
        TokenKind::RParen => String::from_str("RParen"),
        TokenKind::And => String::from_str("And"),
        TokenKind::Or => String::from_str("Or"),
        TokenKind::Not => String::from_str("Not"),
        TokenKind::Implies => String::from_str("Implies"),
        TokenKind::Iff => String::from_str("Iff"),
        TokenKind::NodeId(s) => {
            let mut r = String::from_str("NodeId(\"");
            r.append(s.as_str());
            r.append("\")");
            r
        },
    }
}

fn error_with_token(
    kind: RelationErrorKind,
    prefix: &str,
    t: &Token,
) -> (e: RelationError)
    ensures
        e@ == (ErrorSpec {
            kind,
            position: Some(t.position as int),
            message: prefix@ + tok_name(kind_view(t.kind)),
        }),
{
    let mut m = String::from_str(prefix);
    let name = token_name(&t.kind);
    m.append(name.as_str());
    RelationError { kind, position: Some(t.position), message: m }
}

fn plain_error(kind: RelationErrorKind, position: Option<usize>, text: &str) -> (e: RelationError)
    ensures
        e@ == (ErrorSpec { kind, position: opt_pos(position), message: text@ }),
{
    RelationError { kind, position, message: String::from_str(text) }
}

impl Parser {
    spec fn toks(&self) -> Seq<TokenSpec> {
        tokens_view(self.tokens@)
    }

    spec fn wf(&self) -> bool {
        self.pos <= self.tokens@.len()
    }

    fn at_iff(&self) -> (b: bool)
        ensures
            b == (self.pos < self.tokens@.len() && self.toks()[self.pos as int].kind is Iff),
            b ==> self.pos < self.tokens.len(),
    {
        self.pos < self.tokens.len() && matches!(self.tokens[self.pos].kind, TokenKind::Iff)
    }

    fn at_implies(&self) -> (b: bool)
        ensures
            b == (self.pos < self.tokens@.len() && self.toks()[self.pos as int].kind is Implies),
            b ==> self.pos < self.tokens.len(),
    {
        self.pos < self.tokens.len() && matches!(self.tokens[self.pos].kind, TokenKind::Implies)
    }

    fn at_or(&self) -> (b: bool)
        ensures
            b == (self.pos < self.tokens@.len() && self.toks()[self.pos as int].kind is Or),
            b ==> self.pos < self.tokens.len(),
    {
        self.pos < self.tokens.len() && matches!(self.tokens[self.pos].kind, TokenKind::Or)
    }

    fn at_and(&self) -> (b: bool)
        ensures
            b == (self.pos < self.tokens@.len() && self.toks()[self.pos as int].kind is And),
            b ==> self.pos < self.tokens.len(),
    {
        self.pos < self.tokens.len() && matches!(self.tokens[self.pos].kind, TokenKind::And)
    }

    fn at_not(&self) -> (b: bool)
        ensures
            b == (self.pos < self.tokens@.len() && self.toks()[self.pos as int].kind is Not),
            b ==> self.pos < self.tokens.len(),
    {
        self.pos < self.tokens.len() && matches!(self.tokens[self.pos].kind, TokenKind::Not)
    }

    fn parse_expr(&mut self) -> (r: Result<RelationExpr, RelationError>)
        requires
            old(self).wf(),
        ensures
            final(self).wf(),
            final(self).tokens == old(self).tokens,
            final(self).input_len == old(self).input_len,
            match r {
                Ok(e) => final(self).pos > old(self).pos && p_expr(
                    old(self).toks(),
                    old(self).pos as int,
                    old(self).input_len as int,
                ) == Ok::<(Formula, int), ErrorSpec>((e@, final(self).pos as int)),
                Err(err) => p_expr(
                    old(self).toks(),
                    old(self).pos as int,
                    old(self).input_len as int,
                ) == Err::<(Formula, int), ErrorSpec>(err@),
            },
        decreases old(self).tokens@.len() - old(self).pos, 7int,
    {
        self.parse_iff()
    }

    fn parse_iff(&mut self) -> (r: Result<RelationExpr, RelationError>)
        requires
            old(self).wf(),
        ensures
            final(self).wf(),
            final(self).tokens == old(self).tokens,
            final(self).input_len == old(self).input_len,
            match r {
                Ok(e) => final(self).pos > old(self).pos && p_iff(
                    old(self).toks(),
                    old(self).pos as int,
                    old(self).input_len as int,
                ) == Ok::<(Formula, int), ErrorSpec>((e@, final(self).pos as int)),
                Err(err) => p_iff(
                    old(self).toks(),
                    old(self).pos as int,
                    old(self).input_len as int,
                ) == Err::<(Formula, int), ErrorSpec>(err@),
            },
        decreases old(self).tokens@.len() - old(self).pos, 6int,
    {
        let ghost t = self.toks();
        let ghost pos0 = self.pos as int;
        let ghost end = self.input_len as int;
        let mut left = match self.parse_implies() {
            Ok(l) => l,
            Err(e) => return Err(e),
        };
        let mut more = self.at_iff();
        while more
            invariant
                self.wf(),
                self.tokens == old(self).tokens,
                self.input_len == old(self).input_len,
                pos0 == old(self).pos as int,
                t == tokens_view(old(self).tokens@),
                end == old(self).input_len as int,
                self.toks() == t,
                self.input_len as int == end,
                self.pos > pos0,
                pos0 >= 0,
                t.len() == self.tokens@.len(),
                more ==> self.pos < self.tokens.len(),
                more == (self.pos < self.tokens@.len() && t[self.pos as int].kind is Iff),
                p_iff(t, pos0, end) == iff_rest(t, self.pos as int, end, left@),
            decreases self.tokens@.len() - self.pos,
        {
            self.pos = self.pos + 1;
            let right = match self.parse_implies() {
                Ok(r) => r,
                Err(e) => return Err(e),
            };
            left = RelationExpr::Iff(Box::new(left), Box::new(right));
            more = self.at_iff();
        }
        Ok(left)
    }

    fn parse_implies(&mut self) -> (r: Result<RelationExpr, RelationError>)
        requires
            old(self).wf(),
        ensures
            final(self).wf(),
            final(self).tokens == old(self).tokens,
            final(self).input_len == old(self).input_len,
            match r {
                Ok(e) => final(self).pos > old(self).pos && p_implies(
                    old(self).toks(),
                    old(self).pos as int,
                    old(self).input_len as int,
                ) == Ok::<(Formula, int), ErrorSpec>((e@, final(self).pos as int)),
                Err(err) => p_implies(
                    old(self).toks(),
                    old(self).pos as int,
                    old(self).input_len as int,
                ) == Err::<(Formula, int), ErrorSpec>(err@),
            },
        decreases old(self).tokens@.len() - old(self).pos, 5int,
    {
        let left = match self.parse_or() {
            Ok(l) => l,
            Err(e) => return Err(e),
        };
        if self.at_implies() {
            self.pos = self.pos + 1;
            let right = match self.parse_implies() {
                Ok(r) => r,
                Err(e) => return Err(e),
            };
            Ok(RelationExpr::Implies(Box::new(left), Box::new(right)))
        } else {
            Ok(left)
        }
    }

    fn parse_or(&mut self) -> (r: Result<RelationExpr, RelationError>)
        requires
            old(self).wf(),
        ensures
            final(self).wf(),
            final(self).tokens == old(self).tokens,
            final(self).input_len == old(self).input_len,
            match r {
                Ok(e) => final(self).pos > old(self).pos && p_or(
                    old(self).toks(),
                    old(self).pos as int,
                    old(self).input_len as int,
                ) == Ok::<(Formula, int), ErrorSpec>((e@, final(self).pos as int)),
                Err(err) => p_or(
                    old(self).toks(),
                    old(self).pos as int,
                    old(self).input_len as int,
                ) == Err::<(Formula, int), ErrorSpec>(err@),
            },
        decreases old(self).tokens@.len() - old(self).pos, 4int,
    {
        let ghost t = self.toks();
        let ghost pos0 = self.pos as int;
        let ghost end = self.input_len as int;
        let mut left = match self.parse_and() {
            Ok(l) => l,
            Err(e) => return Err(e),
        };
        let mut more = self.at_or();
        while more
            invariant
                self.wf(),
                self.tokens == old(self).tokens,
                self.input_len == old(self).input_len,
                pos0 == old(self).pos as int,
                t == tokens_view(old(self).tokens@),
                end == old(self).input_len as int,
                self.toks() == t,
                self.input_len as int == end,
                self.pos > pos0,
                pos0 >= 0,
                t.len() == self.tokens@.len(),
                more ==> self.pos < self.tokens.len(),
                more == (self.pos < self.tokens@.len() && t[self.pos as int].kind is Or),
                p_or(t, pos0, end) == or_rest(t, self.pos as int, end, left@),
            decreases self.tokens@.len() - self.pos,
        {
            self.pos = self.pos + 1;
            let right = match self.parse_and() {
                Ok(r) => r,
                Err(e) => return Err(e),
            };
            left = RelationExpr::Or(Box::new(left), Box::new(right));
            more = self.at_or();
        }
        Ok(left)
    }

    fn parse_and(&mut self) -> (r: Result<RelationExpr, RelationError>)
        requires
            old(self).wf(),
        ensures
            final(self).wf(),
            final(self).tokens == old(self).tokens,
            final(self).input_len == old(self).input_len,
            match r {
                Ok(e) => final(self).pos > old(self).pos && p_and(
                    old(self).toks(),
                    old(self).pos as int,
                    old(self).input_len as int,
                ) == Ok::<(Formula, int), ErrorSpec>((e@, final(self).pos as int)),
                Err(err) => p_and(
                    old(self).toks(),
                    old(self).pos as int,
                    old(self).input_len as int,
                ) == Err::<(Formula, int), ErrorSpec>(err@),
            },
        decreases old(self).tokens@.len() - old(self).pos, 3int,
    {
        let ghost t = self.toks();
        let ghost pos0 = self.pos as int;
        let ghost end = self.input_len as int;
        let mut left = match self.parse_unary() {
            Ok(l) => l,
            Err(e) => return Err(e),
        };
        let mut more = self.at_and();
        while more
            invariant
                self.wf(),
                self.tokens == old(self).tokens,
                self.input_len == old(self).input_len,
                pos0 == old(self).pos as int,
                t == tokens_view(old(self).tokens@),
                end == old(self).input_len as int,
                self.toks() == t,
                self.input_len as int == end,
                self.pos > pos0,
                pos0 >= 0,
                t.len() == self.tokens@.len(),
                more ==> self.pos < self.tokens.len(),
                more == (self.pos < self.tokens@.len() && t[self.pos as int].kind is And),
                p_and(t, pos0, end) == and_rest(t, self.pos as int, end, left@),
            decreases self.tokens@.len() - self.pos,
        {
            self.pos = self.pos + 1;
            let right = match self.parse_unary() {
                Ok(r) => r,
                Err(e) => return Err(e),
            };
            left = RelationExpr::And(Box::new(left), Box::new(right));
            more = self.at_and();
        }
        Ok(left)
    }

    fn parse_unary(&mut self) -> (r: Result<RelationExpr, RelationError>)
        requires
            old(self).wf(),
        ensures
            final(self).wf(),
            final(self).tokens == old(self).tokens,
            final(self).input_len == old(self).input_len,
            match r {
                Ok(e) => final(self).pos > old(self).pos && p_unary(
                    old(self).toks(),
                    old(self).pos as int,
                    old(self).input_len as int,
                ) == Ok::<(Formula, int), ErrorSpec>((e@, final(self).pos as int)),
                Err(err) => p_unary(
                    old(self).toks(),
                    old(self).pos as int,
                    old(self).input_len as int,
                ) == Err::<(Formula, int), ErrorSpec>(err@),
            },
        decreases old(self).tokens@.len() - old(self).pos, 2int,
    {
        if self.at_not() {
            self.pos = self.pos + 1;
            let inner = match self.parse_unary() {
                Ok(e) => e,
                Err(e) => return Err(e),
            };
            Ok(RelationExpr::Not(Box::new(inner)))
        } else {
            self.parse_atom()
        }
    }

    fn parse_atom(&mut self) -> (r: Result<RelationExpr, RelationError>)
        requires
            old(self).wf(),
        ensures
            final(self).wf(),
            final(self).tokens == old(self).tokens,
            final(self).input_len == old(self).input_len,
            match r {
                Ok(e) => final(self).pos > old(self).pos && p_atom(
                    old(self).toks(),
                    old(self).pos as int,
                    old(self).input_len as int,
                ) == Ok::<(Formula, int), ErrorSpec>((e@, final(self).pos as int)),
                Err(err) => p_atom(
                    old(self).toks(),
                    old(self).pos as int,
                    old(self).input_len as int,
                ) == Err::<(Formula, int), ErrorSpec>(err@),
            },
        decreases old(self).tokens@.len() - old(self).pos, 1int,
    {
        if self.pos >= self.tokens.len() {
            return Err(
                plain_error(
                    RelationErrorKind::UnexpectedEnd,
                    Some(self.input_len),
                    "unexpected end of expression, expected operand",
                ),
            );
        }
        let p0 = self.pos;
        self.pos = self.pos + 1;
        match &self.tokens[p0].kind {
            TokenKind::LParen => {
                let paren_pos = self.tokens[p0].position;
                let inner = match self.parse_expr() {
                    Ok(e) => e,
                    Err(e) => return Err(e),
                };
                if self.pos >= self.tokens.len() {
                    return Err(
                        plain_error(
                            RelationErrorKind::UnmatchedParen,
                            Some(paren_pos),
                            "unmatched opening parenthesis",
                        ),
                    );
                }
                let close = self.pos;
                self.pos = self.pos + 1;
                if matches!(self.tokens[close].kind, TokenKind::RParen) {
                    Ok(inner)
                } else {
                    Err(
                        error_with_token(
                            RelationErrorKind::UnmatchedParen,
                            "expected closing parenthesis, found ",
                            &self.tokens[close],
                        ),
                    )
                }
            },
            TokenKind::NodeId(id) => Ok(RelationExpr::Operand(crate::text::copy_string(id))),
            _ => Err(
                error_with_token(
                    RelationErrorKind::UnexpectedToken,
                    "expected operand or '(', found ",
                    &self.tokens[p0],
                ),
            ),
        }
    }

    fn expect_end(&self) -> (r: Result<(), RelationError>)
        ensures
            r is Ok <==> self.pos >= self.tokens@.len(),
            r matches Err(e) ==> e@ == trailing_error(self.toks()[self.pos as int]),
    {
        if self.pos < self.tokens.len() {
            Err(
                error_with_token(
                    RelationErrorKind::UnexpectedToken,
                    "unexpected token after expression: ",
                    &self.tokens[self.pos],
                ),
            )
        } else {
            Ok(())
        }
    }
}

// ── Public API ───────────────────────────────────────────

/// Parses a relation expression (syntax only, no dependency check).
///
/// Surrounding whitespace is ignored; an empty expression, a lexical error
/// or a syntax error gives a single error.
pub fn parse_expression(expression: &str) -> (r: Result<RelationExpr, Vec<RelationError>>)
    ensures
        match r {
            Ok(e) => parse_expression_spec(expression@) == Ok::<Formula, Seq<ErrorSpec>>(e@),
            Err(errs) => parse_expression_spec(expression@) == Err::<Formula, Seq<ErrorSpec>>(
                errors_view(errs@),
            ),
        },
{
    let chars = str_chars(expression);
    let tr = trimmed(&chars);
    if tr.len() == 0 {
        let e = plain_error(RelationErrorKind::EmptyExpression, None, "relation expression is empty");
        let mut v: Vec<RelationError> = Vec::new();
        v.push(e);
        assert(errors_view(v@) =~= seq![empty_expression_error()]);
        return Err(v);
    }
    let tokens = match tokenize(&tr) {
        Ok(ts) => ts,
        Err(e) => {
            let mut v: Vec<RelationError> = Vec::new();
            v.push(e);
            assert(errors_view(v@) =~= seq![e@]);
            return Err(v);
        },
    };
    let mut parser = Parser { tokens, pos: 0, input_len: tr.len() };
    let ast = match parser.parse_expr() {
        Ok(a) => a,
        Err(e) => {
            let mut v: Vec<RelationError> = Vec::new();
            v.push(e);
            assert(errors_view(v@) =~= seq![e@]);
            return Err(v);
        },
    };
    match parser.expect_end() {
        Ok(()) => Ok(ast),
        Err(e) => {
            let mut v: Vec<RelationError> = Vec::new();
            v.push(e);
            assert(errors_view(v@) =~= seq![e@]);
            Err(v)
        },
    }
}


// ── Operands ─────────────────────────────────────────────

proof fn lemma_dedup(s: Seq<Seq<char>>)
    ensures
        dedup(s).no_duplicates(),
        forall|x: Seq<char>| dedup(s).contains(x) <==> s.contains(x),
    decreases s.len(),
{
    if s.len() > 0 {
        let p = s.drop_last();
        let y = s.last();
        lemma_dedup(p);
        assert(s =~= p.push(y));
        let d = dedup(p);
        assert forall|x: Seq<char>| dedup(s).contains(x) <==> s.contains(x) by {
            lemma_push_contains(p, y, x);
            lemma_push_contains(d, y, x);
        }
        if !d.contains(y) {
            assert forall|i: int, j: int| 0 <= i < j < d.push(y).len() implies d.push(y)[i] != d.push(
                y,
            )[j] by {
                if j == d.len() {
                    assert(d[i] == d.push(y)[i]);
                }
            }
        }
    }
}

/// The distinct operands of an expression, in order of first occurrence.
pub struct OperandSet {
    items: Vec<String>,
}

impl View for OperandSet {
    type V = Seq<Seq<char>>;

    closed spec fn view(&self) -> Seq<Seq<char>> {
        texts(self.items@)
    }
}

impl OperandSet {
    /// The number of distinct operands.
    pub fn len(&self) -> (n: usize)
        ensures
            n == self@.len(),
    {
        self.items.len()
    }

    /// Whether `id` is one of the operands.
    pub fn contains(&self, id: &str) -> (b: bool)
        ensures
            b == self@.contains(id@),
    {
        let x = String::from_str(id);
        vec_contains_text(&self.items, &x)
    }

    /// The operands as strings, in order of first occurrence.
    pub fn to_vec(&self) -> (v: Vec<String>)
        ensures
            texts(v@) == self@,
    {
        crate::text::copy_strings(&self.items)
    }
}

fn collect_operands_inner(expr: &RelationExpr, out: &mut Vec<String>, Ghost(acc): Ghost<Seq<Seq<char>>>)
    requires
        texts(old(out)@) == dedup(acc),
    ensures
        texts(final(out)@) == dedup(acc + leaves(expr@)),
    decreases expr,
{
    match expr {
        RelationExpr::Operand(id) => {
            assert(acc + leaves(expr@) =~= acc.push(id@));
            assert(acc.push(id@).drop_last() =~= acc);
            assert(acc.push(id@).last() == id@);
            if !vec_contains_text(out, id) {
                out.push(copy_string(id));
                assert(texts(out@) =~= dedup(acc).push(id@));
            }
        },
        RelationExpr::Not(a) => {
            collect_operands_inner(&**a, out, Ghost(acc));
        },
        RelationExpr::And(a, b) | RelationExpr::Or(a, b) | RelationExpr::Implies(a, b)
        | RelationExpr::Iff(a, b) => {
            collect_operands_inner(&**a, out, Ghost(acc));
            collect_operands_inner(&**b, out, Ghost(acc + leaves((**a)@)));
            assert(acc + leaves(expr@) =~= (acc + leaves((**a)@)) + leaves((**b)@));
        },
    }
}

/// Collects the node-ID operands of an expression, each once.
pub fn collect_operands(expr: &RelationExpr) -> (r: OperandSet)
    ensures
        r@ == dedup(leaves(expr@)),
        r@.no_duplicates(),
        forall|x: Seq<char>| r@.contains(x) <==> leaves(expr@).contains(x),
{
    let mut out: Vec<String> = Vec::new();
    assert(texts(out@) =~= dedup(Seq::empty()));
    collect_operands_inner(expr, &mut out, Ghost(Seq::empty()));
    assert(Seq::<Seq<char>>::empty() + leaves(expr@) =~= leaves(expr@));
    proof {
        lemma_dedup(leaves(expr@));
    }
    OperandSet { items: out }
}

// ── Dependency check ─────────────────────────────────────

/// The error for an operand that is not a dependency.
pub open spec fn unknown_operand_error(op: Seq<char>) -> ErrorSpec {
    ErrorSpec {
        kind: RelationErrorKind::UnknownOperand,
        position: None,
        message: "operand `"@ + op + "` in expression is not in the dependency list"@,
    }
}

/// The error for a dependency that the expression does not use.
pub open spec fn missing_operand_error(dep: Seq<char>) -> ErrorSpec {
    ErrorSpec {
        kind: RelationErrorKind::MissingOperand,
        position: None,
        message: "dependency `"@ + dep + "` is not referenced in the relation expression"@,
    }
}

/// One error for each operand of `ops` that `deps` lacks, in order.
pub open spec fn unknown_errors(ops: Seq<Seq<char>>, deps: Seq<Seq<char>>) -> Seq<ErrorSpec>
    decreases ops.len(),
{
    if ops.len() == 0 {
        Seq::empty()
    } else {
        let r = unknown_errors(ops.drop_last(), deps);
        if deps.contains(ops.last()) {
            r
        } else {
            r.push(unknown_operand_error(ops.last()))
        }
    }
}

/// One error for each dependency of `deps` that `ops` lacks, in order.
pub open spec fn missing_errors(deps: Seq<Seq<char>>, ops: Seq<Seq<char>>) -> Seq<ErrorSpec>
    decreases deps.len(),
{
    if deps.len() == 0 {
        Seq::empty()
    } else {
        let r = missing_errors(deps.drop_last(), ops);
        if ops.contains(deps.last()) {
            r
        } else {
            r.push(missing_operand_error(deps.last()))
        }
    }
}

/// The dependency errors of formula `f` against the dependency IDs `deps`.
pub open spec fn relation_errors(f: Formula, deps: Seq<Seq<char>>) -> Seq<ErrorSpec> {
    unknown_errors(dedup(leaves(f)), deps) + missing_errors(deps, dedup(leaves(f)))
}

/// What `parse_relation` gives for the characters `s` and dependency IDs `deps`.
pub open spec fn parse_relation_spec(s: Seq<char>, deps: Seq<Seq<char>>) -> Result<
    Formula,
    Seq<ErrorSpec>,
> {
    match parse_expression_spec(s) {
        Err(es) => Err(es),
        Ok(f) => {
            let errs = relation_errors(f, deps);
            if errs.len() == 0 {
                Ok(f)
            } else {
                Err(errs)
            }
        },
    }
}

proof fn lemma_unknown_errors_empty(ops: Seq<Seq<char>>, deps: Seq<Seq<char>>)
    ensures
        unknown_errors(ops, deps).len() == 0 <==> forall|i: int|
            0 <= i < ops.len() ==> deps.contains(#[trigger] ops[i]),
    decreases ops.len(),
{
    if ops.len() > 0 {
        lemma_unknown_errors_empty(ops.drop_last(), deps);
        assert forall|i: int| 0 <= i < ops.len() - 1 implies ops[i] == ops.drop_last()[i] by {}
        if unknown_errors(ops, deps).len() == 0 {
            assert forall|i: int| 0 <= i < ops.len() implies deps.contains(#[trigger] ops[i]) by {
                if i < ops.len() - 1 {
                    assert(ops.drop_last()[i] == ops[i]);
                }
            }
        }
        if forall|i: int| 0 <= i < ops.len() ==> deps.contains(#[trigger] ops[i]) {
            assert(deps.contains(ops[ops.len() - 1]));
            assert forall|i: int| 0 <= i < ops.drop_last().len() implies deps.contains(
                #[trigger] ops.drop_last()[i],
            ) by {
                assert(ops.drop_last()[i] == ops[i]);
            }
        }
    }
}

proof fn lemma_missing_errors_empty(deps: Seq<Seq<char>>, ops: Seq<Seq<char>>)
    ensures
        missing_errors(deps, ops).len() == 0 <==> forall|i: int|
            0 <= i < deps.len() ==> ops.contains(#[trigger] deps[i]),
    decreases deps.len(),
{
    if deps.len() > 0 {
        lemma_missing_errors_empty(deps.drop_last(), ops);
        if missing_errors(deps, ops).len() == 0 {
            assert forall|i: int| 0 <= i < deps.len() implies ops.contains(#[trigger] deps[i]) by {
                if i < deps.len() - 1 {
                    assert(deps.drop_last()[i] == deps[i]);
                }
            }
        }
        if forall|i: int| 0 <= i < deps.len() ==> ops.contains(#[trigger] deps[i]) {
            assert(ops.contains(deps[deps.len() - 1]));
            assert forall|i: int| 0 <= i < deps.drop_last().len() implies ops.contains(
                #[trigger] deps.drop_last()[i],
            ) by {
                assert(deps.drop_last()[i] == deps[i]);
            }
        }
    }
}

/// A relation parses and passes the dependency check exactly when it parses
/// and its operands are the dependencies: each operand is a dependency and
/// each dependency occurs as an operand.
pub proof fn lemma_relation_accepted_iff_operands_match(s: Seq<char>, deps: Seq<Seq<char>>)
    ensures
        parse_relation_spec(s, deps) is Ok <==> (parse_expression_spec(s) is Ok && forall|
            x: Seq<char>,
        | #![trigger deps.contains(x)]
        leaves(parse_expression_spec(s)->Ok_0).contains(x) <==> deps.contains(x)),
{
    if let Ok(f) = parse_expression_spec(s) {
        let ops = dedup(leaves(f));
        lemma_dedup(leaves(f));
        lemma_unknown_errors_empty(ops, deps);
        lemma_missing_errors_empty(deps, ops);
        if relation_errors(f, deps).len() == 0 {
            assert(unknown_errors(ops, deps).len() == 0);
            assert(missing_errors(deps, ops).len() == 0);
            assert forall|x: Seq<char>| #![trigger deps.contains(x)]
                leaves(f).contains(x) <==> deps.contains(x) by {
                if leaves(f).contains(x) {
                    assert(ops.contains(x));
                    let i = choose|i: int| 0 <= i < ops.len() && ops[i] == x;
                    assert(deps.contains(ops[i]));
                }
                if deps.contains(x) {
                    let i = choose|i: int| 0 <= i < deps.len() && deps[i] == x;
                    assert(ops.contains(deps[i]));
                }
            }
        }
        if forall|x: Seq<char>| #![trigger deps.contains(x)]
            leaves(f).contains(x) <==> deps.contains(x) {
            assert forall|i: int| 0 <= i < ops.len() implies deps.contains(#[trigger] ops[i]) by {
                assert(ops.contains(ops[i]));
                assert(leaves(f).contains(ops[i]));
            }
            assert forall|i: int| 0 <= i < deps.len() implies ops.contains(#[trigger] deps[i]) by {
                assert(deps.contains(deps[i]));
            }
        }
    }
}

fn unknown_operand_err(op: &String) -> (e: RelationError)
    ensures
        e@ == unknown_operand_error(op@),
{
    let mut m = String::from_str("operand `");
    m.append(op.as_str());
    m.append("` in expression is not in the dependency list");
    RelationError { kind: RelationErrorKind::UnknownOperand, position: None, message: m }
}

fn missing_operand_err(dep: &String) -> (e: RelationError)
    ensures
        e@ == missing_operand_error(dep@),
{
    let mut m = String::from_str("dependency `");
    m.append(dep.as_str());
    m.append("` is not referenced in the relation expression");
    RelationError { kind: RelationErrorKind::MissingOperand, position: None, message: m }
}

/// Parses a relation expression and checks its operands against the
/// dependency list.
///
/// Returns the syntax tree on success. Otherwise it returns the syntax error,
/// or every dependency mismatch: first each operand missing from the list,
/// then each listed dependency that no operand names.
pub fn parse_relation(expression: &str, dependency_ids: &[String]) -> (r: Result<
    RelationExpr,
    Vec<RelationError>,
>)
    ensures
        match r {
            Ok(e) => parse_relation_spec(expression@, texts(dependency_ids@)) == Ok::<
                Formula,
                Seq<ErrorSpec>,
            >(e@),
            Err(errs) => parse_relation_spec(expression@, texts(dependency_ids@)) == Err::<
                Formula,
                Seq<ErrorSpec>,
            >(errors_view(errs@)),
        },
        r is Ok <==> (parse_expression_spec(expression@) is Ok && forall|x: Seq<char>|
            #![trigger texts(dependency_ids@).contains(x)]
            leaves(parse_expression_spec(expression@)->Ok_0).contains(x) <==> texts(
                dependency_ids@,
            ).contains(x)),
{
    proof {
        lemma_relation_accepted_iff_operands_match(expression@, texts(dependency_ids@));
    }
    let ast = parse_expression(expression)?;
    let operands = collect_operands(&ast);
    let mut deps: Vec<String> = Vec::new();
    let mut k: usize = 0;
    while k < dependency_ids.len()
        invariant
            k <= dependency_ids@.len(),
            deps@.len() == k,
            forall|m: int| 0 <= m < k ==> deps@[m]@ == dependency_ids@[m]@,
        decreases dependency_ids@.len() - k,
    {
        deps.push(copy_string(&dependency_ids[k]));
        k = k + 1;
    }
    assert(texts(deps@) =~= texts(dependency_ids@));
    let ghost dv = texts(deps@);
    let ghost ops = operands@;
    let mut errors: Vec<RelationError> = Vec::new();
    let mut i: usize = 0;
    while i < operands.items.len()
        invariant
            i <= ops.len(),
            ops == texts(operands.items@),
            dv == texts(deps@),
            errors_view(errors@) == unknown_errors(ops.take(i as int), dv),
        decreases ops.len() - i,
    {
        assert(ops.take(i + 1).drop_last() =~= ops.take(i as int));
        if !vec_contains_text(&deps, &operands.items[i]) {
            errors.push(unknown_operand_err(&operands.items[i]));
        }
        i = i + 1;
        assert(errors_view(errors@) =~= unknown_errors(ops.take(i as int), dv));
    }
    assert(ops.take(i as int) =~= ops);
    let ghost unknown = errors_view(errors@);
    let mut j: usize = 0;
    while j < deps.len()
        invariant
            j <= dv.len(),
            ops == texts(operands.items@),
            dv == texts(deps@),
            errors_view(errors@) == unknown + missing_errors(dv.take(j as int), ops),
        decreases dv.len() - j,
    {
        assert(dv.take(j + 1).drop_last() =~= dv.take(j as int));
        assert(dv.take(j + 1).last() == deps@[j as int]@);
        let ghost before = errors@;
        if !vec_contains_text(&operands.items, &deps[j]) {
            errors.push(missing_operand_err(&deps[j]));
        }
        j = j + 1;
        assert(errors_view(errors@) =~= unknown + missing_errors(dv.take(j as int), ops)) by {
            if errors@.len() > before.len() {
                assert(errors_view(errors@) =~= errors_view(before).push(errors@.last()@));
            } else {
                assert(errors@ == before);
            }
        }
    }
    assert(dv.take(j as int) =~= dv);
    if errors.len() == 0 {
        Ok(ast)
    } else {
        Err(errors)
    }
}

} // verus!
