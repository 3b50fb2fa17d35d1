//! Boolean endpoint expressions: the token stream and the expression tree.
//!
//! The sublanguage is `and_expr := not_expr (AND not_expr)*`,
//! `not_expr := NOT not_expr | primary`,
//! `primary := E<digits> | ( and_expr )`.

use vstd::prelude::*;
use crate::text::{
    chars_of, is_digit, is_digit_char, parse_u32, parse_u32_spec, string_of, subrange,
};

verus! {

/// A boolean combination of entity references.
#[derive(Debug, PartialEq, Eq)]
pub enum Expr {
    EntityRef(u32),
    Not(Box<Expr>),
    And(Vec<Expr>),
}

/// The mathematical tree that an [`Expr`] stands for.
pub enum ExprView {
    EntityRef(u32),
    Not(Box<ExprView>),
    And(Seq<ExprView>),
}

/// The tree of `e`, with each list of conjuncts read as a sequence.
pub open spec fn expr_view(e: Expr) -> ExprView
    decreases e,
{
    match e {
        Expr::EntityRef(id) => ExprView::EntityRef(id),
        Expr::Not(inner) => ExprView::Not(Box::new(expr_view(*inner))),
        Expr::And(items) => ExprView::And(
            Seq::new(
                items@.len(),
                |i: int|
                    if 0 <= i < items@.len() {
                        expr_view(items@[i])
                    } else {
                        ExprView::EntityRef(0)
                    },
            ),
        ),
    }
}

impl View for Expr {
    type V = ExprView;

    open spec fn view(&self) -> ExprView {
        expr_view(*self)
    }
}

/// The trees of a list of expressions.
pub open spec fn expr_views(items: Seq<Expr>) -> Seq<ExprView> {
    Seq::new(items.len(), |i: int| items[i]@)
}

impl Clone for Expr {
    fn clone(&self) -> (out: Self)
        ensures
            out@ == self@,
        decreases self,
    {
        match self {
            Expr::EntityRef(id) => Expr::EntityRef(*id),
            Expr::Not(inner) => Expr::Not(Box::new((**inner).clone())),
            Expr::And(items) => {
                let mut copy: Vec<Expr> = Vec::new();
                let mut i: usize = 0;
                while i < items.len()
                    invariant
                        i <= items.len(),
                        decreases_to!(*self => *items),
                        copy.len() == i,
                        forall|j: int| 0 <= j < i ==> (#[trigger] copy@[j])@ == items@[j]@,
                    decreases items.len() - i,
                {
                    copy.push(items[i].clone());
                    i += 1;
                }
                let out = Expr::And(copy);
                assert(out@->And_0 =~= self@->And_0);
                out
            },
        }
    }
}

/// Builds the conjunction of `items`.
pub fn and_of(items: Vec<Expr>) -> (out: Expr)
    ensures
        out@ == ExprView::And(expr_views(items@)),
{
    let out = Expr::And(items);
    assert(out@->And_0 =~= expr_views(items@));
    out
}

// ---------------------------------------------------------------------
// Lexer
// ---------------------------------------------------------------------

/// One lexeme of an endpoint expression.
#[derive(Debug, Clone, Copy, PartialEq, Eq)]
pub enum Token {
    Entity(u32),
    Not,
    And,
    LParen,
    RParen,
}

/// Why a piece of text is no token stream.
#[derive(Debug, Clone, PartialEq, Eq)]
pub enum LexError {
    /// A character that starts no lexeme.
    UnexpectedCharacter(char),
    /// A run of letters that is neither `AND` nor `NOT`.
    UnexpectedIdentifier(String),
    /// An `E` with no digit behind it.
    MissingDigits,
    /// An entity number that does not fit 32 bits.
    InvalidEntityId(String),
}

pub enum LexErrorView {
    UnexpectedCharacter(char),
    UnexpectedIdentifier(Seq<char>),
    MissingDigits,
    InvalidEntityId(Seq<char>),
}

impl View for LexError {
    type V = LexErrorView;

    open spec fn view(&self) -> LexErrorView {
        match self {
            LexError::UnexpectedCharacter(c) => LexErrorView::UnexpectedCharacter(*c),
            LexError::UnexpectedIdentifier(w) => LexErrorView::UnexpectedIdentifier(w@),
            LexError::MissingDigits => LexErrorView::MissingDigits,
            LexError::InvalidEntityId(d) => LexErrorView::InvalidEntityId(d@),
        }
    }
}

/// An ASCII letter.
pub open spec fn is_alpha(c: char) -> bool {
    let n = c as u32;
    0x41 <= n <= 0x5A || 0x61 <= n <= 0x7A
}

/// How many letters `s` starts with.
pub open spec fn alpha_run(s: Seq<char>) -> nat
    decreases s.len(),
{
    if s.len() > 0 && is_alpha(s[0]) {
        1 + alpha_run(s.drop_first())
    } else {
        0
    }
}

/// How many decimal digits `s` starts with.
pub open spec fn digit_run(s: Seq<char>) -> nat
    decreases s.len(),
{
    if s.len() > 0 && is_digit(s[0]) {
        1 + digit_run(s.drop_first())
    } else {
        0
    }
}

/// `NOT`, in any mix of upper and lower case.
pub open spec fn is_not_word(w: Seq<char>) -> bool {
    &&& w.len() == 3
    &&& (w[0] == 'N' || w[0] == 'n')
    &&& (w[1] == 'O' || w[1] == 'o')
    &&& (w[2] == 'T' || w[2] == 't')
}

/// `AND`, in any mix of upper and lower case.
pub open spec fn is_and_word(w: Seq<char>) -> bool {
    &&& w.len() == 3
    &&& (w[0] == 'A' || w[0] == 'a')
    &&& (w[1] == 'N' || w[1] == 'n')
    &&& (w[2] == 'D' || w[2] == 'd')
}

/// The lexeme at the start of a non-empty `s`: the token it gives, none for a
/// blank, and the number of characters it takes.
pub open spec fn next_lexeme(s: Seq<char>) -> Result<(Option<Token>, nat), LexErrorView>
    recommends
        s.len() > 0,
{
    let c = s[0];
    if c == ' ' || c == '\t' {
        Ok((None, 1))
    } else if c == '(' {
        Ok((Some(Token::LParen), 1))
    } else if c == ')' {
        Ok((Some(Token::RParen), 1))
    } else if c == 'N' || c == 'n' {
        let w = s.take(alpha_run(s) as int);
        if is_not_word(w) {
            Ok((Some(Token::Not), 3))
        } else {
            Err(LexErrorView::UnexpectedIdentifier(w))
        }
    } else if c == 'A' || c == 'a' {
        let w = s.take(alpha_run(s) as int);
        if is_and_word(w) {
            Ok((Some(Token::And), 3))
        } else {
            Err(LexErrorView::UnexpectedIdentifier(w))
        }
    } else if c == 'E' || c == 'e' {
        let k = digit_run(s.drop_first());
        let digits = s.subrange(1, 1 + k as int);
        if k == 0 {
            Err(LexErrorView::MissingDigits)
        } else {
            match parse_u32_spec(digits) {
                Some(id) => Ok((Some(Token::Entity(id)), 1 + k)),
                None => Err(LexErrorView::InvalidEntityId(digits)),
            }
        }
    } else {
        Err(LexErrorView::UnexpectedCharacter(c))
    }
}

/// `done` followed by what the rest of the text gives.
pub open spec fn lex_join(done: Seq<Token>, rest: Result<Seq<Token>, LexErrorView>) -> Result<
    Seq<Token>,
    LexErrorView,
> {
    match rest {
        Ok(more) => Ok(done + more),
        Err(e) => Err(e),
    }
}

/// The token stream of `s`, or the first lexical error in it.
pub open spec fn lex(s: Seq<char>) -> Result<Seq<Token>, LexErrorView>
    decreases s.len(),
{
    if s.len() == 0 {
        Ok(Seq::empty())
    } else {
        match next_lexeme(s) {
            Err(e) => Err(e),
            Ok((tok, k)) => if 0 < k <= s.len() {
                lex_join(
                    match tok {
                        Some(t) => seq![t],
                        None => Seq::empty(),
                    },
                    lex(s.skip(k as int)),
                )
            } else {
                Ok(Seq::empty())
            },
        }
    }
}

pub proof fn lemma_runs_bounded(s: Seq<char>)
    ensures
        alpha_run(s) <= s.len(),
        digit_run(s) <= s.len(),
        forall|i: int| 0 <= i < alpha_run(s) ==> is_alpha(#[trigger] s[i]),
        forall|i: int| 0 <= i < digit_run(s) ==> is_digit(#[trigger] s[i]),
    decreases s.len(),
{
    if s.len() > 0 {
        let r = s.drop_first();
        lemma_runs_bounded(r);
        assert forall|i: int| 0 <= i < alpha_run(s) implies is_alpha(#[trigger] s[i]) by {
            if i > 0 {
                assert(s[i] == r[i - 1]);
            }
        }
        assert forall|i: int| 0 <= i < digit_run(s) implies is_digit(#[trigger] s[i]) by {
            if i > 0 {
                assert(s[i] == r[i - 1]);
            }
        }
    }
}

/// A lexeme takes at least one character and no more than there are.
pub proof fn lemma_next_lexeme_advances(s: Seq<char>)
    requires
        s.len() > 0,
    ensures
        next_lexeme(s) matches Ok((_, k)) ==> 0 < k <= s.len(),
{
    lemma_runs_bounded(s);
    lemma_runs_bounded(s.drop_first());
}

pub fn is_alpha_char(c: char) -> (b: bool)
    ensures
        b == is_alpha(c),
{
    let n: u32 = c as u32;
    (0x41 <= n && n <= 0x5A) || (0x61 <= n && n <= 0x7A)
}

/// The end of the run of letters that starts at `from`.
fn scan_alpha(v: &Vec<char>, from: usize) -> (end: usize)
    requires
        from <= v.len(),
    ensures
        from <= end <= v.len(),
        end == from + alpha_run(v@.skip(from as int)),
{
    let mut end: usize = from;
    while end < v.len() && is_alpha_char(v[end])
        invariant
            from <= end <= v.len(),
            from + alpha_run(v@.skip(from as int)) == end + alpha_run(v@.skip(end as int)),
        decreases v.len() - end,
    {
        assert(v@.skip(end as int)[0] == v@[end as int]);
        assert(v@.skip(end as int).drop_first() == v@.skip(end + 1));
        end += 1;
    }
    proof {
        if end < v.len() {
            assert(v@.skip(end as int)[0] == v@[end as int]);
        }
    }
    end
}

/// The end of the run of digits that starts at `from`.
pub fn scan_digits(v: &Vec<char>, from: usize) -> (end: usize)
    requires
        from <= v.len(),
    ensures
        from <= end <= v.len(),
        end == from + digit_run(v@.skip(from as int)),
{
    let mut end: usize = from;
    while end < v.len() && is_digit_char(v[end])
        invariant
            from <= end <= v.len(),
            from + digit_run(v@.skip(from as int)) == end + digit_run(v@.skip(end as int)),
        decreases v.len() - end,
    {
        assert(v@.skip(end as int)[0] == v@[end as int]);
        assert(v@.skip(end as int).drop_first() == v@.skip(end + 1));
        end += 1;
    }
    proof {
        if end < v.len() {
            assert(v@.skip(end as int)[0] == v@[end as int]);
        }
    }
    end
}

fn word_is_not(w: &Vec<char>) -> (b: bool)
    ensures
        b == is_not_word(w@),
{
    w.len() == 3 && (w[0] == 'N' || w[0] == 'n') && (w[1] == 'O' || w[1] == 'o') && (w[2] == 'T'
        || w[2] == 't')
}

fn word_is_and(w: &Vec<char>) -> (b: bool)
    ensures
        b == is_and_word(w@),
{
    w.len() == 3 && (w[0] == 'A' || w[0] == 'a') && (w[1] == 'N' || w[1] == 'n') && (w[2] == 'D'
        || w[2] == 'd')
}

proof fn lemma_lex_step(s: Seq<char>, done: Seq<Token>, i: int, tok: Option<Token>, k: nat)
    requires
        0 <= i < s.len(),
        lex(s) == lex_join(done, lex(s.skip(i))),
        next_lexeme(s.skip(i)) == Ok::<_, LexErrorView>((tok, k)),
    ensures
        0 < k <= s.len() - i,
        lex(s) == lex_join(
            match tok {
                Some(t) => done.push(t),
                None => done,
            },
            lex(s.skip(i + k)),
        ),
{
    let rest = s.skip(i);
    lemma_next_lexeme_advances(rest);
    assert(rest.skip(k as int) == s.skip(i + k));
    match lex(s.skip(i + k)) {
        Ok(more) => {
            match tok {
                Some(t) => {
                    assert(done + (seq![t] + more) == done.push(t) + more);
                },
                None => {
                    assert(done + (Seq::<Token>::empty() + more) == done + more);
                },
            }
        },
        Err(_) => {},
    }
}

/// Reads an endpoint expression into tokens.
///
/// Blanks and tabs are skipped; `AND` and `NOT` are read in any case; `E` or
/// `e` followed by digits is an entity reference. Anything else is an error.
pub fn tokenize_expr(input: &str) -> (out: Result<Vec<Token>, LexError>)
    ensures
        match out {
            Ok(tokens) => lex(input@) == Ok::<_, LexErrorView>(tokens@),
            Err(e) => lex(input@) == Err::<Seq<Token>, _>(e@),
        },
{
    let chars = chars_of(input);
    tokenize_chars(&chars)
}

/// [`tokenize_expr`] on text that is already split into characters.
pub fn tokenize_chars(chars: &Vec<char>) -> (out: Result<Vec<Token>, LexError>)
    ensures
        match out {
            Ok(tokens) => lex(chars@) == Ok::<_, LexErrorView>(tokens@),
            Err(e) => lex(chars@) == Err::<Seq<Token>, _>(e@),
        },
{
    let n = chars.len();
    let mut tokens: Vec<Token> = Vec::new();
    let mut i: usize = 0;
    proof {
        assert(chars@.skip(0) == chars@);
        match lex(chars@) {
            Ok(more) => {
                assert(Seq::<Token>::empty() + more == more);
            },
            Err(_) => {},
        }
    }
    while i < n
        invariant
            i <= n == chars.len(),
            lex(chars@) == lex_join(tokens@, lex(chars@.skip(i as int))),
        decreases n - i,
    {
        let ghost rest = chars@.skip(i as int);
        let c = chars[i];
        assert(rest[0] == c);
        assert(rest.len() > 0);
        if c == ' ' || c == '\t' {
            proof {
                lemma_lex_step(chars@, tokens@, i as int, None, 1);
            }
            i += 1;
        } else if c == '(' {
            proof {
                lemma_lex_step(chars@, tokens@, i as int, Some(Token::LParen), 1);
            }
            tokens.push(Token::LParen);
            i += 1;
        } else if c == ')' {
            proof {
                lemma_lex_step(chars@, tokens@, i as int, Some(Token::RParen), 1);
            }
            tokens.push(Token::RParen);
            i += 1;
        } else if c == 'N' || c == 'n' || c == 'A' || c == 'a' {
            let end = scan_alpha(chars, i);
            let word = subrange(chars, i, end);
            assert(word@ == rest.take(alpha_run(rest) as int));
            if c == 'N' || c == 'n' {
                if word_is_not(&word) {
                    proof {
                        lemma_lex_step(chars@, tokens@, i as int, Some(Token::Not), 3);
                    }
                    tokens.push(Token::Not);
                    i += 3;
                } else {
                    return Err(LexError::UnexpectedIdentifier(string_of(&word)));
                }
            } else {
                if word_is_and(&word) {
                    proof {
                        lemma_lex_step(chars@, tokens@, i as int, Some(Token::And), 3);
                    }
                    tokens.push(Token::And);
                    i += 3;
                } else {
                    return Err(LexError::UnexpectedIdentifier(string_of(&word)));
                }
            }
        } else if c == 'E' || c == 'e' {
            let end = scan_digits(chars, i + 1);
            assert(rest.drop_first() == chars@.skip(i + 1));
            if end == i + 1 {
                return Err(LexError::MissingDigits);
            }
            let digits = subrange(chars, i + 1, end);
            assert(digits@ == rest.subrange(1, 1 + digit_run(rest.drop_first()) as int));
            match parse_u32(&digits) {
                Some(id) => {
                    proof {
                        lemma_lex_step(
                            chars@,
                            tokens@,
                            i as int,
                            Some(Token::Entity(id)),
                            (end - i) as nat,
                        );
                    }
                    tokens.push(Token::Entity(id));
                    i = end;
                },
                None => {
                    return Err(LexError::InvalidEntityId(string_of(&digits)));
                },
            }
        } else {
            return Err(LexError::UnexpectedCharacter(c));
        }
    }
    proof {
        assert(tokens@ + Seq::<Token>::empty() == tokens@);
    }
    Ok(tokens)
}

// ---------------------------------------------------------------------
// Expression parser
// ---------------------------------------------------------------------

/// Why a token stream is no expression.
#[derive(Debug, Clone, Copy, PartialEq, Eq)]
pub enum ExprParseError {
    /// The text of the expression is empty.
    EmptyExpression,
    /// The stream ends where an operand is due.
    UnexpectedEnd,
    /// A `)` stands where an operand is due.
    UnexpectedCloseParen,
    /// An operator stands where an operand is due.
    UnexpectedToken,
    /// A `(` is never closed.
    MissingCloseParen,
    /// Tokens are left behind a complete expression.
    TrailingTokens,
}

/// `primary := Entity | LParen and_expr RParen`, read at `pos`; gives the
/// tree and the position behind it.
pub open spec fn parse_primary_spec(ts: Seq<Token>, pos: nat) -> Result<
    (ExprView, nat),
    ExprParseError,
>
    decreases ts.len() - pos, 0nat,
{
    if pos >= ts.len() {
        Err(ExprParseError::UnexpectedEnd)
    } else {
        match ts[pos as int] {
            Token::Entity(id) => Ok((ExprView::EntityRef(id), pos + 1)),
            Token::LParen => match parse_and_spec(ts, pos + 1) {
                Err(e) => Err(e),
                Ok((e, p)) => if p < ts.len() && ts[p as int] == Token::RParen {
                    Ok((e, p + 1))
                } else {
                    Err(ExprParseError::MissingCloseParen)
                },
            },
            Token::RParen => Err(ExprParseError::UnexpectedCloseParen),
            _ => Err(ExprParseError::UnexpectedToken),
        }
    }
}

/// `not_expr := NOT not_expr | primary`, read at `pos`.
pub open spec fn parse_not_spec(ts: Seq<Token>, pos: nat) -> Result<
    (ExprView, nat),
    ExprParseError,
>
    decreases ts.len() - pos, 1nat,
{
    if pos < ts.len() && ts[pos as int] == Token::Not {
        match parse_not_spec(ts, pos + 1) {
            Err(e) => Err(e),
            Ok((e, p)) => Ok((ExprView::Not(Box::new(e)), p)),
        }
    } else {
        parse_primary_spec(ts, pos)
    }
}

/// `(AND not_expr)*`, read at `pos` behind the conjuncts `acc`.
pub open spec fn parse_and_rest_spec(ts: Seq<Token>, pos: nat, acc: Seq<ExprView>) -> Result<
    (Seq<ExprView>, nat),
    ExprParseError,
>
    decreases ts.len() - pos, 2nat,
{
    if pos < ts.len() && ts[pos as int] == Token::And {
        match parse_not_spec(ts, pos + 1) {
            Err(e) => Err(e),
            Ok((e, p)) => if pos < p <= ts.len() {
                parse_and_rest_spec(ts, p, acc.push(e))
            } else {
                Err(ExprParseError::UnexpectedEnd)
            },
        }
    } else {
        Ok((acc, pos))
    }
}

/// `and_expr := not_expr (AND not_expr)*`, read at `pos`. One conjunct alone
/// stands for itself; two or more make an `And`.
pub open spec fn parse_and_spec(ts: Seq<Token>, pos: nat) -> Result<
    (ExprView, nat),
    ExprParseError,
>
    decreases ts.len() - pos, 3nat,
{
    match parse_not_spec(ts, pos) {
        Err(e) => Err(e),
        Ok((first, p)) => if pos < p <= ts.len() {
            match parse_and_rest_spec(ts, p, seq![first]) {
                Err(e) => Err(e),
                Ok((items, q)) => Ok(
                    (
                        if items.len() == 1 {
                            items[0]
                        } else {
                            ExprView::And(items)
                        },
                        q,
                    ),
                ),
            }
        } else {
            Err(ExprParseError::UnexpectedEnd)
        },
    }
}

/// The expression that the whole of `ts` writes.
pub open spec fn parse_tokens_spec(ts: Seq<Token>) -> Result<ExprView, ExprParseError> {
    match parse_and_spec(ts, 0) {
        Err(e) => Err(e),
        Ok((e, p)) => if p < ts.len() {
            Err(ExprParseError::TrailingTokens)
        } else {
            Ok(e)
        },
    }
}

/// Recursive-descent parser over a token stream.
pub struct ExprParser {
    pub tokens: Vec<Token>,
    pub pos: usize,
}

impl ExprParser {
    pub fn new(tokens: Vec<Token>) -> (out: Self)
        ensures
            out.tokens == tokens,
            out.pos == 0,
    {
        ExprParser { tokens, pos: 0 }
    }

    /// The cursor stands inside the stream or just behind it.
    pub open spec fn wf(&self) -> bool {
        self.pos <= self.tokens.len()
    }

    /// Parses the whole stream as one expression.
    pub fn parse(self) -> (out: Result<Expr, ExprParseError>)
        requires
            self.wf(),
            self.pos == 0,
        ensures
            match out {
                Ok(e) => parse_tokens_spec(self.tokens@) == Ok::<_, ExprParseError>(e@),
                Err(err) => parse_tokens_spec(self.tokens@) == Err::<ExprView, _>(err),
            },
    {
        let mut parser = self;
        match parser.parse_and() {
            Err(e) => Err(e),
            Ok(expr) => {
                if parser.peek().is_some() {
                    Err(ExprParseError::TrailingTokens)
                } else {
                    Ok(expr)
                }
            },
        }
    }

    pub fn parse_and(&mut self) -> (out: Result<Expr, ExprParseError>)
        requires
            old(self).wf(),
        ensures
            final(self).tokens == old(self).tokens,
            final(self).wf(),
            match out {
                Ok(e) => parse_and_spec(old(self).tokens@, old(self).pos as nat) == Ok::<
                    _,
                    ExprParseError,
                >((e@, final(self).pos as nat)) && old(self).pos < final(self).pos,
                Err(err) => parse_and_spec(old(self).tokens@, old(self).pos as nat) == Err::<
                    (ExprView, nat),
                    _,
                >(err),
            },
        decreases old(self).tokens.len() - old(self).pos, 3nat,
    {
        let ghost ts = self.tokens@;
        let ghost start = self.pos as nat;
        let first = match self.parse_not() {
            Ok(e) => e,
            Err(err) => {
                return Err(err);
            },
        };
        let ghost mid = self.pos as nat;
        let mut exprs: Vec<Expr> = Vec::new();
        exprs.push(first);
        assert(expr_views(exprs@) == seq![first@]);
        while self.at_and()
            invariant
                self.tokens@ == ts,
                self.tokens == old(self).tokens,
                self.wf(),
                start < mid <= self.pos,
                start == old(self).pos,
                exprs.len() >= 1,
                parse_and_rest_spec(ts, mid, seq![exprs@[0]@]) == parse_and_rest_spec(
                    ts,
                    self.pos as nat,
                    expr_views(exprs@),
                ),
                parse_not_spec(ts, start) == Ok::<_, ExprParseError>((exprs@[0]@, mid)),
            decreases self.tokens.len() - self.pos,
        {
            self.bump();
            let ghost before = expr_views(exprs@);
            let next = match self.parse_not() {
                Ok(e) => e,
                Err(err) => {
                    return Err(err);
                },
            };
            exprs.push(next);
            assert(expr_views(exprs@) == before.push(next@));
        }
        if exprs.len() == 1 {
            let only = exprs.remove(0);
            assert(expr_views(seq![only])[0] == only@);
            Ok(only)
        } else {
            Ok(and_of(exprs))
        }
    }

    pub fn parse_not(&mut self) -> (out: Result<Expr, ExprParseError>)
        requires
            old(self).wf(),
        ensures
            final(self).tokens == old(self).tokens,
            final(self).wf(),
            match out {
                Ok(e) => parse_not_spec(old(self).tokens@, old(self).pos as nat) == Ok::<
                    _,
                    ExprParseError,
                >((e@, final(self).pos as nat)) && old(self).pos < final(self).pos,
                Err(err) => parse_not_spec(old(self).tokens@, old(self).pos as nat) == Err::<
                    (ExprView, nat),
                    _,
                >(err),
            },
        decreases old(self).tokens.len() - old(self).pos, 1nat,
    {
        match self.peek() {
            Some(Token::Not) => {
                self.bump();
                match self.parse_not() {
                    Ok(inner) => Ok(Expr::Not(Box::new(inner))),
                    Err(err) => Err(err),
                }
            },
            _ => self.parse_primary(),
        }
    }

    pub fn parse_primary(&mut self) -> (out: Result<Expr, ExprParseError>)
        requires
            old(self).wf(),
        ensures
            final(self).tokens == old(self).tokens,
            final(self).wf(),
            match out {
                Ok(e) => parse_primary_spec(old(self).tokens@, old(self).pos as nat) == Ok::<
                    _,
                    ExprParseError,
                >((e@, final(self).pos as nat)) && old(self).pos < final(self).pos,
                Err(err) => parse_primary_spec(old(self).tokens@, old(self).pos as nat) == Err::<
                    (ExprView, nat),
                    _,
                >(err),
            },
        decreases old(self).tokens.len() - old(self).pos, 0nat,
    {
        match self.peek() {
            Some(Token::Entity(id)) => {
                self.bump();
                Ok(Expr::EntityRef(id))
            },
            Some(Token::LParen) => {
                self.bump();
                let expr = match self.parse_and() {
                    Ok(e) => e,
                    Err(err) => {
                        return Err(err);
                    },
                };
                match self.peek() {
                    Some(Token::RParen) => {
                        self.bump();
                        Ok(expr)
                    },
                    _ => Err(ExprParseError::MissingCloseParen),
                }
            },
            Some(Token::RParen) => Err(ExprParseError::UnexpectedCloseParen),
            None => Err(ExprParseError::UnexpectedEnd),
            _ => Err(ExprParseError::UnexpectedToken),
        }
    }

    /// Whether the cursor stands on an `AND`.
    fn at_and(&self) -> (out: bool)
        requires
            self.wf(),
        ensures
            out == (self.pos < self.tokens.len() && self.tokens@[self.pos as int] == Token::And),
    {
        match self.peek() {
            Some(Token::And) => true,
            _ => false,
        }
    }

    /// The token under the cursor, if any.
    pub fn peek(&self) -> (out: Option<Token>)
        requires
            self.wf(),
        ensures
            out == if self.pos < self.tokens.len() {
                Some(self.tokens@[self.pos as int])
            } else {
                None
            },
    {
        if self.pos < self.tokens.len() {
            Some(self.tokens[self.pos])
        } else {
            None
        }
    }

    /// Moves the cursor past the token under it, if any, and gives that token.
    pub fn bump(&mut self) -> (out: Option<Token>)
        requires
            old(self).wf(),
        ensures
            final(self).tokens == old(self).tokens,
            final(self).wf(),
            out == if old(self).pos < old(self).tokens.len() {
                Some(old(self).tokens@[old(self).pos as int])
            } else {
                None
            },
            final(self).pos == if old(self).pos < old(self).tokens.len() {
                old(self).pos + 1
            } else {
                old(self).pos as int
            },
    {
        if self.pos < self.tokens.len() {
            let tok = self.tokens[self.pos];
            self.pos += 1;
            Some(tok)
        } else {
            None
        }
    }
}

} // verus!
