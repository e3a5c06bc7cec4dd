//! An arithmetic expression evaluator over 32-bit signed integers: a
//! tokenizer for numbers, the five operators and parentheses, and a
//! precedence-climbing evaluation, each verified against a specification of
//! the token stream and of the value every expression denotes. Arithmetic
//! that leaves the 32-bit range and division by zero report an error.

use vstd::prelude::*;
use vstd::string::StrSliceExecFns;

verus! {

/// Left-associative operators bind their own precedence level upward.
pub const ASSOC_LEFT: i32 = 0;

/// Right-associative operators re-enter their own precedence level.
pub const ASSOC_RIGHT: i32 = 1;

/// One lexical element: a number, an operator, or a parenthesis.
#[derive(Clone, Copy, Debug, PartialEq, Eq, Structural)]
pub enum Token {
    Number(i32),
    Plus,
    Minus,
    Multiply,
    Divide,
    Power,
    LeftParen,
    RightParen,
}

/// Whether the token is one of the five binary operators.
pub open spec fn spec_is_operator(t: Token) -> bool {
    t is Plus || t is Minus || t is Multiply || t is Divide || t is Power
}

/// Binding strength: additive 1, multiplicative 2, power 3, others none.
pub open spec fn spec_precedence(t: Token) -> int {
    match t {
        Token::Plus | Token::Minus => 1,
        Token::Multiply | Token::Divide => 2,
        Token::Power => 3,
        _ => 0,
    }
}

/// Power associates to the right, every other operator to the left.
pub open spec fn spec_assoc(t: Token) -> int {
    match t {
        Token::Power => ASSOC_RIGHT as int,
        _ => ASSOC_LEFT as int,
    }
}

/// The value fits the 32-bit signed range.
pub open spec fn fits_i32(v: int) -> bool {
    i32::MIN <= v <= i32::MAX
}

/// Division truncating toward zero, as 32-bit machine division does.
pub open spec fn spec_div_trunc(l: int, r: int) -> int
    recommends
        r != 0,
{
    let q = abs_int(l) / abs_int(r);
    if (l < 0) != (r < 0) {
        -q
    } else {
        q
    }
}

pub open spec fn abs_int(v: int) -> int {
    if v < 0 {
        -v
    } else {
        v
    }
}

/// Iterated checked multiplication: the power `l^n`, or `None` as soon as an
/// intermediate product leaves the 32-bit range.
pub open spec fn spec_pow_checked(l: int, n: nat) -> Option<int>
    decreases n,
{
    if n == 0 {
        Some(1)
    } else {
        match spec_pow_checked(l, (n - 1) as nat) {
            Some(p) => if fits_i32(l * p) {
                Some(l * p)
            } else {
                None
            },
            None => None,
        }
    }
}

/// What applying the operator to `l` and `r` yields: the exact result when
/// it fits the 32-bit range, `None` on range overflow, division by zero, a
/// negative exponent, or a token that is no operator.
pub open spec fn spec_compute(t: Token, l: int, r: int) -> Option<int> {
    match t {
        Token::Plus => if fits_i32(l + r) {
            Some(l + r)
        } else {
            None
        },
        Token::Minus => if fits_i32(l - r) {
            Some(l - r)
        } else {
            None
        },
        Token::Multiply => if fits_i32(l * r) {
            Some(l * r)
        } else {
            None
        },
        Token::Divide => if r == 0 || !fits_i32(spec_div_trunc(l, r)) {
            None
        } else {
            Some(spec_div_trunc(l, r))
        },
        Token::Power => if r < 0 {
            None
        } else {
            spec_pow_checked(l, r as nat)
        },
        _ => None,
    }
}

impl Token {
    /// Whether this token is one of the five binary operators.
    pub fn is_operator(&self) -> (r: bool)
        ensures
            r == spec_is_operator(*self),
    {
        match self {
            Token::Plus | Token::Minus | Token::Multiply | Token::Divide | Token::Power => true,
            _ => false,
        }
    }

    /// This token's binding strength.
    pub fn precedence(&self) -> (r: i32)
        ensures
            r == spec_precedence(*self),
    {
        match self {
            Token::Plus | Token::Minus => 1,
            Token::Multiply | Token::Divide => 2,
            Token::Power => 3,
            _ => 0,
        }
    }

    /// This token's associativity.
    pub fn assoc(&self) -> (r: i32)
        ensures
            r == spec_assoc(*self),
    {
        match self {
            Token::Power => ASSOC_RIGHT,
            _ => ASSOC_LEFT,
        }
    }

    /// Applies this operator to the two values, checking range and zero
    /// divisors.
    pub fn compute(&self, l: i32, r: i32) -> (res: Option<i32>)
        ensures
            match res {
                Some(v) => spec_compute(*self, l as int, r as int) == Some(v as int),
                None => spec_compute(*self, l as int, r as int) is None,
            },
    {
        match self {
            Token::Plus => {
                let s: i64 = l as i64 + r as i64;
                if s < i32::MIN as i64 || s > i32::MAX as i64 {
                    None
                } else {
                    Some(s as i32)
                }
            },
            Token::Minus => {
                let s: i64 = l as i64 - r as i64;
                if s < i32::MIN as i64 || s > i32::MAX as i64 {
                    None
                } else {
                    Some(s as i32)
                }
            },
            Token::Multiply => {
                proof {
                    assert((l as int) * (r as int) <= 0x4000_0000_0000_0000 && (l as int) * (
                    r as int) >= -0x4000_0000_0000_0000) by (nonlinear_arith)
                        requires
                            -0x8000_0000 <= l as int <= 0x7FFF_FFFF,
                            -0x8000_0000 <= r as int <= 0x7FFF_FFFF,
                    ;
                }
                let s: i64 = l as i64 * r as i64;
                if s < i32::MIN as i64 || s > i32::MAX as i64 {
                    None
                } else {
                    Some(s as i32)
                }
            },
            Token::Divide => {
                if r == 0 {
                    return None;
                }
                let la: u64 = if l < 0 {
                    (-(l as i64)) as u64
                } else {
                    l as u64
                };
                let ra: u64 = if r < 0 {
                    (-(r as i64)) as u64
                } else {
                    r as u64
                };
                let q: u64 = la / ra;
                let signed: i64 = if (l < 0) != (r < 0) {
                    -(q as i64)
                } else {
                    q as i64
                };
                proof {
                    assert(q <= la);
                    assert(signed == spec_div_trunc(l as int, r as int));
                }
                if signed < i32::MIN as i64 || signed > i32::MAX as i64 {
                    None
                } else {
                    Some(signed as i32)
                }
            },
            Token::Power => {
                if r < 0 {
                    return None;
                }
                let mut acc: i32 = 1;
                let mut k: i32 = 0;
                while k < r
                    invariant
                        *self == Token::Power,
                        0 <= k <= r,
                        spec_pow_checked(l as int, k as nat) == Some(acc as int),
                    decreases r - k,
                {
                    proof {
                        assert((acc as int) * (l as int) <= 0x4000_0000_0000_0000 && (acc as int)
                            * (l as int) >= -0x4000_0000_0000_0000 && (acc as int) * (l as int) == (
                        l as int) * (acc as int)) by (nonlinear_arith)
                            requires
                                -0x8000_0000 <= acc as int <= 0x7FFF_FFFF,
                                -0x8000_0000 <= l as int <= 0x7FFF_FFFF,
                        ;
                    }
                    let ghost prev: int = acc as int;
                    let next: i64 = acc as i64 * l as i64;
                    if next < i32::MIN as i64 || next > i32::MAX as i64 {
                        proof {
                            assert(spec_pow_checked(l as int, (k + 1) as nat) is None);
                            lemma_pow_none(l as int, (k + 1) as nat, r as nat);
                        }
                        return None;
                    }
                    acc = next as i32;
                    k = k + 1;
                    proof {
                        assert(spec_pow_checked(l as int, k as nat) == Some(acc as int));
                    }
                }
                Some(acc)
            },
            _ => None,
        }
    }
}

/// Once an intermediate power leaves the range, every later power is `None`.
proof fn lemma_pow_none(l: int, k: nat, n: nat)
    requires
        k <= n,
        spec_pow_checked(l, k) is None,
    ensures
        spec_pow_checked(l, n) is None,
    decreases n - k,
{
    if k < n {
        lemma_pow_none(l, (k + 1) as nat, n);
    }
}

/// The blanks the tokenizer steps over.
pub open spec fn spec_is_space(c: char) -> bool {
    c == ' ' || c == '\t' || c == '\n' || c == '\r'
}

/// A decimal digit.
pub open spec fn spec_is_digit(c: char) -> bool {
    48 <= c as u32 <= 57
}

/// The position of the first non-blank character at or after `i`.
pub open spec fn spec_skip_ws(s: Seq<char>, i: int) -> int
    decreases s.len() - i,
{
    if 0 <= i < s.len() && spec_is_space(s[i]) {
        spec_skip_ws(s, i + 1)
    } else {
        i
    }
}

pub proof fn lemma_skip_ws_bounds(s: Seq<char>, i: int)
    requires
        0 <= i <= s.len(),
    ensures
        i <= spec_skip_ws(s, i) <= s.len(),
    decreases s.len() - i,
{
    if i < s.len() && spec_is_space(s[i]) {
        lemma_skip_ws_bounds(s, i + 1);
    }
}

/// The position just past the digit run starting at `i`.
pub open spec fn spec_num_end(s: Seq<char>, i: int) -> int
    decreases s.len() - i,
{
    if 0 <= i < s.len() && spec_is_digit(s[i]) {
        spec_num_end(s, i + 1)
    } else {
        i
    }
}

pub proof fn lemma_num_end_bounds(s: Seq<char>, i: int)
    requires
        0 <= i <= s.len(),
    ensures
        i <= spec_num_end(s, i) <= s.len(),
        i < s.len() && spec_is_digit(s[i]) ==> spec_num_end(s, i) > i,
    decreases s.len() - i,
{
    if i < s.len() && spec_is_digit(s[i]) {
        lemma_num_end_bounds(s, i + 1);
    }
}

/// The value of the digits `s[i..j)` accumulated onto `acc` from the left,
/// or `None` as soon as it exceeds the 32-bit signed maximum.
pub open spec fn spec_num_acc(s: Seq<char>, i: int, j: int, acc: int) -> Option<int>
    decreases j - i,
{
    if i >= j {
        Some(acc)
    } else if !(0 <= i < s.len()) {
        None
    } else {
        let next = acc * 10 + (s[i] as u32) - 48;
        if next > i32::MAX {
            None
        } else {
            spec_num_acc(s, i + 1, j, next)
        }
    }
}

/// The token a single operator or parenthesis character denotes.
pub open spec fn spec_op_token(c: char) -> Option<Token> {
    match c {
        '+' => Some(Token::Plus),
        '-' => Some(Token::Minus),
        '*' => Some(Token::Multiply),
        '/' => Some(Token::Divide),
        '^' => Some(Token::Power),
        '(' => Some(Token::LeftParen),
        ')' => Some(Token::RightParen),
        _ => None,
    }
}

/// The tokens read from `s` starting at `i`: blanks are skipped, a digit run
/// becomes one number, an operator character becomes its token, and the
/// stream ends at the first character that fits neither, or at a number too
/// large for 32 bits.
pub open spec fn spec_tokenize_from(s: Seq<char>, i: int) -> Seq<Token>
    decreases s.len() - i,
{
    let j = spec_skip_ws(s, i);
    if j < i || j >= s.len() {
        Seq::empty()
    } else if spec_is_digit(s[j]) {
        let e = spec_num_end(s, j);
        if e <= j || e > s.len() {
            Seq::empty()
        } else {
            match spec_num_acc(s, j, e, 0) {
                Some(v) => seq![Token::Number(v as i32)] + spec_tokenize_from(s, e),
                None => Seq::empty(),
            }
        }
    } else {
        match spec_op_token(s[j]) {
            Some(t) => seq![t] + spec_tokenize_from(s, j + 1),
            None => Seq::empty(),
        }
    }
}

/// The token stream of a whole source string.
pub open spec fn spec_tokenize(s: Seq<char>) -> Seq<Token> {
    spec_tokenize_from(s, 0)
}

/// Reads a source string left to right, one token per call.
pub struct Tokenizer {
    chars: Vec<char>,
    pos: usize,
}

impl Tokenizer {
    pub closed spec fn wf(self) -> bool {
        self.pos <= self.chars@.len()
    }

    pub closed spec fn text(self) -> Seq<char> {
        self.chars@
    }

    pub closed spec fn at(self) -> int {
        self.pos as int
    }

    /// A tokenizer at the start of the given source text.
    pub fn new(expr: &str) -> (t: Self)
        ensures
            t.wf(),
            t.text() == expr@,
            t.at() == 0,
    {
        let n = expr.unicode_len();
        let mut chars: Vec<char> = Vec::new();
        let mut i: usize = 0;
        while i < n
            invariant
                i <= n,
                n == expr@.len(),
                chars@ =~= expr@.subrange(0, i as int),
            decreases n - i,
        {
            chars.push(expr.get_char(i));
            i = i + 1;
        }
        proof {
            assert(chars@ =~= expr@);
        }
        Tokenizer { chars, pos: 0 }
    }

    /// Steps past blanks.
    fn consume_whitespace(&mut self)
        requires
            old(self).wf(),
        ensures
            final(self).wf(),
            final(self).chars == old(self).chars,
            final(self).pos == spec_skip_ws(old(self).chars@, old(self).pos as int),
    {
        while self.pos < self.chars.len()
            invariant
                self.wf(),
                self.chars == old(self).chars,
                spec_skip_ws(self.chars@, old(self).pos as int) == spec_skip_ws(
                    self.chars@,
                    self.pos as int,
                ),
            decreases self.chars@.len() - self.pos,
        {
            let c = self.chars[self.pos];
            if c == ' ' || c == '\t' || c == '\n' || c == '\r' {
                self.pos = self.pos + 1;
            } else {
                return ;
            }
        }
    }

    /// Reads the digit run at the cursor as one number token; `None` when
    /// there is no digit or the number exceeds the 32-bit signed maximum.
    fn scan_number(&mut self) -> (t: Option<Token>)
        requires
            old(self).wf(),
        ensures
            final(self).wf(),
            final(self).chars == old(self).chars,
            final(self).pos == spec_num_end(old(self).chars@, old(self).pos as int),
            ({
                let s = old(self).chars@;
                let i = old(self).pos as int;
                let e = spec_num_end(s, i);
                match t {
                    Some(tok) => i < e && spec_num_acc(s, i, e, 0) == Some(
                        tok->Number_0 as int,
                    ) && tok is Number,
                    None => i == e || spec_num_acc(s, i, e, 0) is None,
                }
            }),
    {
        let ghost s = self.chars@;
        let ghost i0 = self.pos as int;
        proof {
            lemma_num_end_bounds(s, i0);
        }
        let mut acc: i64 = 0;
        let mut seen: bool = false;
        loop
            invariant_except_break
                self.wf(),
                self.chars == old(self).chars,
                i0 == old(self).pos as int,
                i0 <= self.pos as int <= s.len(),
                s == self.chars@,
                0 <= acc <= i32::MAX,
                seen == (i0 < self.pos as int),
                spec_num_end(s, i0) == spec_num_end(s, self.pos as int),
                spec_num_acc(s, i0, spec_num_end(s, i0), 0) == spec_num_acc(
                    s,
                    self.pos as int,
                    spec_num_end(s, i0),
                    acc as int,
                ),
            ensures
                self.wf(),
                self.chars == old(self).chars,
                s == self.chars@,
                i0 == old(self).pos as int,
                i0 <= self.pos as int <= s.len(),
                self.pos as int == spec_num_end(s, i0),
                seen == (i0 < self.pos as int),
                0 <= acc <= i32::MAX,
                spec_num_acc(s, i0, spec_num_end(s, i0), 0) == Some(acc as int),
            decreases s.len() - self.pos,
        {
            if self.pos >= self.chars.len() {
                break ;
            }
            let c = self.chars[self.pos];
            let cv = c as u32;
            if !(48 <= cv && cv <= 57) {
                break ;
            }
            proof {
                lemma_num_end_bounds(s, self.pos as int);
            }
            let d: i64 = (cv - 48) as i64;
            let next: i64 = acc * 10 + d;
            if next > i32::MAX as i64 {
                proof {
                    assert(spec_num_acc(s, self.pos as int, spec_num_end(s, i0), acc as int)
                        is None);
                }
                self.pos = self.pos + 1;
                // step past the rest of the run, as the failed parse consumed it
                loop
                    invariant_except_break
                        self.wf(),
                        self.chars == old(self).chars,
                        s == self.chars@,
                        i0 == old(self).pos as int,
                        i0 <= self.pos as int <= s.len(),
                        spec_num_end(s, i0) == spec_num_end(s, self.pos as int),
                        spec_num_acc(s, i0, spec_num_end(s, i0), 0) is None,
                    ensures
                        self.wf(),
                        self.chars == old(self).chars,
                        s == self.chars@,
                        i0 == old(self).pos as int,
                        i0 <= self.pos as int <= s.len(),
                        self.pos as int == spec_num_end(s, i0),
                        spec_num_acc(s, i0, spec_num_end(s, i0), 0) is None,
                    decreases s.len() - self.pos,
                {
                    if self.pos >= self.chars.len() {
                        break ;
                    }
                    let cc = self.chars[self.pos] as u32;
                    if !(48 <= cc && cc <= 57) {
                        break ;
                    }
                    self.pos = self.pos + 1;
                }
                return None;
            }
            acc = next;
            seen = true;
            self.pos = self.pos + 1;
        }
        if seen {
            Some(Token::Number(acc as i32))
        } else {
            None
        }
    }

    /// Reads one operator or parenthesis character; consumes it even when it
    /// is none of them.
    fn scan_operator(&mut self) -> (t: Option<Token>)
        requires
            old(self).wf(),
        ensures
            final(self).wf(),
            final(self).chars == old(self).chars,
            old(self).pos == old(self).chars@.len() ==> t is None && final(self).pos == old(
                self).pos,
            old(self).pos < old(self).chars@.len() ==> final(self).pos == old(self).pos + 1 && t
                == spec_op_token(old(self).chars@[old(self).pos as int]),
    {
        if self.pos >= self.chars.len() {
            return None;
        }
        let c = self.chars[self.pos];
        self.pos = self.pos + 1;
        match c {
            '+' => Some(Token::Plus),
            '-' => Some(Token::Minus),
            '*' => Some(Token::Multiply),
            '/' => Some(Token::Divide),
            '^' => Some(Token::Power),
            '(' => Some(Token::LeftParen),
            ')' => Some(Token::RightParen),
            _ => None,
        }
    }

    /// The next token of the stream, or `None` at its end: at the end of the
    /// text, at a character no token starts with, or at an overlong number.
    pub fn next(&mut self) -> (t: Option<Token>)
        requires
            old(self).wf(),
        ensures
            final(self).wf(),
            final(self).text() == old(self).text(),
            match t {
                Some(tok) => spec_tokenize_from(old(self).text(), old(self).at()) == seq![tok]
                    + spec_tokenize_from(final(self).text(), final(self).at()) && final(self).at()
                    > old(self).at(),
                None => spec_tokenize_from(old(self).text(), old(self).at()) == Seq::<
                    Token,
                >::empty() && final(self).at() >= old(self).at(),
            },
    {
        let ghost s = self.chars@;
        let ghost i0 = self.pos as int;
        proof {
            lemma_skip_ws_bounds(s, i0);
        }
        self.consume_whitespace();
        let ghost j = self.pos as int;
        if self.pos >= self.chars.len() {
            return None;
        }
        let c = self.chars[self.pos];
        let cv = c as u32;
        if 48 <= cv && cv <= 57 {
            proof {
                lemma_num_end_bounds(s, j);
            }
            let r = self.scan_number();
            proof {
                if r is Some {
                    assert(spec_tokenize_from(s, i0) == seq![r->0] + spec_tokenize_from(
                        s,
                        self.pos as int,
                    ));
                }
            }
            r
        } else {
            let r = self.scan_operator();
            proof {
                match spec_op_token(s[j]) {
                    Some(tok) => {
                        assert(spec_tokenize_from(s, i0) == seq![tok] + spec_tokenize_from(
                            s,
                            j + 1,
                        ));
                    },
                    None => {
                        assert(spec_tokenize_from(s, i0) == Seq::<Token>::empty());
                    },
                }
            }
            r
        }
    }
}


/// The value and end position an atom starting at `i` denotes: a number, or
/// a parenthesised expression followed by its closing parenthesis.
pub open spec fn spec_atom(t: Seq<Token>, i: int) -> Result<(int, int), ()>
    decreases t.len() - i, 0int,
{
    if !(0 <= i < t.len()) {
        Err(())
    } else {
        match t[i] {
            Token::Number(n) => Ok((n as int, i + 1)),
            Token::LeftParen => match spec_expr(t, i + 1, 1) {
                Err(e) => Err(e),
                Ok((v, j)) => if 0 <= j < t.len() && t[j] is RightParen {
                    Ok((v, j + 1))
                } else {
                    Err(())
                },
            },
            _ => Err(()),
        }
    }
}

/// The value and end position of the expression starting at `i`, combining
/// operators of precedence at least `min_prec`.
pub open spec fn spec_expr(t: Seq<Token>, i: int, min_prec: int) -> Result<(int, int), ()>
    decreases t.len() - i, 1int,
{
    match spec_atom(t, i) {
        Err(e) => Err(e),
        Ok((lhs, j)) => if i < j <= t.len() {
            spec_expr_tail(t, j, lhs, min_prec)
        } else {
            Err(())
        },
    }
}

/// Folds operators of precedence at least `min_prec` onto `lhs` from
/// position `i` on, stopping at a weaker operator or a non-operator.
pub open spec fn spec_expr_tail(t: Seq<Token>, i: int, lhs: int, min_prec: int) -> Result<
    (int, int),
    (),
>
    decreases t.len() - i, 2int,
{
    if !(0 <= i < t.len()) {
        Ok((lhs, i))
    } else {
        let tok = t[i];
        if !spec_is_operator(tok) || spec_precedence(tok) < min_prec {
            Ok((lhs, i))
        } else {
            let next_prec = if spec_assoc(tok) == ASSOC_LEFT {
                spec_precedence(tok) + 1
            } else {
                spec_precedence(tok)
            };
            match spec_expr(t, i + 1, next_prec) {
                Err(e) => Err(e),
                Ok((rhs, j)) => if i < j <= t.len() {
                    match spec_compute(tok, lhs, rhs) {
                        Some(v) => spec_expr_tail(t, j, v, min_prec),
                        None => Err(()),
                    }
                } else {
                    Err(())
                },
            }
        }
    }
}

/// The value of the token stream from `i` on: the expression there, with no
/// token allowed to remain after it.
pub open spec fn spec_eval_at(t: Seq<Token>, i: int) -> Result<int, ()> {
    match spec_expr(t, i, 1) {
        Err(e) => Err(e),
        Ok((v, j)) => if j == t.len() {
            Ok(v)
        } else {
            Err(())
        },
    }
}

/// The value a whole source string evaluates to, or an error: tokenize, then
/// evaluate with every token consumed.
pub open spec fn spec_eval(s: Seq<char>) -> Result<int, ()> {
    spec_eval_at(spec_tokenize(s), 0)
}

/// Why an expression failed to evaluate, with a short account.
#[derive(Debug)]
pub enum ExprError {
    Parse(String),
}

fn parse_err(msg: &str) -> ExprError {
    ExprError::Parse(String::from_str(msg))
}

/// An expression over its token stream, evaluated by precedence climbing.
pub struct Expr {
    toks: Vec<Token>,
    pos: usize,
}

impl Expr {
    pub closed spec fn wf(self) -> bool {
        self.pos <= self.toks@.len()
    }

    /// The token stream being evaluated.
    pub closed spec fn tokens(self) -> Seq<Token> {
        self.toks@
    }

    /// The cursor into the token stream.
    pub closed spec fn at(self) -> int {
        self.pos as int
    }

    /// Tokenizes a source string, ready for one evaluation.
    pub fn new(src: &str) -> (e: Self)
        ensures
            e.wf(),
            e.tokens() == spec_tokenize(src@),
            e.at() == 0,
    {
        let mut tk = Tokenizer::new(src);
        let mut toks: Vec<Token> = Vec::new();
        loop
            invariant_except_break
                tk.wf(),
                tk.text() == src@,
                toks@ + spec_tokenize_from(src@, tk.at()) == spec_tokenize(src@),
            ensures
                toks@ == spec_tokenize(src@),
            decreases src@.len() - tk.at(),
        {
            let ghost before = toks@;
            let ghost at0 = tk.at();
            match tk.next() {
                Some(t) => {
                    toks.push(t);
                    proof {
                        assert(before + spec_tokenize_from(src@, at0) =~= toks@
                            + spec_tokenize_from(src@, tk.at()));
                    }
                },
                None => {
                    proof {
                        assert(toks@ + Seq::<Token>::empty() =~= toks@);
                    }
                    break ;
                },
            }
        }
        Expr { toks, pos: 0 }
    }

    /// Evaluates the whole expression; every token must take part.
    pub fn eval(&mut self) -> (r: Result<i32, ExprError>)
        requires
            old(self).wf(),
        ensures
            final(self).wf(),
            final(self).tokens() == old(self).tokens(),
            match r {
                Ok(v) => spec_eval_at(old(self).tokens(), old(self).at()) == Ok::<int, ()>(
                    v as int,
                ),
                Err(_) => spec_eval_at(old(self).tokens(), old(self).at()) is Err,
            },
    {
        let result = match self.compute_expr(1) {
            Ok(v) => v,
            Err(e) => {
                return Err(e);
            },
        };
        if self.pos < self.toks.len() {
            return Err(parse_err("Unexcepted end of expr"));
        }
        Ok(result)
    }

    /// One atom: a number token, or a parenthesised expression.
    fn compute_atom(&mut self) -> (r: Result<i32, ExprError>)
        requires
            old(self).wf(),
        ensures
            final(self).wf(),
            final(self).toks == old(self).toks,
            match r {
                Ok(v) => spec_atom(old(self).toks@, old(self).pos as int) == Ok::<(int, int), ()>(
                    (v as int, final(self).pos as int),
                ) && old(self).pos < final(self).pos,
                Err(_) => spec_atom(old(self).toks@, old(self).pos as int) is Err,
            },
        decreases self.toks@.len() - self.pos, 0int,
    {
        if self.pos >= self.toks.len() {
            return Err(parse_err("Expecting a number or left parenthesis"));
        }
        let t = self.toks[self.pos];
        match t {
            Token::Number(n) => {
                self.pos = self.pos + 1;
                Ok(n)
            },
            Token::LeftParen => {
                self.pos = self.pos + 1;
                let v = match self.compute_expr(1) {
                    Ok(v) => v,
                    Err(e) => {
                        return Err(e);
                    },
                };
                if self.pos < self.toks.len() {
                    let nt = self.toks[self.pos];
                    self.pos = self.pos + 1;
                    match nt {
                        Token::RightParen => Ok(v),
                        _ => Err(parse_err("Unexcepted character")),
                    }
                } else {
                    Err(parse_err("Unexcepted character"))
                }
            },
            _ => Err(parse_err("Expecting a number or left parenthesis")),
        }
    }

    /// The expression at the cursor, folding operators that bind at least as
    /// strongly as `min_prec`.
    fn compute_expr(&mut self, min_prec: i32) -> (r: Result<i32, ExprError>)
        requires
            old(self).wf(),
        ensures
            final(self).wf(),
            final(self).toks == old(self).toks,
            match r {
                Ok(v) => spec_expr(old(self).toks@, old(self).pos as int, min_prec as int)
                    == Ok::<(int, int), ()>((v as int, final(self).pos as int)) && old(self).pos
                    < final(self).pos,
                Err(_) => spec_expr(old(self).toks@, old(self).pos as int, min_prec as int) is Err,
            },
        decreases self.toks@.len() - self.pos, 1int,
    {
        let ghost t = self.toks@;
        let ghost i0 = self.pos as int;
        let mut atom_lhs = match self.compute_atom() {
            Ok(v) => v,
            Err(e) => {
                return Err(e);
            },
        };
        loop
            invariant_except_break
                self.wf(),
                self.toks == old(self).toks,
                t == self.toks@,
                i0 == old(self).pos as int,
                i0 < self.pos as int <= t.len(),
                spec_expr(t, i0, min_prec as int) == spec_expr_tail(
                    t,
                    self.pos as int,
                    atom_lhs as int,
                    min_prec as int,
                ),
            ensures
                self.wf(),
                self.toks == old(self).toks,
                t == self.toks@,
                i0 == old(self).pos as int,
                i0 < self.pos as int <= t.len(),
                spec_expr(t, i0, min_prec as int) == Ok::<(int, int), ()>(
                    (atom_lhs as int, self.pos as int),
                ),
            decreases t.len() - self.pos,
        {
            if self.pos >= self.toks.len() {
                break ;
            }
            let token = self.toks[self.pos];
            if !token.is_operator() || token.precedence() < min_prec {
                break ;
            }
            let mut next_prec = token.precedence();
            if token.assoc() == ASSOC_LEFT {
                next_prec = next_prec + 1;
            }
            self.pos = self.pos + 1;
            let ghost lhs0: int = atom_lhs as int;
            let ghost tail_pos: int = self.pos as int - 1;
            let atom_rhs = match self.compute_expr(next_prec) {
                Ok(v) => v,
                Err(e) => {
                    return Err(e);
                },
            };
            match token.compute(atom_lhs, atom_rhs) {
                Some(res) => {
                    proof {
                        assert(spec_expr_tail(t, tail_pos, lhs0, min_prec as int)
                            == spec_expr_tail(t, self.pos as int, res as int, min_prec as int));
                    }
                    atom_lhs = res;
                },
                None => {
                    proof {
                        assert(spec_expr_tail(t, tail_pos, lhs0, min_prec as int) is Err);
                    }
                    return Err(parse_err("Unexcepted expr"));
                },
            }
        }
        Ok(atom_lhs)
    }
}

} // verus!
