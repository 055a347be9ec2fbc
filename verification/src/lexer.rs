use vstd::prelude::*;

verus! {

/// A binary operator of the expression language.
#[derive(Debug, Clone, Copy, PartialEq, Eq, Structural)]
pub enum Op {
    Add,
    Sub,
    Mul,
    Div,
    Pow,
}

/// A numeric literal as the tokenizer produced it: either the text of a
/// decimal numeral (digits and at most one dot), or a named constant.
#[derive(Debug, PartialEq)]
pub enum Lit {
    Num(Vec<char>),
    Pi,
    Euler,
    Phi,
}

/// A named function; `Log` and `Root` carry the numeric parameter that was
/// read from the identifier's suffix (as in `log2` or `root3`).
#[derive(Debug, PartialEq)]
pub enum Func {
    Abs,
    Sqrt,
    Log(Lit),
    Sin,
    Cos,
    Tg,
    Ctg,
    Asin,
    Acos,
    Atan,
    Exp,
    Root(Lit),
}

/// A lexical token.
#[derive(Debug, PartialEq)]
pub enum Token {
    Literal(Lit),
    Operator(Op),
    Function(Func),
    LeftBracket,
    RightBracket,
    End,
}

/// An error of the tokenizer.
#[derive(Debug, Clone, Copy, PartialEq, Eq, Structural)]
pub enum LexError {
    UnknownIdentifier,
    InvalidNumber,
    InvalidFunctionArgument,
    UnknownToken(char),
}

/// The mathematical model of a literal: the numeral's characters, or a constant.
pub enum SLit {
    Num(Seq<char>),
    Pi,
    Euler,
    Phi,
}

/// The mathematical model of a function token.
pub enum SFunc {
    Abs,
    Sqrt,
    Log(SLit),
    Sin,
    Cos,
    Tg,
    Ctg,
    Asin,
    Acos,
    Atan,
    Exp,
    Root(SLit),
}

/// The mathematical model of a token.
pub enum SToken {
    Literal(SLit),
    Operator(Op),
    Function(SFunc),
    LeftBracket,
    RightBracket,
    End,
}

impl View for Lit {
    type V = SLit;

    open spec fn view(&self) -> SLit {
        match self {
            Lit::Num(s) => SLit::Num(s@),
            Lit::Pi => SLit::Pi,
            Lit::Euler => SLit::Euler,
            Lit::Phi => SLit::Phi,
        }
    }
}

impl View for Func {
    type V = SFunc;

    open spec fn view(&self) -> SFunc {
        match self {
            Func::Abs => SFunc::Abs,
            Func::Sqrt => SFunc::Sqrt,
            Func::Log(l) => SFunc::Log(l@),
            Func::Sin => SFunc::Sin,
            Func::Cos => SFunc::Cos,
            Func::Tg => SFunc::Tg,
            Func::Ctg => SFunc::Ctg,
            Func::Asin => SFunc::Asin,
            Func::Acos => SFunc::Acos,
            Func::Atan => SFunc::Atan,
            Func::Exp => SFunc::Exp,
            Func::Root(l) => SFunc::Root(l@),
        }
    }
}

impl View for Token {
    type V = SToken;

    open spec fn view(&self) -> SToken {
        match self {
            Token::Literal(l) => SToken::Literal(l@),
            Token::Operator(o) => SToken::Operator(*o),
            Token::Function(f) => SToken::Function(f@),
            Token::LeftBracket => SToken::LeftBracket,
            Token::RightBracket => SToken::RightBracket,
            Token::End => SToken::End,
        }
    }
}

/// The characters the tokenizer skips: those with the Unicode `White_Space`
/// property, the fixed set of twenty-five characters that std's
/// `char::is_whitespace` documents.
pub open spec fn char_is_whitespace(c: char) -> bool {
    c == ' ' || c == '\t' || c == '\n' || c == '\u{0B}' || c == '\u{0C}' || c == '\r' || c
        == '\u{85}' || c == '\u{A0}' || c == '\u{1680}' || c == '\u{2000}' || c == '\u{2001}' || c
        == '\u{2002}' || c == '\u{2003}' || c == '\u{2004}' || c == '\u{2005}' || c == '\u{2006}'
        || c == '\u{2007}' || c == '\u{2008}' || c == '\u{2009}' || c == '\u{200A}' || c
        == '\u{2028}' || c == '\u{2029}' || c == '\u{202F}' || c == '\u{205F}' || c == '\u{3000}'
}

fn is_whitespace_c(c: char) -> (r: bool)
    ensures
        r == char_is_whitespace(c),
{
    c == ' ' || c == '\t' || c == '\n' || c == '\u{0B}' || c == '\u{0C}' || c == '\r' || c
        == '\u{85}' || c == '\u{A0}' || c == '\u{1680}' || c == '\u{2000}' || c == '\u{2001}' || c
        == '\u{2002}' || c == '\u{2003}' || c == '\u{2004}' || c == '\u{2005}' || c == '\u{2006}'
        || c == '\u{2007}' || c == '\u{2008}' || c == '\u{2009}' || c == '\u{200A}' || c
        == '\u{2028}' || c == '\u{2029}' || c == '\u{202F}' || c == '\u{205F}' || c == '\u{3000}'
}

/// The characters that may start and continue an identifier.
pub open spec fn is_letter(c: char) -> bool {
    ('a' <= c && c <= 'z') || ('A' <= c && c <= 'Z')
}

/// A decimal digit.
pub open spec fn is_digit(c: char) -> bool {
    '0' <= c && c <= '9'
}

/// The characters that may appear in a numeral: digits and the dot.
pub open spec fn is_num_char(c: char) -> bool {
    is_digit(c) || c == '.'
}

/// The ASCII lower-case image of a character.
pub open spec fn lower_char(c: char) -> char {
    if 'A' <= c && c <= 'Z' {
        (((c as u32) as u8) + 32) as char
    } else {
        c
    }
}

pub open spec fn lower_seq(s: Seq<char>) -> Seq<char> {
    s.map_values(|c: char| lower_char(c))
}

/// The length of the longest prefix of `s` made of letters.
pub open spec fn letter_run(s: Seq<char>) -> nat
    decreases s.len(),
{
    if s.len() > 0 && is_letter(s[0]) {
        (1 + letter_run(s.drop_first())) as nat
    } else {
        0
    }
}

/// The length of the longest prefix of `s` made of digits and dots.
pub open spec fn num_run(s: Seq<char>) -> nat
    decreases s.len(),
{
    if s.len() > 0 && is_num_char(s[0]) {
        (1 + num_run(s.drop_first())) as nat
    } else {
        0
    }
}

/// How many dots `s` holds.
pub open spec fn dot_count(s: Seq<char>) -> nat
    decreases s.len(),
{
    if s.len() == 0 {
        0
    } else {
        dot_count(s.drop_first()) + (if s[0] == '.' {
            1nat
        } else {
            0nat
        })
    }
}

pub open spec fn has_digit(s: Seq<char>) -> bool {
    exists|i: int| 0 <= i < s.len() && is_digit(#[trigger] s[i])
}

/// A run of digits and dots denotes a number exactly when it holds at least
/// one digit and at most one dot.
pub open spec fn valid_numeral(s: Seq<char>) -> bool {
    has_digit(s) && dot_count(s) <= 1
}

/// The character the stream shows next: the first one left, or the null
/// sentinel once the input is exhausted.
pub open spec fn peek_char(s: Seq<char>) -> char {
    if s.len() > 0 {
        s[0]
    } else {
        '\0'
    }
}

/// The token that starts at the front of `s` (no leading whitespace assumed),
/// together with how many characters it covers; or the tokenizer's error.
/// `log` and `root` read their numeric parameter by taking the next token and
/// requiring it to be a literal.
pub open spec fn spec_parse_token(s: Seq<char>) -> Result<(SToken, nat), LexError>
    decreases s.len(), 1int,
{
    let c = peek_char(s);
    if is_letter(c) {
        let run = letter_run(s);
        let n: int = if run <= s.len() {
            run as int
        } else {
            s.len() as int
        };
        let w = lower_seq(s.take(n));
        if w == "abs"@ {
            Ok((SToken::Function(SFunc::Abs), n as nat))
        } else if w == "sqrt"@ {
            Ok((SToken::Function(SFunc::Sqrt), n as nat))
        } else if w == "log"@ {
            match spec_func_argument(s.skip(n)) {
                Ok((l, m)) => Ok((SToken::Function(SFunc::Log(l)), (n + m) as nat)),
                Err(e) => Err(e),
            }
        } else if w == "sin"@ {
            Ok((SToken::Function(SFunc::Sin), n as nat))
        } else if w == "cos"@ {
            Ok((SToken::Function(SFunc::Cos), n as nat))
        } else if w == "tg"@ || w == "tan"@ {
            Ok((SToken::Function(SFunc::Tg), n as nat))
        } else if w == "ctg"@ || w == "cotan"@ {
            Ok((SToken::Function(SFunc::Ctg), n as nat))
        } else if w == "asin"@ || w == "arcsin"@ {
            Ok((SToken::Function(SFunc::Asin), n as nat))
        } else if w == "acos"@ || w == "arccos"@ {
            Ok((SToken::Function(SFunc::Acos), n as nat))
        } else if w == "atan"@ || w == "arctan"@ {
            Ok((SToken::Function(SFunc::Atan), n as nat))
        } else if w == "exp"@ {
            Ok((SToken::Function(SFunc::Exp), n as nat))
        } else if w == "root"@ {
            match spec_func_argument(s.skip(n)) {
                Ok((l, m)) => Ok((SToken::Function(SFunc::Root(l)), (n + m) as nat)),
                Err(e) => Err(e),
            }
        } else if w == "pi"@ {
            Ok((SToken::Literal(SLit::Pi), n as nat))
        } else if w == "e"@ {
            Ok((SToken::Literal(SLit::Euler), n as nat))
        } else if w == "phi"@ {
            Ok((SToken::Literal(SLit::Phi), n as nat))
        } else {
            Err(LexError::UnknownIdentifier)
        }
    } else if is_num_char(c) {
        let run = num_run(s);
        let n: int = if run <= s.len() {
            run as int
        } else {
            s.len() as int
        };
        let buf = s.take(n);
        if valid_numeral(buf) {
            Ok((SToken::Literal(SLit::Num(buf)), n as nat))
        } else {
            Err(LexError::InvalidNumber)
        }
    } else {
        if c == '(' {
            Ok((SToken::LeftBracket, 1))
        } else if c == ')' {
            Ok((SToken::RightBracket, 1))
        } else if c == '+' {
            Ok((SToken::Operator(Op::Add), 1))
        } else if c == '-' {
            Ok((SToken::Operator(Op::Sub), 1))
        } else if c == '*' {
            Ok((SToken::Operator(Op::Mul), 1))
        } else if c == '/' {
            Ok((SToken::Operator(Op::Div), 1))
        } else if c == '^' {
            Ok((SToken::Operator(Op::Pow), 1))
        } else {
            Err(LexError::UnknownToken(c))
        }
    }
}

/// The numeric parameter of `log` or `root`: the next token, which must be a
/// literal; anything else fails, whatever went wrong.
pub open spec fn spec_func_argument(s: Seq<char>) -> Result<(SLit, nat), LexError>
    decreases s.len(), 2int,
{
    match spec_parse_token(s) {
        Ok((SToken::Literal(l), m)) => Ok((l, m)),
        _ => Err(LexError::InvalidFunctionArgument),
    }
}

/// The whole tokenization of the characters `s`: skip whitespace, read tokens
/// one after the other, stop at the null sentinel or the end of the input.
pub open spec fn spec_lex_from(s: Seq<char>) -> Result<Seq<SToken>, LexError>
    decreases s.len(),
{
    let c = peek_char(s);
    if c == '\0' {
        Ok(Seq::empty())
    } else if char_is_whitespace(c) {
        spec_lex_from(s.drop_first())
    } else {
        match spec_parse_token(s) {
            Ok((t, n)) => {
                let n1: int = if 1 <= n <= s.len() {
                    n as int
                } else {
                    1int
                };
                match spec_lex_from(s.skip(n1)) {
                    Ok(rest) => Ok(seq![t] + rest),
                    Err(e) => Err(e),
                }
            },
            Err(e) => Err(e),
        }
    }
}

pub proof fn lemma_letter_run_le(s: Seq<char>)
    ensures
        letter_run(s) <= s.len(),
    decreases s.len(),
{
    if s.len() > 0 && is_letter(s[0]) {
        lemma_letter_run_le(s.drop_first());
    }
}

pub proof fn lemma_num_run_le(s: Seq<char>)
    ensures
        num_run(s) <= s.len(),
    decreases s.len(),
{
    if s.len() > 0 && is_num_char(s[0]) {
        lemma_num_run_le(s.drop_first());
    }
}

/// A prefix of letters that ends at a non-letter (or at the end) is the
/// letter run.
pub proof fn lemma_letter_run_exact(s: Seq<char>, k: int)
    requires
        0 <= k <= s.len(),
        forall|i: int| 0 <= i < k ==> is_letter(#[trigger] s[i]),
        k == s.len() || !is_letter(s[k]),
    ensures
        letter_run(s) == k,
    decreases s.len(),
{
    if k == 0 {
    } else {
        assert(is_letter(s[0]));
        lemma_letter_run_exact(s.drop_first(), k - 1);
    }
}

pub proof fn lemma_num_run_exact(s: Seq<char>, k: int)
    requires
        0 <= k <= s.len(),
        forall|i: int| 0 <= i < k ==> is_num_char(#[trigger] s[i]),
        k == s.len() || !is_num_char(s[k]),
    ensures
        num_run(s) == k,
    decreases s.len(),
{
    if k == 0 {
    } else {
        assert(is_num_char(s[0]));
        lemma_num_run_exact(s.drop_first(), k - 1);
    }
}

pub proof fn lemma_dot_count_snoc(s: Seq<char>, c: char)
    ensures
        dot_count(s.push(c)) == dot_count(s) + (if c == '.' {
            1nat
        } else {
            0nat
        }),
    decreases s.len(),
{
    if s.len() == 0 {
        assert(s.push(c)[0] == c);
        assert(s.push(c).drop_first() =~= Seq::<char>::empty());
        assert(dot_count(Seq::<char>::empty()) == 0);
    } else {
        assert(s.push(c)[0] == s[0]);
        assert(s.push(c).drop_first() =~= s.drop_first().push(c));
        lemma_dot_count_snoc(s.drop_first(), c);
    }
}

/// A token, when one is read, covers at least one character and no more than
/// the stream holds.
pub proof fn lemma_parse_token_bounds(s: Seq<char>)
    ensures
        spec_parse_token(s) matches Ok(p) ==> 1 <= p.1 <= s.len(),
    decreases s.len(), 1int,
{
    let c = peek_char(s);
    if is_letter(c) {
        lemma_letter_run_le(s);
        let run = letter_run(s);
        let n: int = if run <= s.len() {
            run as int
        } else {
            s.len() as int
        };
        lemma_func_argument_bounds(s.skip(n));
        assert(s.skip(n).len() == s.len() - n);
    } else if is_num_char(c) {
        lemma_num_run_le(s);
    } else {
    }
}

pub proof fn lemma_func_argument_bounds(s: Seq<char>)
    ensures
        spec_func_argument(s) matches Ok(p) ==> 1 <= p.1 <= s.len(),
    decreases s.len(), 2int,
{
    lemma_parse_token_bounds(s);
}

/// A cursor over the input's characters, with one-character lookahead and the
/// null sentinel for the end of the input.
pub struct CharStream {
    chars: Vec<char>,
    index: usize,
}

impl CharStream {
    pub closed spec fn wf(&self) -> bool {
        self.index <= self.chars@.len()
    }

    /// The characters not yet consumed.
    pub closed spec fn remaining(&self) -> Seq<char> {
        self.chars@.skip(self.index as int)
    }

    pub fn new(input: &str) -> (r: CharStream)
        ensures
            r.wf(),
            r.remaining() == input@,
    {
        let n = input.unicode_len();
        let mut chars: Vec<char> = Vec::new();
        let mut i: usize = 0;
        while i < n
            invariant
                i <= n,
                n == input@.len(),
                chars@ == input@.take(i as int),
            decreases n - i,
        {
            chars.push(input.get_char(i));
            i = i + 1;
            proof {
                assert(chars@ =~= input@.take(i as int));
            }
        }
        proof {
            assert(chars@ =~= input@);
        }
        let r = CharStream { chars, index: 0 };
        proof {
            assert(r.remaining() =~= input@);
        }
        r
    }

    pub fn peek(&self) -> (c: char)
        requires
            self.wf(),
        ensures
            c == peek_char(self.remaining()),
    {
        if self.index < self.chars.len() {
            self.chars[self.index]
        } else {
            '\0'
        }
    }

    pub fn next(&mut self) -> (c: char)
        requires
            old(self).wf(),
        ensures
            final(self).wf(),
            c == peek_char(old(self).remaining()),
            old(self).remaining().len() > 0 ==> final(self).remaining() == old(
                self,
            ).remaining().drop_first(),
            old(self).remaining().len() == 0 ==> final(self).remaining() == old(self).remaining(),
    {
        let c = self.peek();
        if self.index < self.chars.len() {
            self.index = self.index + 1;
            proof {
                assert(self.remaining() =~= old(self).remaining().drop_first());
            }
        }
        c
    }
}

fn copy_chars(v: &Vec<char>) -> (r: Vec<char>)
    ensures
        r@ == v@,
{
    let mut r: Vec<char> = Vec::new();
    let mut i: usize = 0;
    while i < v.len()
        invariant
            i <= v@.len(),
            r@ == v@.take(i as int),
        decreases v@.len() - i,
    {
        r.push(v[i]);
        i = i + 1;
        proof {
            assert(r@ =~= v@.take(i as int));
        }
    }
    proof {
        assert(r@ =~= v@);
    }
    r
}

impl Clone for Lit {
    fn clone(&self) -> (r: Self)
        ensures
            r@ == self@,
    {
        match self {
            Lit::Num(s) => Lit::Num(copy_chars(s)),
            Lit::Pi => Lit::Pi,
            Lit::Euler => Lit::Euler,
            Lit::Phi => Lit::Phi,
        }
    }
}

impl Clone for Func {
    fn clone(&self) -> (r: Self)
        ensures
            r@ == self@,
    {
        match self {
            Func::Abs => Func::Abs,
            Func::Sqrt => Func::Sqrt,
            Func::Log(l) => Func::Log(l.clone()),
            Func::Sin => Func::Sin,
            Func::Cos => Func::Cos,
            Func::Tg => Func::Tg,
            Func::Ctg => Func::Ctg,
            Func::Asin => Func::Asin,
            Func::Acos => Func::Acos,
            Func::Atan => Func::Atan,
            Func::Exp => Func::Exp,
            Func::Root(l) => Func::Root(l.clone()),
        }
    }
}

impl Clone for Token {
    fn clone(&self) -> (r: Self)
        ensures
            r@ == self@,
    {
        match self {
            Token::Literal(l) => Token::Literal(l.clone()),
            Token::Operator(o) => Token::Operator(*o),
            Token::Function(f) => Token::Function(f.clone()),
            Token::LeftBracket => Token::LeftBracket,
            Token::RightBracket => Token::RightBracket,
            Token::End => Token::End,
        }
    }
}

fn is_letter_c(c: char) -> (r: bool)
    ensures
        r == is_letter(c),
{
    ('a' <= c && c <= 'z') || ('A' <= c && c <= 'Z')
}

fn is_num_c(c: char) -> (r: bool)
    ensures
        r == is_num_char(c),
{
    ('0' <= c && c <= '9') || c == '.'
}

fn lower_c(c: char) -> (r: char)
    ensures
        r == lower_char(c),
{
    if 'A' <= c && c <= 'Z' {
        (((c as u32) as u8) + 32) as char
    } else {
        c
    }
}

fn eq_kw(buf: &Vec<char>, kw: &str) -> (r: bool)
    ensures
        r == (buf@ == kw@),
{
    let n = kw.unicode_len();
    if buf.len() != n {
        proof {
            assert(buf@ != kw@);
        }
        return false;
    }
    let mut i: usize = 0;
    while i < n
        invariant
            i <= n,
            n == kw@.len(),
            buf@.len() == n,
            forall|j: int| 0 <= j < i ==> buf@[j] == kw@[j],
        decreases n - i,
    {
        if buf[i] != kw.get_char(i) {
            proof {
                assert(buf@[i as int] != kw@[i as int]);
            }
            return false;
        }
        i = i + 1;
    }
    proof {
        assert(buf@ =~= kw@);
    }
    true
}

fn numeral_ok(buf: &Vec<char>) -> (r: bool)
    ensures
        r == valid_numeral(buf@),
{
    let mut dots: usize = 0;
    let mut digit = false;
    let mut i: usize = 0;
    while i < buf.len()
        invariant
            i <= buf@.len(),
            dots <= i,
            dots == dot_count(buf@.take(i as int)),
            digit == has_digit(buf@.take(i as int)),
        decreases buf@.len() - i,
    {
        let c = buf[i];
        proof {
            assert(buf@.take(i + 1) =~= buf@.take(i as int).push(buf@[i as int]));
            lemma_dot_count_snoc(buf@.take(i as int), buf@[i as int]);
        }
        if c == '.' {
            dots = dots + 1;
        }
        if '0' <= c && c <= '9' {
            digit = true;
            proof {
                assert(is_digit(buf@.take(i + 1)[i as int]));
            }
        } else {
            proof {
                if has_digit(buf@.take(i + 1)) {
                    let j = choose|j: int|
                        0 <= j < buf@.take(i + 1).len() && is_digit(#[trigger] buf@.take(i + 1)[j]);
                    if j < i {
                        assert(is_digit(buf@.take(i as int)[j]));
                    }
                }
            }
        }
        i = i + 1;
    }
    proof {
        assert(buf@.take(buf@.len() as int) =~= buf@);
    }
    digit && dots <= 1
}

/// The sequence of tokens read from a line of input, with a cursor for
/// one-token lookahead; `End` is synthesized once the tokens are exhausted.
#[derive(Debug)]
pub struct Lexer {
    index: usize,
    tokens: Vec<Token>,
}

/// The token the parser sees next: the first one left, or `End` once the
/// sequence is exhausted.
pub open spec fn tpeek(ts: Seq<SToken>) -> SToken {
    if ts.len() > 0 {
        ts[0]
    } else {
        SToken::End
    }
}

/// Prepends already-read tokens to the outcome of tokenizing the rest.
pub open spec fn lex_concat(pre: Seq<SToken>, r: Result<Seq<SToken>, LexError>) -> Result<
    Seq<SToken>,
    LexError,
> {
    match r {
        Ok(rest) => Ok(pre + rest),
        Err(e) => Err(e),
    }
}

impl View for Lexer {
    type V = Seq<SToken>;

    /// The tokens not yet consumed.
    closed spec fn view(&self) -> Seq<SToken> {
        self.tokens@.map_values(|t: Token| t@).skip(self.index as int)
    }
}

impl Lexer {
    pub closed spec fn wf(&self) -> bool {
        self.index <= self.tokens@.len()
    }

    fn parse_func_argument(stream: &mut CharStream) -> (r: Result<Lit, LexError>)
        requires
            old(stream).wf(),
        ensures
            final(stream).wf(),
            ({
                let sp = spec_func_argument(old(stream).remaining());
                match r {
                    Ok(l) => sp is Ok && l@ == sp->Ok_0.0 && final(stream).remaining() == old(
                        stream,
                    ).remaining().skip(sp->Ok_0.1 as int),
                    Err(e) => sp is Err && e == sp->Err_0,
                }
            }),
        decreases old(stream).remaining().len(), 2int,
    {
        match Self::parse_token(stream) {
            Ok(t) => match t {
                Token::Literal(l) => Ok(l),
                _ => Err(LexError::InvalidFunctionArgument),
            },
            Err(_) => Err(LexError::InvalidFunctionArgument),
        }
    }

    fn parse_token(stream: &mut CharStream) -> (r: Result<Token, LexError>)
        requires
            old(stream).wf(),
        ensures
            final(stream).wf(),
            ({
                let sp = spec_parse_token(old(stream).remaining());
                match r {
                    Ok(t) => sp is Ok && t@ == sp->Ok_0.0 && final(stream).remaining() == old(
                        stream,
                    ).remaining().skip(sp->Ok_0.1 as int),
                    Err(e) => sp is Err && e == sp->Err_0,
                }
            }),
        decreases old(stream).remaining().len(), 1int,
    {
        let ghost s0 = stream.remaining();
        let mut c = stream.peek();

        if is_letter_c(c) {
            let mut buf: Vec<char> = Vec::new();
            while is_letter_c(c)
                invariant
                    stream.wf(),
                    c == peek_char(stream.remaining()),
                    buf@.len() <= s0.len(),
                    stream.remaining() == s0.skip(buf@.len() as int),
                    forall|j: int| 0 <= j < buf@.len() ==> is_letter(#[trigger] s0[j]),
                    buf@ == lower_seq(s0.take(buf@.len() as int)),
                decreases stream.remaining().len(),
            {
                proof {
                    assert(stream.remaining().len() > 0);
                    assert(c == s0[buf@.len() as int]);
                }
                let ghost k = buf@.len() as int;
                buf.push(lower_c(c));
                stream.next();
                c = stream.peek();
                proof {
                    assert(stream.remaining() =~= s0.skip(k + 1));
                    assert(s0.take(k + 1) =~= s0.take(k).push(s0[k]));
                    assert(buf@ =~= lower_seq(s0.take(k + 1)));
                }
            }
            let ghost k = buf@.len() as int;
            proof {
                if k < s0.len() {
                    assert(peek_char(s0.skip(k)) == s0[k]);
                }
                lemma_letter_run_exact(s0, k);
            }
            if eq_kw(&buf, "abs") {
                return Ok(Token::Function(Func::Abs));
            }
            if eq_kw(&buf, "sqrt") {
                return Ok(Token::Function(Func::Sqrt));
            }
            if eq_kw(&buf, "log") {
                proof {
                    lemma_func_argument_bounds(s0.skip(k));
                }
                return match Self::parse_func_argument(stream) {
                    Ok(l) => {
                        proof {
                            let m = spec_func_argument(s0.skip(k))->Ok_0.1 as int;
                            assert(s0.skip(k).skip(m) =~= s0.skip(k + m));
                        }
                        Ok(Token::Function(Func::Log(l)))
                    },
                    Err(e) => Err(e),
                };
            }
            if eq_kw(&buf, "sin") {
                return Ok(Token::Function(Func::Sin));
            }
            if eq_kw(&buf, "cos") {
                return Ok(Token::Function(Func::Cos));
            }
            if eq_kw(&buf, "tg") || eq_kw(&buf, "tan") {
                return Ok(Token::Function(Func::Tg));
            }
            if eq_kw(&buf, "ctg") || eq_kw(&buf, "cotan") {
                return Ok(Token::Function(Func::Ctg));
            }
            if eq_kw(&buf, "asin") || eq_kw(&buf, "arcsin") {
                return Ok(Token::Function(Func::Asin));
            }
            if eq_kw(&buf, "acos") || eq_kw(&buf, "arccos") {
                return Ok(Token::Function(Func::Acos));
            }
            if eq_kw(&buf, "atan") || eq_kw(&buf, "arctan") {
                return Ok(Token::Function(Func::Atan));
            }
            if eq_kw(&buf, "exp") {
                return Ok(Token::Function(Func::Exp));
            }
            if eq_kw(&buf, "root") {
                proof {
                    lemma_func_argument_bounds(s0.skip(k));
                }
                return match Self::parse_func_argument(stream) {
                    Ok(l) => {
                        proof {
                            let m = spec_func_argument(s0.skip(k))->Ok_0.1 as int;
                            assert(s0.skip(k).skip(m) =~= s0.skip(k + m));
                        }
                        Ok(Token::Function(Func::Root(l)))
                    },
                    Err(e) => Err(e),
                };
            }
            if eq_kw(&buf, "pi") {
                return Ok(Token::Literal(Lit::Pi));
            }
            if eq_kw(&buf, "e") {
                return Ok(Token::Literal(Lit::Euler));
            }
            if eq_kw(&buf, "phi") {
                return Ok(Token::Literal(Lit::Phi));
            }
            return Err(LexError::UnknownIdentifier);
        }

        if is_num_c(c) {
            let mut buf: Vec<char> = Vec::new();
            while is_num_c(c)
                invariant
                    stream.wf(),
                    c == peek_char(stream.remaining()),
                    buf@.len() <= s0.len(),
                    stream.remaining() == s0.skip(buf@.len() as int),
                    forall|j: int| 0 <= j < buf@.len() ==> is_num_char(#[trigger] s0[j]),
                    buf@ == s0.take(buf@.len() as int),
                decreases stream.remaining().len(),
            {
                proof {
                    assert(stream.remaining().len() > 0);
                    assert(c == s0[buf@.len() as int]);
                }
                let ghost k = buf@.len() as int;
                buf.push(c);
                stream.next();
                c = stream.peek();
                proof {
                    assert(stream.remaining() =~= s0.skip(k + 1));
                    assert(buf@ =~= s0.take(k + 1));
                }
            }
            let ghost k = buf@.len() as int;
            proof {
                if k < s0.len() {
                    assert(peek_char(s0.skip(k)) == s0[k]);
                }
                lemma_num_run_exact(s0, k);
            }
            if numeral_ok(&buf) {
                return Ok(Token::Literal(Lit::Num(buf)));
            }
            return Err(LexError::InvalidNumber);
        }

        stream.next();
        proof {
            if s0.len() > 0 {
                assert(stream.remaining() =~= s0.skip(1));
            }
        }
        match c {
            '(' => Ok(Token::LeftBracket),
            ')' => Ok(Token::RightBracket),
            '+' => Ok(Token::Operator(Op::Add)),
            '-' => Ok(Token::Operator(Op::Sub)),
            '*' => Ok(Token::Operator(Op::Mul)),
            '/' => Ok(Token::Operator(Op::Div)),
            '^' => Ok(Token::Operator(Op::Pow)),
            _ => Err(LexError::UnknownToken(c)),
        }
    }

    fn new(input: &str) -> (r: Result<Lexer, LexError>)
        ensures
            ({
                let sp = spec_lex_from(input@);
                match r {
                    Ok(l) => l.wf() && sp == Ok::<Seq<SToken>, LexError>(l@),
                    Err(e) => sp == Err::<Seq<SToken>, LexError>(e),
                }
            }),
    {
        let mut stream = CharStream::new(input);
        let ghost s_all = stream.remaining();
        let mut tokens: Vec<Token> = Vec::new();

        while stream.peek() != '\0'
            invariant
                stream.wf(),
                s_all == input@,
                spec_lex_from(s_all) == lex_concat(
                    tokens@.map_values(|t: Token| t@),
                    spec_lex_from(stream.remaining()),
                ),
            decreases stream.remaining().len(),
        {
            let c = stream.peek();
            if is_whitespace_c(c) {
                proof {
                    assert(stream.remaining().len() > 0);
                }
                stream.next();
            } else {
                let ghost rem = stream.remaining();
                let ghost pre = tokens@.map_values(|t: Token| t@);
                match Self::parse_token(&mut stream) {
                    Ok(t) => {
                        proof {
                            lemma_parse_token_bounds(rem);
                        }
                        let ghost tv = t@;
                        tokens.push(t);
                        proof {
                            let pre2 = tokens@.map_values(|t: Token| t@);
                            assert(pre2 =~= pre.push(tv));
                            let sub = spec_lex_from(stream.remaining());
                            if sub is Ok {
                                let rest = sub->Ok_0;
                                assert(pre + (seq![tv] + rest) =~= pre2 + rest);
                            }
                        }
                    },
                    Err(e) => {
                        proof {
                            assert(spec_lex_from(rem) == Err::<Seq<SToken>, LexError>(e));
                        }
                        return Err(e);
                    },
                }
            }
        }
        proof {
            let pre = tokens@.map_values(|t: Token| t@);
            assert(spec_lex_from(stream.remaining()) == Ok::<Seq<SToken>, LexError>(Seq::empty()));
            assert(pre + Seq::<SToken>::empty() =~= pre);
        }
        let r = Lexer { index: 0, tokens };
        proof {
            assert(r@ =~= r.tokens@.map_values(|t: Token| t@));
        }
        Ok(r)
    }

    /// The next token, without consuming it.
    pub fn peek(&self) -> (t: Token)
        requires
            self.wf(),
        ensures
            t@ == tpeek(self@),
    {
        if self.index < self.tokens.len() {
            self.tokens[self.index].clone()
        } else {
            Token::End
        }
    }

    /// The next token, consuming it; `End` once the sequence is exhausted.
    pub fn next(&mut self) -> (t: Token)
        requires
            old(self).wf(),
        ensures
            final(self).wf(),
            t@ == tpeek(old(self)@),
            old(self)@.len() > 0 ==> final(self)@ == old(self)@.drop_first(),
            old(self)@.len() == 0 ==> final(self)@ == old(self)@,
    {
        let t = self.peek();
        if self.index < self.tokens.len() {
            self.index = self.index + 1;
            proof {
                assert(self@ =~= old(self)@.drop_first());
            }
        }
        t
    }
}

/// A literal carries a well-formed numeral: digits and dots with at least
/// one digit and at most one dot, or a named constant.
pub open spec fn slit_valid(l: SLit) -> bool {
    match l {
        SLit::Num(s) => valid_numeral(s),
        _ => true,
    }
}

/// The numerals a token carries are well-formed: a literal's own, and the
/// parameter of `log` or `root`.
pub open spec fn stoken_valid(t: SToken) -> bool {
    match t {
        SToken::Literal(l) => slit_valid(l),
        SToken::Function(f) => match f {
            SFunc::Log(l) => slit_valid(l),
            SFunc::Root(l) => slit_valid(l),
            _ => true,
        },
        _ => true,
    }
}

pub proof fn lemma_parse_token_valid(s: Seq<char>)
    ensures
        spec_parse_token(s) matches Ok(p) ==> stoken_valid(p.0),
    decreases s.len(), 1int,
{
    let c = peek_char(s);
    if is_letter(c) {
        let run = letter_run(s);
        let n: int = if run <= s.len() {
            run as int
        } else {
            s.len() as int
        };
        lemma_func_argument_valid(s.skip(n));
    }
}

pub proof fn lemma_func_argument_valid(s: Seq<char>)
    ensures
        spec_func_argument(s) matches Ok(p) ==> slit_valid(p.0),
    decreases s.len(), 2int,
{
    lemma_parse_token_valid(s);
}

/// Every token of the sequence carries only well-formed numerals.
pub open spec fn stokens_valid(ts: Seq<SToken>) -> bool {
    forall|i: int| 0 <= i < ts.len() ==> stoken_valid(#[trigger] ts[i])
}

/// Every token of a successful tokenization carries only well-formed
/// numerals, so reading any of them as a number cannot fail downstream.
/// (The parser only moves literals; it makes no new ones.)
pub proof fn lemma_lex_valid(s: Seq<char>)
    ensures
        spec_lex_from(s) matches Ok(ts) ==> stokens_valid(ts),
    decreases s.len(),
{
    let c = peek_char(s);
    if c == '\0' {
    } else if char_is_whitespace(c) {
        lemma_lex_valid(s.drop_first());
    } else {
        match spec_parse_token(s) {
            Ok((t, n)) => {
                lemma_parse_token_valid(s);
                let n1: int = if 1 <= n <= s.len() {
                    n as int
                } else {
                    1int
                };
                lemma_lex_valid(s.skip(n1));
                match spec_lex_from(s.skip(n1)) {
                    Ok(rest) => {
                        assert forall|i: int|
                            0 <= i < (seq![t] + rest).len() implies stoken_valid(
                            #[trigger] (seq![t] + rest)[i],
                        ) by {
                            if i == 0 {
                                assert((seq![t] + rest)[0] == t);
                            } else {
                                assert((seq![t] + rest)[i] == rest[i - 1]);
                            }
                        }
                    },
                    Err(_) => {},
                }
            },
            Err(_) => {},
        }
    }
}

/// Tokenization is deterministic: any two results that the tokenizer's
/// contract admits for the same characters are the same.
pub proof fn lemma_tokenize_deterministic(
    s: Seq<char>,
    r1: Result<Seq<SToken>, LexError>,
    r2: Result<Seq<SToken>, LexError>,
)
    requires
        r1 == spec_lex_from(s),
        r2 == spec_lex_from(s),
    ensures
        r1 == r2,
{
}

/// Turns a line of text into its token sequence, or the first lexical error.
pub fn tokenize(input: &str) -> (r: Result<Lexer, LexError>)
    ensures
        ({
            let sp = spec_lex_from(input@);
            match r {
                Ok(l) => l.wf() && sp == Ok::<Seq<SToken>, LexError>(l@),
                Err(e) => sp == Err::<Seq<SToken>, LexError>(e),
            }
        }),
{
    Lexer::new(input)
}

} // verus!

