use crate::lexer::{
    lemma_lex_valid, slit_valid, spec_lex_from, stoken_valid, stokens_valid, tpeek, Func, LexError,
    Lexer, Lit, Op, SFunc, SLit, SToken, Token,
};
use vstd::prelude::*;

verus! {

/// A node of the abstract syntax tree. Each node owns its children; a tree
/// is built bottom-up by the parser and consumed by evaluation.
///
/// `Neg` records a unary minus, whose operand belongs to the parse stage:
/// the negated value is meant to be computed eagerly, before evaluation of
/// the whole tree begins. The arithmetic itself cannot live in this library,
/// so the parser records the negation and its caller folds every `Neg` into
/// a plain value immediately after the grammar accepts the line, reporting a
/// failed fold as a parse-stage error. One shade of the staging is thereby
/// coarsened: a syntax error elsewhere in the line is reported even when a
/// negated operand's fold would also have failed.
#[derive(Debug, PartialEq)]
pub enum Node {
    Immediate(Lit),
    Neg(Box<Node>),
    BinOp(Op, Box<Node>, Box<Node>),
    Func(Func, Box<Node>),
}

/// The mathematical model of a syntax tree.
pub enum SNode {
    Immediate(SLit),
    Neg(Box<SNode>),
    BinOp(Op, Box<SNode>, Box<SNode>),
    Func(SFunc, Box<SNode>),
}

impl View for Node {
    type V = SNode;

    open spec fn view(&self) -> SNode
        decreases self,
    {
        match self {
            Node::Immediate(l) => SNode::Immediate(l@),
            Node::Neg(n) => SNode::Neg(Box::new((**n)@)),
            Node::BinOp(o, a, b) => SNode::BinOp(*o, Box::new((**a)@), Box::new((**b)@)),
            Node::Func(f, a) => SNode::Func(f@, Box::new((**a)@)),
        }
    }
}

/// An error of the parser.
#[derive(Debug, Clone, Copy, PartialEq, Eq, Structural)]
pub enum ParseError {
    UnexpectedToken,
    MismatchedParenthesis,
}

/// A primary expression: a literal, a unary minus (refused inside a
/// function-argument context, where `bracket` is set), or a parenthesized
/// expression. The pair returned is the node and the tokens left over.
pub open spec fn spec_primary(ts: Seq<SToken>, bracket: bool) -> Result<
    (SNode, Seq<SToken>),
    ParseError,
>
    decreases ts.len(), 0int,
{
    let rest = if ts.len() > 0 {
        ts.drop_first()
    } else {
        ts
    };
    match tpeek(ts) {
        SToken::Operator(Op::Sub) => {
            if !bracket {
                match spec_primary(rest, false) {
                    Ok((n, r2)) => Ok((SNode::Neg(Box::new(n)), r2)),
                    Err(e) => Err(e),
                }
            } else {
                Err(ParseError::UnexpectedToken)
            }
        },
        SToken::Literal(l) => {
            if !bracket {
                Ok((SNode::Immediate(l), rest))
            } else {
                Err(ParseError::UnexpectedToken)
            }
        },
        SToken::LeftBracket => {
            match spec_additive(rest) {
                Ok((n, r2)) => {
                    if tpeek(r2) is RightBracket {
                        Ok((n, r2.drop_first()))
                    } else {
                        Err(ParseError::MismatchedParenthesis)
                    }
                },
                Err(e) => Err(e),
            }
        },
        _ => Err(ParseError::UnexpectedToken),
    }
}

/// A function application: a function token binds a single argument, which
/// must be parsed in the restricted `bracket` context; anything else is a
/// primary expression.
pub open spec fn spec_func(ts: Seq<SToken>) -> Result<(SNode, Seq<SToken>), ParseError>
    decreases ts.len(), 1int,
{
    match tpeek(ts) {
        SToken::Function(f) => {
            match spec_primary(ts.drop_first(), true) {
                Ok((a, r)) => Ok((SNode::Func(f, Box::new(a)), r)),
                Err(e) => Err(e),
            }
        },
        _ => spec_primary(ts, false),
    }
}

/// Folds further `^` applications onto `acc`, left-associatively.
pub open spec fn spec_power_loop(acc: SNode, ts: Seq<SToken>) -> Result<
    (SNode, Seq<SToken>),
    ParseError,
>
    decreases ts.len(), 2int,
{
    match tpeek(ts) {
        SToken::Operator(Op::Pow) => {
            match spec_func(ts.drop_first()) {
                Ok((rhs, r2)) => {
                    let folded = SNode::BinOp(Op::Pow, Box::new(acc), Box::new(rhs));
                    if r2.len() < ts.len() {
                        spec_power_loop(folded, r2)
                    } else {
                        Ok((folded, r2))
                    }
                },
                Err(e) => Err(e),
            }
        },
        _ => Ok((acc, ts)),
    }
}

/// The `^` tier. `a ^ b ^ c` groups as `(a ^ b) ^ c`.
pub open spec fn spec_power(ts: Seq<SToken>) -> Result<(SNode, Seq<SToken>), ParseError>
    decreases ts.len(), 3int,
{
    match spec_func(ts) {
        Ok((l, r1)) => {
            if r1.len() < ts.len() {
                spec_power_loop(l, r1)
            } else {
                Ok((l, r1))
            }
        },
        Err(e) => Err(e),
    }
}

/// Folds further `*` and `/` applications onto `acc`, left-associatively.
pub open spec fn spec_mult_loop(acc: SNode, ts: Seq<SToken>) -> Result<
    (SNode, Seq<SToken>),
    ParseError,
>
    decreases ts.len(), 4int,
{
    match tpeek(ts) {
        SToken::Operator(o) => {
            if o == Op::Mul || o == Op::Div {
                match spec_power(ts.drop_first()) {
                    Ok((rhs, r2)) => {
                        let folded = SNode::BinOp(o, Box::new(acc), Box::new(rhs));
                        if r2.len() < ts.len() {
                            spec_mult_loop(folded, r2)
                        } else {
                            Ok((folded, r2))
                        }
                    },
                    Err(e) => Err(e),
                }
            } else {
                Ok((acc, ts))
            }
        },
        _ => Ok((acc, ts)),
    }
}

/// The `*` and `/` tier, left-associative.
pub open spec fn spec_mult(ts: Seq<SToken>) -> Result<(SNode, Seq<SToken>), ParseError>
    decreases ts.len(), 5int,
{
    match spec_power(ts) {
        Ok((l, r1)) => {
            if r1.len() < ts.len() {
                spec_mult_loop(l, r1)
            } else {
                Ok((l, r1))
            }
        },
        Err(e) => Err(e),
    }
}

/// Folds further `+` and `-` applications onto `acc`, left-associatively.
pub open spec fn spec_additive_loop(acc: SNode, ts: Seq<SToken>) -> Result<
    (SNode, Seq<SToken>),
    ParseError,
>
    decreases ts.len(), 6int,
{
    match tpeek(ts) {
        SToken::Operator(o) => {
            if o == Op::Add || o == Op::Sub {
                match spec_mult(ts.drop_first()) {
                    Ok((rhs, r2)) => {
                        let folded = SNode::BinOp(o, Box::new(acc), Box::new(rhs));
                        if r2.len() < ts.len() {
                            spec_additive_loop(folded, r2)
                        } else {
                            Ok((folded, r2))
                        }
                    },
                    Err(e) => Err(e),
                }
            } else {
                Ok((acc, ts))
            }
        },
        _ => Ok((acc, ts)),
    }
}

/// The `+` and `-` tier, left-associative: a whole expression.
pub open spec fn spec_additive(ts: Seq<SToken>) -> Result<(SNode, Seq<SToken>), ParseError>
    decreases ts.len(), 7int,
{
    match spec_mult(ts) {
        Ok((l, r1)) => {
            if r1.len() < ts.len() {
                spec_additive_loop(l, r1)
            } else {
                Ok((l, r1))
            }
        },
        Err(e) => Err(e),
    }
}

/// A full parse: one expression, after which only `End` may follow. A stray
/// token after the expression is refused, so a successful parse corresponds
/// to a fully consumed token sequence.
pub open spec fn spec_expression(ts: Seq<SToken>) -> Result<SNode, ParseError> {
    match spec_additive(ts) {
        Ok((n, rest)) => {
            if tpeek(rest) is End {
                Ok(n)
            } else {
                Err(ParseError::UnexpectedToken)
            }
        },
        Err(e) => Err(e),
    }
}

pub proof fn lemma_primary_bounds(ts: Seq<SToken>, bracket: bool)
    ensures
        spec_primary(ts, bracket) matches Ok(p) ==> p.1.len() < ts.len(),
    decreases ts.len(), 0int,
{
    let rest = if ts.len() > 0 {
        ts.drop_first()
    } else {
        ts
    };
    match tpeek(ts) {
        SToken::Operator(Op::Sub) => {
            if !bracket {
                lemma_primary_bounds(rest, false);
            }
        },
        SToken::LeftBracket => {
            lemma_additive_bounds(rest);
        },
        _ => {},
    }
}

pub proof fn lemma_func_bounds(ts: Seq<SToken>)
    ensures
        spec_func(ts) matches Ok(p) ==> p.1.len() < ts.len(),
    decreases ts.len(), 1int,
{
    match tpeek(ts) {
        SToken::Function(f) => {
            lemma_primary_bounds(ts.drop_first(), true);
        },
        _ => {
            lemma_primary_bounds(ts, false);
        },
    }
}

pub proof fn lemma_power_loop_bounds(acc: SNode, ts: Seq<SToken>)
    ensures
        spec_power_loop(acc, ts) matches Ok(p) ==> p.1.len() <= ts.len(),
    decreases ts.len(), 2int,
{
    match tpeek(ts) {
        SToken::Operator(Op::Pow) => {
            lemma_func_bounds(ts.drop_first());
            match spec_func(ts.drop_first()) {
                Ok((rhs, r2)) => {
                    let folded = SNode::BinOp(Op::Pow, Box::new(acc), Box::new(rhs));
                    if r2.len() < ts.len() {
                        lemma_power_loop_bounds(folded, r2);
                    }
                },
                Err(_) => {},
            }
        },
        _ => {},
    }
}

pub proof fn lemma_power_bounds(ts: Seq<SToken>)
    ensures
        spec_power(ts) matches Ok(p) ==> p.1.len() < ts.len(),
    decreases ts.len(), 3int,
{
    lemma_func_bounds(ts);
    match spec_func(ts) {
        Ok((l, r1)) => {
            if r1.len() < ts.len() {
                lemma_power_loop_bounds(l, r1);
            }
        },
        Err(_) => {},
    }
}

pub proof fn lemma_mult_loop_bounds(acc: SNode, ts: Seq<SToken>)
    ensures
        spec_mult_loop(acc, ts) matches Ok(p) ==> p.1.len() <= ts.len(),
    decreases ts.len(), 4int,
{
    match tpeek(ts) {
        SToken::Operator(o) => {
            if o == Op::Mul || o == Op::Div {
                lemma_power_bounds(ts.drop_first());
                match spec_power(ts.drop_first()) {
                    Ok((rhs, r2)) => {
                        let folded = SNode::BinOp(o, Box::new(acc), Box::new(rhs));
                        if r2.len() < ts.len() {
                            lemma_mult_loop_bounds(folded, r2);
                        }
                    },
                    Err(_) => {},
                }
            }
        },
        _ => {},
    }
}

pub proof fn lemma_mult_bounds(ts: Seq<SToken>)
    ensures
        spec_mult(ts) matches Ok(p) ==> p.1.len() < ts.len(),
    decreases ts.len(), 5int,
{
    lemma_power_bounds(ts);
    match spec_power(ts) {
        Ok((l, r1)) => {
            if r1.len() < ts.len() {
                lemma_mult_loop_bounds(l, r1);
            }
        },
        Err(_) => {},
    }
}

pub proof fn lemma_additive_loop_bounds(acc: SNode, ts: Seq<SToken>)
    ensures
        spec_additive_loop(acc, ts) matches Ok(p) ==> p.1.len() <= ts.len(),
    decreases ts.len(), 6int,
{
    match tpeek(ts) {
        SToken::Operator(o) => {
            if o == Op::Add || o == Op::Sub {
                lemma_mult_bounds(ts.drop_first());
                match spec_mult(ts.drop_first()) {
                    Ok((rhs, r2)) => {
                        let folded = SNode::BinOp(o, Box::new(acc), Box::new(rhs));
                        if r2.len() < ts.len() {
                            lemma_additive_loop_bounds(folded, r2);
                        }
                    },
                    Err(_) => {},
                }
            }
        },
        _ => {},
    }
}

pub proof fn lemma_additive_bounds(ts: Seq<SToken>)
    ensures
        spec_additive(ts) matches Ok(p) ==> p.1.len() < ts.len(),
    decreases ts.len(), 7int,
{
    lemma_mult_bounds(ts);
    match spec_mult(ts) {
        Ok((l, r1)) => {
            if r1.len() < ts.len() {
                lemma_additive_loop_bounds(l, r1);
            }
        },
        Err(_) => {},
    }
}

fn parse_primary(lexer: &mut Lexer, bracket: bool) -> (r: Result<Node, ParseError>)
    requires
        old(lexer).wf(),
    ensures
        final(lexer).wf(),
        ({
            let sp = spec_primary(old(lexer)@, bracket);
            match r {
                Ok(n) => sp is Ok && n@ == sp->Ok_0.0 && final(lexer)@ == sp->Ok_0.1,
                Err(e) => sp is Err && e == sp->Err_0,
            }
        }),
    decreases old(lexer)@.len(), 0int,
{
    let t = lexer.next();
    match t {
        Token::Operator(Op::Sub) => {
            if !bracket {
                match parse_primary(lexer, false) {
                    Ok(v) => Ok(Node::Neg(Box::new(v))),
                    Err(e) => Err(e),
                }
            } else {
                Err(ParseError::UnexpectedToken)
            }
        },
        Token::Literal(l) => {
            if !bracket {
                Ok(Node::Immediate(l))
            } else {
                Err(ParseError::UnexpectedToken)
            }
        },
        Token::LeftBracket => {
            match parse_additive(lexer) {
                Ok(v) => {
                    let t2 = lexer.next();
                    match t2 {
                        Token::RightBracket => Ok(v),
                        _ => Err(ParseError::MismatchedParenthesis),
                    }
                },
                Err(e) => Err(e),
            }
        },
        _ => Err(ParseError::UnexpectedToken),
    }
}

fn parse_func(lexer: &mut Lexer) -> (r: Result<Node, ParseError>)
    requires
        old(lexer).wf(),
    ensures
        final(lexer).wf(),
        ({
            let sp = spec_func(old(lexer)@);
            match r {
                Ok(n) => sp is Ok && n@ == sp->Ok_0.0 && final(lexer)@ == sp->Ok_0.1,
                Err(e) => sp is Err && e == sp->Err_0,
            }
        }),
    decreases old(lexer)@.len(), 1int,
{
    let t = lexer.peek();
    match t {
        Token::Function(func) => {
            lexer.next();
            match parse_primary(lexer, true) {
                Ok(arg) => Ok(Node::Func(func, Box::new(arg))),
                Err(e) => Err(e),
            }
        },
        _ => parse_primary(lexer, false),
    }
}

fn parse_power(lexer: &mut Lexer) -> (r: Result<Node, ParseError>)
    requires
        old(lexer).wf(),
    ensures
        final(lexer).wf(),
        ({
            let sp = spec_power(old(lexer)@);
            match r {
                Ok(n) => sp is Ok && n@ == sp->Ok_0.0 && final(lexer)@ == sp->Ok_0.1,
                Err(e) => sp is Err && e == sp->Err_0,
            }
        }),
    decreases old(lexer)@.len(), 3int,
{
    let ghost ts0 = old(lexer)@;
    let mut left = match parse_func(lexer) {
        Ok(n) => n,
        Err(e) => {
            return Err(e);
        },
    };
    proof {
        lemma_func_bounds(ts0);
    }
    loop
        invariant
            ts0 == old(lexer)@,
            lexer.wf(),
            lexer@.len() < ts0.len(),
            spec_power(ts0) == spec_power_loop(left@, lexer@),
        decreases lexer@.len(),
    {
        let t = lexer.peek();
        match t {
            Token::Operator(Op::Pow) => {
                let ghost ts_it = lexer@;
                lexer.next();
                match parse_func(lexer) {
                    Ok(right) => {
                        proof {
                            lemma_func_bounds(ts_it.drop_first());
                        }
                        left = Node::BinOp(Op::Pow, Box::new(left), Box::new(right));
                    },
                    Err(e) => {
                        return Err(e);
                    },
                }
            },
            _ => {
                return Ok(left);
            },
        }
    }
}

fn parse_multiplicative(lexer: &mut Lexer) -> (r: Result<Node, ParseError>)
    requires
        old(lexer).wf(),
    ensures
        final(lexer).wf(),
        ({
            let sp = spec_mult(old(lexer)@);
            match r {
                Ok(n) => sp is Ok && n@ == sp->Ok_0.0 && final(lexer)@ == sp->Ok_0.1,
                Err(e) => sp is Err && e == sp->Err_0,
            }
        }),
    decreases old(lexer)@.len(), 5int,
{
    let ghost ts0 = old(lexer)@;
    let mut left = match parse_power(lexer) {
        Ok(n) => n,
        Err(e) => {
            return Err(e);
        },
    };
    proof {
        lemma_power_bounds(ts0);
    }
    loop
        invariant
            ts0 == old(lexer)@,
            lexer.wf(),
            lexer@.len() < ts0.len(),
            spec_mult(ts0) == spec_mult_loop(left@, lexer@),
        decreases lexer@.len(),
    {
        let t = lexer.peek();
        match t {
            Token::Operator(o) => {
                if o == Op::Mul || o == Op::Div {
                    let ghost ts_it = lexer@;
                    lexer.next();
                    match parse_power(lexer) {
                        Ok(right) => {
                            proof {
                                lemma_power_bounds(ts_it.drop_first());
                            }
                            left = Node::BinOp(o, Box::new(left), Box::new(right));
                        },
                        Err(e) => {
                            return Err(e);
                        },
                    }
                } else {
                    return Ok(left);
                }
            },
            _ => {
                return Ok(left);
            },
        }
    }
}

fn parse_additive(lexer: &mut Lexer) -> (r: Result<Node, ParseError>)
    requires
        old(lexer).wf(),
    ensures
        final(lexer).wf(),
        ({
            let sp = spec_additive(old(lexer)@);
            match r {
                Ok(n) => sp is Ok && n@ == sp->Ok_0.0 && final(lexer)@ == sp->Ok_0.1,
                Err(e) => sp is Err && e == sp->Err_0,
            }
        }),
    decreases old(lexer)@.len(), 7int,
{
    let ghost ts0 = old(lexer)@;
    let mut left = match parse_multiplicative(lexer) {
        Ok(n) => n,
        Err(e) => {
            return Err(e);
        },
    };
    proof {
        lemma_mult_bounds(ts0);
    }
    loop
        invariant
            ts0 == old(lexer)@,
            lexer.wf(),
            lexer@.len() < ts0.len(),
            spec_additive(ts0) == spec_additive_loop(left@, lexer@),
        decreases lexer@.len(),
    {
        let t = lexer.peek();
        match t {
            Token::Operator(o) => {
                if o == Op::Add || o == Op::Sub {
                    let ghost ts_it = lexer@;
                    lexer.next();
                    match parse_multiplicative(lexer) {
                        Ok(right) => {
                            proof {
                                lemma_mult_bounds(ts_it.drop_first());
                            }
                            left = Node::BinOp(o, Box::new(left), Box::new(right));
                        },
                        Err(e) => {
                            return Err(e);
                        },
                    }
                } else {
                    return Ok(left);
                }
            },
            _ => {
                return Ok(left);
            },
        }
    }
}

/// Parses one full expression from the tokens and requires that nothing but
/// `End` follows it: on success the token sequence is fully consumed.
pub fn parse_expression(lexer: &mut Lexer) -> (r: Result<Node, ParseError>)
    requires
        old(lexer).wf(),
    ensures
        final(lexer).wf(),
        r is Ok ==> tpeek(final(lexer)@) is End,
        ({
            let sp = spec_expression(old(lexer)@);
            match r {
                Ok(n) => sp == Ok::<SNode, ParseError>(n@),
                Err(e) => sp == Err::<SNode, ParseError>(e),
            }
        }),
{
    match parse_additive(lexer) {
        Ok(n) => {
            let t = lexer.peek();
            match t {
                Token::End => Ok(n),
                _ => Err(ParseError::UnexpectedToken),
            }
        },
        Err(e) => Err(e),
    }
}

/// A successful parse corresponds to a fully consumed token sequence: only
/// `End` stands after the expression that was read.
pub proof fn lemma_parse_consumes_all(ts: Seq<SToken>)
    ensures
        spec_expression(ts) is Ok ==> (spec_additive(ts) matches Ok(p) && tpeek(p.1) is End),
{
}

/// In a function's argument the restricted context refuses a leading unary
/// minus, so an expression such as a function name followed by `-` and a
/// number never parses as a call applied to the negated number.
pub proof fn lemma_func_arg_rejects_minus(ts: Seq<SToken>)
    requires
        tpeek(ts) == SToken::Operator(Op::Sub),
    ensures
        spec_primary(ts, true) is Err,
{
}

/// Every numeral in the syntax tree is well-formed: the literals of the
/// leaves and the parameters carried by `log` and `root`.
pub open spec fn snode_valid(n: SNode) -> bool
    decreases n,
{
    match n {
        SNode::Immediate(l) => slit_valid(l),
        SNode::Neg(a) => snode_valid(*a),
        SNode::BinOp(_, a, b) => snode_valid(*a) && snode_valid(*b),
        SNode::Func(f, a) => (match f {
            SFunc::Log(l) => slit_valid(l),
            SFunc::Root(l) => slit_valid(l),
            _ => true,
        }) && snode_valid(*a),
    }
}

proof fn lemma_suffix_valid(ts: Seq<SToken>)
    requires
        stokens_valid(ts),
        ts.len() > 0,
    ensures
        stokens_valid(ts.drop_first()),
{
    assert forall|i: int|
        0 <= i < ts.drop_first().len() implies stoken_valid(
        #[trigger] ts.drop_first()[i],
    ) by {
        assert(ts.drop_first()[i] == ts[i + 1]);
    }
}

pub proof fn lemma_primary_valid(ts: Seq<SToken>, bracket: bool)
    requires
        stokens_valid(ts),
    ensures
        spec_primary(ts, bracket) matches Ok(p) ==> snode_valid(p.0) && stokens_valid(
            p.1,
        ),
    decreases ts.len(), 0int,
{
    let rest = if ts.len() > 0 {
        ts.drop_first()
    } else {
        ts
    };
    if ts.len() > 0 {
        lemma_suffix_valid(ts);
        assert(stoken_valid(ts[0]));
    }
    match tpeek(ts) {
        SToken::Operator(Op::Sub) => {
            if !bracket {
                lemma_primary_valid(rest, false);
            }
        },
        SToken::LeftBracket => {
            lemma_additive_valid(rest);
            match spec_additive(rest) {
                Ok((n, r2)) => {
                    if tpeek(r2) is RightBracket {
                        lemma_suffix_valid(r2);
                    }
                },
                Err(_) => {},
            }
        },
        _ => {},
    }
}

pub proof fn lemma_func_valid(ts: Seq<SToken>)
    requires
        stokens_valid(ts),
    ensures
        spec_func(ts) matches Ok(p) ==> snode_valid(p.0) && stokens_valid(p.1),
    decreases ts.len(), 1int,
{
    match tpeek(ts) {
        SToken::Function(f) => {
            assert(stoken_valid(ts[0]));
            lemma_suffix_valid(ts);
            lemma_primary_valid(ts.drop_first(), true);
        },
        _ => {
            lemma_primary_valid(ts, false);
        },
    }
}

pub proof fn lemma_power_loop_valid(acc: SNode, ts: Seq<SToken>)
    requires
        snode_valid(acc),
        stokens_valid(ts),
    ensures
        spec_power_loop(acc, ts) matches Ok(p) ==> snode_valid(p.0) && stokens_valid(
            p.1,
        ),
    decreases ts.len(), 2int,
{
    match tpeek(ts) {
        SToken::Operator(Op::Pow) => {
            lemma_suffix_valid(ts);
            lemma_func_valid(ts.drop_first());
            match spec_func(ts.drop_first()) {
                Ok((rhs, r2)) => {
                    let folded = SNode::BinOp(Op::Pow, Box::new(acc), Box::new(rhs));
                    if r2.len() < ts.len() {
                        lemma_power_loop_valid(folded, r2);
                    }
                },
                Err(_) => {},
            }
        },
        _ => {},
    }
}

pub proof fn lemma_power_valid(ts: Seq<SToken>)
    requires
        stokens_valid(ts),
    ensures
        spec_power(ts) matches Ok(p) ==> snode_valid(p.0) && stokens_valid(p.1),
    decreases ts.len(), 3int,
{
    lemma_func_valid(ts);
    match spec_func(ts) {
        Ok((l, r1)) => {
            if r1.len() < ts.len() {
                lemma_power_loop_valid(l, r1);
            }
        },
        Err(_) => {},
    }
}

pub proof fn lemma_mult_loop_valid(acc: SNode, ts: Seq<SToken>)
    requires
        snode_valid(acc),
        stokens_valid(ts),
    ensures
        spec_mult_loop(acc, ts) matches Ok(p) ==> snode_valid(p.0) && stokens_valid(
            p.1,
        ),
    decreases ts.len(), 4int,
{
    match tpeek(ts) {
        SToken::Operator(o) => {
            if o == Op::Mul || o == Op::Div {
                lemma_suffix_valid(ts);
                lemma_power_valid(ts.drop_first());
                match spec_power(ts.drop_first()) {
                    Ok((rhs, r2)) => {
                        let folded = SNode::BinOp(o, Box::new(acc), Box::new(rhs));
                        if r2.len() < ts.len() {
                            lemma_mult_loop_valid(folded, r2);
                        }
                    },
                    Err(_) => {},
                }
            }
        },
        _ => {},
    }
}

pub proof fn lemma_mult_valid(ts: Seq<SToken>)
    requires
        stokens_valid(ts),
    ensures
        spec_mult(ts) matches Ok(p) ==> snode_valid(p.0) && stokens_valid(p.1),
    decreases ts.len(), 5int,
{
    lemma_power_valid(ts);
    match spec_power(ts) {
        Ok((l, r1)) => {
            if r1.len() < ts.len() {
                lemma_mult_loop_valid(l, r1);
            }
        },
        Err(_) => {},
    }
}

pub proof fn lemma_additive_loop_valid(acc: SNode, ts: Seq<SToken>)
    requires
        snode_valid(acc),
        stokens_valid(ts),
    ensures
        spec_additive_loop(acc, ts) matches Ok(p) ==> snode_valid(p.0)
            && stokens_valid(p.1),
    decreases ts.len(), 6int,
{
    match tpeek(ts) {
        SToken::Operator(o) => {
            if o == Op::Add || o == Op::Sub {
                lemma_suffix_valid(ts);
                lemma_mult_valid(ts.drop_first());
                match spec_mult(ts.drop_first()) {
                    Ok((rhs, r2)) => {
                        let folded = SNode::BinOp(o, Box::new(acc), Box::new(rhs));
                        if r2.len() < ts.len() {
                            lemma_additive_loop_valid(folded, r2);
                        }
                    },
                    Err(_) => {},
                }
            }
        },
        _ => {},
    }
}

pub proof fn lemma_additive_valid(ts: Seq<SToken>)
    requires
        stokens_valid(ts),
    ensures
        spec_additive(ts) matches Ok(p) ==> snode_valid(p.0) && stokens_valid(p.1),
    decreases ts.len(), 7int,
{
    lemma_mult_valid(ts);
    match spec_mult(ts) {
        Ok((l, r1)) => {
            if r1.len() < ts.len() {
                lemma_additive_loop_valid(l, r1);
            }
        },
        Err(_) => {},
    }
}

/// End to end: every numeral in the syntax tree of a successfully tokenized
/// and parsed line is well-formed, so reading one as a number during the
/// tree's evaluation cannot fail.
pub proof fn lemma_pipeline_literals_valid(s: Seq<char>, ts: Seq<SToken>, n: SNode)
    requires
        spec_lex_from(s) == Ok::<Seq<SToken>, LexError>(ts),
        spec_expression(ts) == Ok::<SNode, ParseError>(n),
    ensures
        snode_valid(n),
{
    lemma_lex_valid(s);
    lemma_additive_valid(ts);
}

/// The additive tier folds left: for any literals, `a + b - c` parses as
/// `(a + b) - c`.
pub proof fn lemma_additive_left_assoc(l1: SLit, l2: SLit, l3: SLit)
    ensures
        spec_expression(
            seq![
                SToken::Literal(l1),
                SToken::Operator(Op::Add),
                SToken::Literal(l2),
                SToken::Operator(Op::Sub),
                SToken::Literal(l3),
            ],
        ) == Ok::<SNode, ParseError>(
            SNode::BinOp(
                Op::Sub,
                Box::new(
                    SNode::BinOp(
                        Op::Add,
                        Box::new(SNode::Immediate(l1)),
                        Box::new(SNode::Immediate(l2)),
                    ),
                ),
                Box::new(SNode::Immediate(l3)),
            ),
        ),
{
    let ts = seq![
        SToken::Literal(l1),
        SToken::Operator(Op::Add),
        SToken::Literal(l2),
        SToken::Operator(Op::Sub),
        SToken::Literal(l3),
    ];
    let t4 = seq![
        SToken::Operator(Op::Add),
        SToken::Literal(l2),
        SToken::Operator(Op::Sub),
        SToken::Literal(l3),
    ];
    let t3 = seq![SToken::Literal(l2), SToken::Operator(Op::Sub), SToken::Literal(l3)];
    let t2 = seq![SToken::Operator(Op::Sub), SToken::Literal(l3)];
    let t1 = seq![SToken::Literal(l3)];
    let t0 = Seq::<SToken>::empty();
    assert(ts.drop_first() =~= t4);
    assert(t4.drop_first() =~= t3);
    assert(t3.drop_first() =~= t2);
    assert(t2.drop_first() =~= t1);
    assert(t1.drop_first() =~= t0);
    let n1 = SNode::Immediate(l1);
    let n2 = SNode::Immediate(l2);
    let n3 = SNode::Immediate(l3);
    assert(spec_mult(ts) == Ok::<(SNode, Seq<SToken>), ParseError>((n1, t4)));
    assert(spec_mult(t3) == Ok::<(SNode, Seq<SToken>), ParseError>((n2, t2)));
    assert(spec_mult(t1) == Ok::<(SNode, Seq<SToken>), ParseError>((n3, t0)));
    let sum = SNode::BinOp(Op::Add, Box::new(n1), Box::new(n2));
    assert(spec_additive_loop(sum, t2) == Ok::<(SNode, Seq<SToken>), ParseError>(
        (SNode::BinOp(Op::Sub, Box::new(sum), Box::new(n3)), t0),
    ));
}

/// The power tier binds tighter than multiplication: for any literals,
/// `a * b ^ c` parses as `a * (b ^ c)`.
pub proof fn lemma_power_binds_tighter(l1: SLit, l2: SLit, l3: SLit)
    ensures
        spec_expression(
            seq![
                SToken::Literal(l1),
                SToken::Operator(Op::Mul),
                SToken::Literal(l2),
                SToken::Operator(Op::Pow),
                SToken::Literal(l3),
            ],
        ) == Ok::<SNode, ParseError>(
            SNode::BinOp(
                Op::Mul,
                Box::new(SNode::Immediate(l1)),
                Box::new(
                    SNode::BinOp(
                        Op::Pow,
                        Box::new(SNode::Immediate(l2)),
                        Box::new(SNode::Immediate(l3)),
                    ),
                ),
            ),
        ),
{
    let ts = seq![
        SToken::Literal(l1),
        SToken::Operator(Op::Mul),
        SToken::Literal(l2),
        SToken::Operator(Op::Pow),
        SToken::Literal(l3),
    ];
    let t4 = seq![
        SToken::Operator(Op::Mul),
        SToken::Literal(l2),
        SToken::Operator(Op::Pow),
        SToken::Literal(l3),
    ];
    let t3 = seq![SToken::Literal(l2), SToken::Operator(Op::Pow), SToken::Literal(l3)];
    let t2 = seq![SToken::Operator(Op::Pow), SToken::Literal(l3)];
    let t1 = seq![SToken::Literal(l3)];
    let t0 = Seq::<SToken>::empty();
    assert(ts.drop_first() =~= t4);
    assert(t4.drop_first() =~= t3);
    assert(t3.drop_first() =~= t2);
    assert(t2.drop_first() =~= t1);
    assert(t1.drop_first() =~= t0);
    let n1 = SNode::Immediate(l1);
    let n2 = SNode::Immediate(l2);
    let n3 = SNode::Immediate(l3);
    assert(spec_power(ts) == Ok::<(SNode, Seq<SToken>), ParseError>((n1, t4)));
    assert(spec_func(t3) == Ok::<(SNode, Seq<SToken>), ParseError>((n2, t2)));
    assert(spec_func(t1) == Ok::<(SNode, Seq<SToken>), ParseError>((n3, t0)));
    let pow = SNode::BinOp(Op::Pow, Box::new(n2), Box::new(n3));
    assert(spec_power(t3) == Ok::<(SNode, Seq<SToken>), ParseError>((pow, t0)));
    assert(spec_mult(ts) == Ok::<(SNode, Seq<SToken>), ParseError>(
        (SNode::BinOp(Op::Mul, Box::new(n1), Box::new(pow)), t0),
    ));
}

/// Parsing is deterministic: any two results that the parser's contract
/// admits for the same token sequence are the same.
pub proof fn lemma_parse_deterministic(
    ts: Seq<SToken>,
    r1: Result<SNode, ParseError>,
    r2: Result<SNode, ParseError>,
)
    requires
        r1 == spec_expression(ts),
        r2 == spec_expression(ts),
    ensures
        r1 == r2,
{
}

} // verus!
