//! The parser: recursive descent with precedence climbing over a token sequence.
use vstd::prelude::*;
use crate::text::{chars_of, is_digit};
use crate::tokenizer::{Token, TokenType, TokenView, tokens_view, tokens_wf};

verus! {

#[derive(Clone, Copy, PartialEq, Eq, Debug, Structural)]
pub enum Operation {
    ADD,
    SUB,
    MUL,
    DIV,
    EXP,
}

/// A node of the syntax tree; each node owns its children.
#[derive(PartialEq, Debug)]
pub enum NodeExpr {
    SIN(Box<NodeExprSin>),
    COS(Box<NodeExprCos>),
    LN(Box<NodeExprLn>),
    LOG(Box<NodeExprLog>),
    BIN(Box<NodeBinExpr>),
    INT(Box<NodeExprInt>),
    FLOAT(Box<NodeExprFloat>),
}

#[derive(PartialEq, Debug)]
pub struct NodeExprSin {
    pub expr: NodeExpr,
}

#[derive(PartialEq, Debug)]
pub struct NodeExprCos {
    pub expr: NodeExpr,
}

#[derive(PartialEq, Debug)]
pub struct NodeExprLn {
    pub expr: NodeExpr,
}

#[derive(PartialEq, Debug)]
pub struct NodeExprLog {
    pub expr: NodeExpr,
}

#[derive(PartialEq, Debug)]
pub struct NodeExprInt {
    pub val: i32,
}

/// A decimal literal with a point, kept as its digit text.
#[derive(PartialEq, Debug)]
pub struct NodeExprFloat {
    pub val: String,
}

#[derive(PartialEq, Debug)]
pub struct NodeBinExpr {
    pub operation: Operation,
    pub lhs: NodeExpr,
    pub rhs: NodeExpr,
}

/// The mathematical shape of a syntax tree.
pub enum Expr {
    Sin(Box<Expr>),
    Cos(Box<Expr>),
    Ln(Box<Expr>),
    Log(Box<Expr>),
    Bin(Operation, Box<Expr>, Box<Expr>),
    Int(int),
    Float(Seq<char>),
}

/// The shape of a syntax tree, with each float literal as its text.
pub open spec fn expr_view(e: NodeExpr) -> Expr
    decreases e,
{
    match e {
        NodeExpr::SIN(n) => Expr::Sin(Box::new(expr_view(n.expr))),
        NodeExpr::COS(n) => Expr::Cos(Box::new(expr_view(n.expr))),
        NodeExpr::LN(n) => Expr::Ln(Box::new(expr_view(n.expr))),
        NodeExpr::LOG(n) => Expr::Log(Box::new(expr_view(n.expr))),
        NodeExpr::BIN(n) => Expr::Bin(
            n.operation,
            Box::new(expr_view(n.lhs)),
            Box::new(expr_view(n.rhs)),
        ),
        NodeExpr::INT(n) => Expr::Int(n.val as int),
        NodeExpr::FLOAT(n) => Expr::Float(n.val@),
    }
}

impl View for NodeExpr {
    type V = Expr;

    open spec fn view(&self) -> Expr {
        expr_view(*self)
    }
}

#[derive(Clone, PartialEq, Debug)]
pub enum ParseError {
    /// An opening parenthesis without its closing one.
    UnmatchedParenthesis,
    /// A function name not followed by `(`.
    MissingFunctionCallParens,
    /// The input ends right after a function's `(`.
    MissingFunctionOperand,
    /// A token that cannot start an operand.
    UnexpectedToken(TokenType),
    /// The input ends where an operand is due.
    UnexpectedEndOfInput,
    /// An integer literal above `i32::MAX`, with its text.
    NumericLiteralOverflow(String),
}

pub enum ParseErrorView {
    UnmatchedParenthesis,
    MissingFunctionCallParens,
    MissingFunctionOperand,
    UnexpectedToken(TokenType),
    UnexpectedEndOfInput,
    NumericLiteralOverflow(Seq<char>),
}

impl View for ParseError {
    type V = ParseErrorView;

    open spec fn view(&self) -> ParseErrorView {
        match self {
            ParseError::UnmatchedParenthesis => ParseErrorView::UnmatchedParenthesis,
            ParseError::MissingFunctionCallParens => ParseErrorView::MissingFunctionCallParens,
            ParseError::MissingFunctionOperand => ParseErrorView::MissingFunctionOperand,
            ParseError::UnexpectedToken(k) => ParseErrorView::UnexpectedToken(*k),
            ParseError::UnexpectedEndOfInput => ParseErrorView::UnexpectedEndOfInput,
            ParseError::NumericLiteralOverflow(t) => ParseErrorView::NumericLiteralOverflow(t@),
        }
    }
}

/// The value of a sequence of decimal digits.
pub open spec fn digits_value(s: Seq<char>) -> int
    decreases s.len(),
{
    if s.len() == 0 {
        0
    } else {
        digits_value(s.drop_last()) * 10 + (s.last() as int - '0' as int)
    }
}

/// How tightly a binary operator binds; -1 for a token that is none.
pub open spec fn prec_of(k: TokenType) -> int {
    match k {
        TokenType::ADD | TokenType::SUB => 0,
        TokenType::MUL | TokenType::DIV => 1,
        TokenType::EXP => 2,
        _ => -1,
    }
}

pub open spec fn operation_of(k: TokenType) -> Option<Operation> {
    match k {
        TokenType::ADD => Some(Operation::ADD),
        TokenType::SUB => Some(Operation::SUB),
        TokenType::MUL => Some(Operation::MUL),
        TokenType::DIV => Some(Operation::DIV),
        TokenType::EXP => Some(Operation::EXP),
        _ => None,
    }
}

/// The binary operator at position `i` with its precedence, if it binds at least as
/// tightly as `min`.
pub open spec fn op_at(ts: Seq<TokenView>, i: int, min: int) -> Option<(Operation, int)> {
    if 0 <= i < ts.len() && operation_of(ts[i].kind) is Some && prec_of(ts[i].kind) >= min {
        Some((operation_of(ts[i].kind)->0, prec_of(ts[i].kind)))
    } else {
        None
    }
}

/// The node that applies the function token `k` to `e`.
pub open spec fn function_node(k: TokenType, e: Expr) -> Expr {
    match k {
        TokenType::SIN => Expr::Sin(Box::new(e)),
        TokenType::COS => Expr::Cos(Box::new(e)),
        TokenType::LN => Expr::Ln(Box::new(e)),
        _ => Expr::Log(Box::new(e)),
    }
}

/// Whether position `i` holds a token of kind `k`.
pub open spec fn is_kind(ts: Seq<TokenView>, i: int, k: TokenType) -> bool {
    0 <= i < ts.len() && ts[i].kind == k
}

/// A parse that ends at `j` moved forward from `i` and stayed within the tokens.
pub open spec fn moved(ts: Seq<TokenView>, i: int, j: int) -> bool {
    i < j <= ts.len()
}

/// An operand starting at position `i`: its tree and the position after it.
pub open spec fn primary(ts: Seq<TokenView>, i: int) -> Result<(Expr, int), ParseErrorView>
    decreases ts.len() - i, 0nat,
{
    if !(0 <= i < ts.len()) {
        Err(ParseErrorView::UnexpectedEndOfInput)
    } else {
        let k = ts[i].kind;
        match k {
            TokenType::INT => {
                let v = digits_value(ts[i].literal->0);
                if v <= i32::MAX {
                    Ok((Expr::Int(v), i + 1))
                } else {
                    Err(ParseErrorView::NumericLiteralOverflow(ts[i].literal->0))
                }
            },
            TokenType::FLOAT => Ok((Expr::Float(ts[i].literal->0), i + 1)),
            TokenType::OpenParen => match expr(ts, i + 1) {
                Ok((e, j)) => if is_kind(ts, j, TokenType::CloseParen) {
                    Ok((e, j + 1))
                } else {
                    Err(ParseErrorView::UnmatchedParenthesis)
                },
                Err(ParseErrorView::UnexpectedEndOfInput) => Err(ParseErrorView::UnmatchedParenthesis),
                Err(x) => Err(x),
            },
            TokenType::SIN | TokenType::COS | TokenType::LN | TokenType::LOG => {
                if is_kind(ts, i + 1, TokenType::OpenParen) {
                    match primary(ts, i + 2) {
                        Ok((e, j)) => if is_kind(ts, j, TokenType::CloseParen) {
                            Ok((function_node(k, e), j + 1))
                        } else {
                            Err(ParseErrorView::UnmatchedParenthesis)
                        },
                        Err(ParseErrorView::UnexpectedEndOfInput) => Err(
                            ParseErrorView::MissingFunctionOperand,
                        ),
                        Err(x) => Err(x),
                    }
                } else {
                    Err(ParseErrorView::MissingFunctionCallParens)
                }
            },
            _ => Err(ParseErrorView::UnexpectedToken(k)),
        }
    }
}

/// A full expression starting at position `i`: an operand followed by operators
/// and operands, grouped by precedence and from left to right.
pub open spec fn expr(ts: Seq<TokenView>, i: int) -> Result<(Expr, int), ParseErrorView>
    decreases ts.len() - i, 2nat,
{
    match primary(ts, i) {
        Ok((lhs, j)) => if moved(ts, i, j) {
            climb(ts, j, lhs, 0)
        } else {
            Err(ParseErrorView::UnexpectedEndOfInput)
        },
        Err(x) => Err(x),
    }
}

/// Extends `lhs` to the right with every operator at `i` and after that binds at
/// least as tightly as `min`.
pub open spec fn climb(ts: Seq<TokenView>, i: int, lhs: Expr, min: int) -> Result<
    (Expr, int),
    ParseErrorView,
>
    decreases ts.len() - i, 1nat,
{
    match op_at(ts, i, min) {
        None => Ok((lhs, i)),
        Some((op, p)) => match primary(ts, i + 1) {
            Err(x) => Err(x),
            Ok((rhs, j)) => if moved(ts, i, j) {
                match raise(ts, j, rhs, p) {
                    Err(x) => Err(x),
                    Ok((rhs2, k)) => if moved(ts, i, k) {
                        climb(ts, k, Expr::Bin(op, Box::new(lhs), Box::new(rhs2)), min)
                    } else {
                        Err(ParseErrorView::UnexpectedEndOfInput)
                    },
                }
            } else {
                Err(ParseErrorView::UnexpectedEndOfInput)
            },
        },
    }
}

/// Extends the right operand `rhs` of an operator of precedence `p` with every
/// operator at `j` and after that binds more tightly than `p`.
pub open spec fn raise(ts: Seq<TokenView>, j: int, rhs: Expr, p: int) -> Result<
    (Expr, int),
    ParseErrorView,
>
    decreases ts.len() - j, 2nat,
{
    match op_at(ts, j, p + 1) {
        None => Ok((rhs, j)),
        Some((_, q)) => match climb(ts, j, rhs, q) {
            Err(x) => Err(x),
            Ok((r2, k)) => if moved(ts, j, k) {
                raise(ts, k, r2, p)
            } else {
                Err(ParseErrorView::UnexpectedEndOfInput)
            },
        },
    }
}

proof fn lemma_digits_value_prefix(s: Seq<char>, k: int)
    requires
        0 <= k <= s.len(),
        forall|m: int| 0 <= m < s.len() ==> is_digit(#[trigger] s[m]),
    ensures
        0 <= digits_value(s.subrange(0, k)) <= digits_value(s),
    decreases s.len(),
{
    if k < s.len() {
        assert(s.drop_last().subrange(0, k) =~= s.subrange(0, k));
        lemma_digits_value_prefix(s.drop_last(), k);
    } else {
        assert(s.subrange(0, k) =~= s);
        if s.len() > 0 {
            lemma_digits_value_prefix(s.drop_last(), k - 1);
            assert(s.drop_last().subrange(0, k - 1) =~= s.drop_last());
        }
    }
}

/// The `i32` that a digit string denotes, or `None` if it is above `i32::MAX`.
pub fn int_of_digits(text: &String) -> (r: Option<i32>)
    requires
        forall|m: int| 0 <= m < text@.len() ==> is_digit(#[trigger] text@[m]),
    ensures
        digits_value(text@) >= 0,
        r == (if digits_value(text@) <= i32::MAX {
            Some(digits_value(text@) as i32)
        } else {
            None
        }),
{
    let cs = chars_of(text.as_str());
    let mut acc: i64 = 0;
    let mut k: usize = 0;
    while k < cs.len()
        invariant
            cs@ == text@,
            k <= cs.len(),
            forall|m: int| 0 <= m < cs@.len() ==> is_digit(#[trigger] cs@[m]),
            acc == digits_value(cs@.subrange(0, k as int)),
            0 <= acc <= i32::MAX,
        decreases cs.len() - k,
    {
        let d = (cs[k] as u32 - '0' as u32) as i64;
        assert(cs@.subrange(0, k + 1).drop_last() =~= cs@.subrange(0, k as int));
        acc = acc * 10 + d;
        k = k + 1;
        if acc > i32::MAX as i64 {
            proof {
                lemma_digits_value_prefix(cs@, k as int);
            }
            return None;
        }
    }
    assert(cs@.subrange(0, k as int) =~= cs@);
    Some(acc as i32)
}

/// How tightly the operator `token_type` binds; -1 for a token that is no operator.
pub fn determine_precedence(token_type: &TokenType) -> (r: i32)
    ensures
        r == prec_of(*token_type),
{
    match token_type {
        TokenType::ADD => 0,
        TokenType::SUB => 0,
        TokenType::MUL => 1,
        TokenType::DIV => 1,
        TokenType::EXP => 2,
        _ => -1,
    }
}

/// A forward-only cursor over a token sequence.
pub struct Parser {
    pub tokens: Vec<Token>,
    pub token_index: usize,
}

impl Parser {
    /// The cursor stands within the tokens or just past them, and number tokens carry their text.
    pub open spec fn wf(&self) -> bool {
        &&& self.token_index <= self.tokens.len()
        &&& tokens_wf(tokens_view(self.tokens@))
    }

    /// The views of the tokens.
    pub open spec fn tv(&self) -> Seq<TokenView> {
        tokens_view(self.tokens@)
    }

    pub fn new(tokens: Vec<Token>) -> (r: Parser)
        ensures
            r.tokens == tokens,
            r.token_index == 0,
    {
        Parser { tokens, token_index: 0 }
    }

    /// Parses one expression from the cursor on; tokens after it are left unread.
    pub fn parse(&mut self) -> (r: Result<NodeExpr, ParseError>)
        requires
            old(self).wf(),
        ensures
            final(self).wf(),
            final(self).tokens == old(self).tokens,
            match expr(old(self).tv(), old(self).token_index as int) {
                Ok((e, j)) => r is Ok && r->Ok_0@ == e && final(self).token_index == j,
                Err(x) => r is Err && r->Err_0@ == x,
            },
    {
        self.parse_expr()
    }

    /// Extends `lhs` with every operator from the cursor on that binds at least as
    /// tightly as `min_prec`.
    pub fn parse_bin_expr(&mut self, lhs: NodeExpr, min_prec: i32) -> (r: Result<
        NodeExpr,
        ParseError,
    >)
        requires
            old(self).wf(),
        ensures
            final(self).wf(),
            final(self).tokens == old(self).tokens,
            match climb(old(self).tv(), old(self).token_index as int, lhs@, min_prec as int) {
                Ok((e, j)) => r is Ok && r->Ok_0@ == e && final(self).token_index == j,
                Err(x) => r is Err && r->Err_0@ == x,
            },
            r is Ok ==> old(self).token_index <= final(self).token_index,
            r is Ok && op_at(old(self).tv(), old(self).token_index as int, min_prec as int) is Some
                ==> old(self).token_index < final(self).token_index,
        decreases old(self).tokens.len() - old(self).token_index, 1nat,
    {
        let ghost ts = self.tv();
        let ghost start = self.token_index as int;
        let ghost lhs0 = lhs@;
        let mut left = lhs;
        loop
            invariant
                self.wf(),
                self.tokens == old(self).tokens,
                ts == self.tv(),
                start == old(self).token_index,
                lhs0 == lhs@,
                start <= self.token_index,
                climb(ts, start, lhs0, min_prec as int) == climb(
                    ts,
                    self.token_index as int,
                    left@,
                    min_prec as int,
                ),
                op_at(ts, start, min_prec as int) is Some ==> start < self.token_index || (
                self.token_index == start && left@ == lhs0),
            decreases self.tokens.len() - self.token_index,
        {
            let next = self.next_op(min_prec);
            match next {
                None => {
                    return Ok(left);
                },
                Some((op, prec)) => {
                    let ghost i = self.token_index as int;
                    self.consume();
                    let rhs0 = self.parse_primary_expr();
                    let mut rhs = match rhs0 {
                        Ok(e) => e,
                        Err(x) => {
                            return Err(x);
                        },
                    };
                    let ghost j = self.token_index as int;
                    let ghost rhs_start = rhs@;
                    loop
                        invariant
                            self.wf(),
                            self.tokens == old(self).tokens,
                            ts == self.tv(),
                            start == old(self).token_index,
                            lhs0 == lhs@,
                            start <= i < j <= self.token_index,
                            climb(ts, start, lhs0, min_prec as int) == climb(
                                ts,
                                i,
                                left@,
                                min_prec as int,
                            ),
                            op_at(ts, i, min_prec as int) == Some((op, prec as int)),
                            primary(ts, i + 1) == Ok::<(Expr, int), ParseErrorView>((rhs_start, j)),
                            0 <= prec <= 2,
                            raise(ts, j, rhs_start, prec as int) == raise(
                                ts,
                                self.token_index as int,
                                rhs@,
                                prec as int,
                            ),
                        ensures
                            raise(ts, self.token_index as int, rhs@, prec as int) == Ok::<
                                (Expr, int),
                                ParseErrorView,
                            >((rhs@, self.token_index as int)),
                        decreases self.tokens.len() - self.token_index,
                    {
                        let ahead = self.next_op(prec + 1);
                        match ahead {
                            None => {
                                break ;
                            },
                            Some((_, next_prec)) => {
                                if next_prec > prec {
                                    let res = self.parse_bin_expr(rhs, next_prec);
                                    rhs = match res {
                                        Ok(e) => e,
                                        Err(x) => {
                                            return Err(x);
                                        },
                                    };
                                } else {
                                    break ;
                                }
                            },
                        }
                    }
                    let ghost grouped = Expr::Bin(op, Box::new(left@), Box::new(rhs@));
                    left = NodeExpr::BIN(Box::new(NodeBinExpr { operation: op, lhs: left, rhs }));
                    assert(left@ == grouped);
                },
            }
        }
    }

    /// Parses an operand followed by every operator and operand after it.
    pub fn parse_expr(&mut self) -> (r: Result<NodeExpr, ParseError>)
        requires
            old(self).wf(),
        ensures
            final(self).wf(),
            final(self).tokens == old(self).tokens,
            match expr(old(self).tv(), old(self).token_index as int) {
                Ok((e, j)) => r is Ok && r->Ok_0@ == e && final(self).token_index == j,
                Err(x) => r is Err && r->Err_0@ == x,
            },
            r is Ok ==> old(self).token_index < final(self).token_index,
        decreases old(self).tokens.len() - old(self).token_index, 2nat,
    {
        let first = self.parse_primary_expr();
        match first {
            Ok(lhs) => self.parse_bin_expr(lhs, 0),
            Err(x) => Err(x),
        }
    }

    /// Parses one operand: a number, a parenthesised expression, or a function
    /// applied to an operand in parentheses.
    pub fn parse_primary_expr(&mut self) -> (r: Result<NodeExpr, ParseError>)
        requires
            old(self).wf(),
        ensures
            final(self).wf(),
            final(self).tokens == old(self).tokens,
            match primary(old(self).tv(), old(self).token_index as int) {
                Ok((e, j)) => r is Ok && r->Ok_0@ == e && final(self).token_index == j,
                Err(x) => r is Err && r->Err_0@ == x,
            },
            r is Ok ==> old(self).token_index < final(self).token_index,
        decreases old(self).tokens.len() - old(self).token_index, 0nat,
    {
        let ghost ts = self.tv();
        let ghost i = self.token_index as int;
        let token_type = match self.peek() {
            Some(t) => t.token_type,
            None => {
                return Err(ParseError::UnexpectedEndOfInput);
            },
        };
        assert(ts[i].kind == token_type);
        match token_type {
            TokenType::INT => {
                let text = match &self.tokens[self.token_index].value {
                    Some(text) => text.clone(),
                    None => String::new(),
                };
                assert(ts[i].literal == Some(text@));
                let v = int_of_digits(&text);
                self.consume();
                match v {
                    Some(val) => Ok(NodeExpr::INT(Box::new(NodeExprInt { val }))),
                    None => Err(ParseError::NumericLiteralOverflow(text)),
                }
            },
            TokenType::FLOAT => {
                let text = match &self.tokens[self.token_index].value {
                    Some(text) => text.clone(),
                    None => String::new(),
                };
                self.consume();
                Ok(NodeExpr::FLOAT(Box::new(NodeExprFloat { val: text })))
            },
            TokenType::OpenParen => {
                self.consume();
                let inner = self.parse_expr();
                match inner {
                    Ok(e) => {
                        if self.is_at(TokenType::CloseParen) {
                            self.consume();
                            Ok(e)
                        } else {
                            Err(ParseError::UnmatchedParenthesis)
                        }
                    },
                    Err(ParseError::UnexpectedEndOfInput) => Err(ParseError::UnmatchedParenthesis),
                    Err(x) => Err(x),
                }
            },
            TokenType::SIN | TokenType::COS | TokenType::LN | TokenType::LOG => {
                self.consume();
                if !self.is_at(TokenType::OpenParen) {
                    return Err(ParseError::MissingFunctionCallParens);
                }
                self.consume();
                let inner = self.parse_primary_expr();
                let inside_expr = match inner {
                    Ok(e) => e,
                    Err(ParseError::UnexpectedEndOfInput) => {
                        return Err(ParseError::MissingFunctionOperand);
                    },
                    Err(x) => {
                        return Err(x);
                    },
                };
                if !self.is_at(TokenType::CloseParen) {
                    return Err(ParseError::UnmatchedParenthesis);
                }
                self.consume();
                match token_type {
                    TokenType::SIN => Ok(NodeExpr::SIN(Box::new(NodeExprSin { expr: inside_expr }))),
                    TokenType::COS => Ok(NodeExpr::COS(Box::new(NodeExprCos { expr: inside_expr }))),
                    TokenType::LN => Ok(NodeExpr::LN(Box::new(NodeExprLn { expr: inside_expr }))),
                    _ => Ok(NodeExpr::LOG(Box::new(NodeExprLog { expr: inside_expr }))),
                }
            },
            _ => Err(ParseError::UnexpectedToken(token_type)),
        }
    }

    /// The binary operator under the cursor with its precedence, if it binds at
    /// least as tightly as `min_prec`.
    pub fn next_op(&self, min_prec: i32) -> (r: Option<(Operation, i32)>)
        ensures
            match op_at(self.tv(), self.token_index as int, min_prec as int) {
                Some((op, p)) => r == Some((op, p as i32)) && 0 <= p <= 2,
                None => r is None,
            },
    {
        if let Some(token) = self.peek() {
            let (op, prec) = match token.token_type {
                TokenType::ADD => (Operation::ADD, 0),
                TokenType::SUB => (Operation::SUB, 0),
                TokenType::MUL => (Operation::MUL, 1),
                TokenType::DIV => (Operation::DIV, 1),
                TokenType::EXP => (Operation::EXP, 2),
                _ => {
                    return None;
                },
            };
            if prec >= min_prec {
                return Some((op, prec));
            }
        }
        None
    }

    /// Whether the token under the cursor is of kind `k`.
    fn is_at(&self, k: TokenType) -> (r: bool)
        ensures
            r == is_kind(self.tv(), self.token_index as int, k),
    {
        match self.peek() {
            Some(t) => t.token_type == k,
            None => false,
        }
    }

    /// The token under the cursor, if any.
    pub fn peek(&self) -> (r: Option<&Token>)
        ensures
            r == (if self.token_index < self.tokens.len() {
                Some(&self.tokens@[self.token_index as int])
            } else {
                None
            }),
    {
        if self.token_index < self.tokens.len() {
            Some(&self.tokens[self.token_index])
        } else {
            None
        }
    }

    /// The token under the cursor, if any; the cursor moves forward by one either way.
    pub fn consume(&mut self) -> (r: Option<&Token>)
        requires
            old(self).token_index < usize::MAX,
        ensures
            final(self).tokens == old(self).tokens,
            final(self).token_index == old(self).token_index + 1,
            r == (if old(self).token_index < old(self).tokens.len() {
                Some(&old(self).tokens@[old(self).token_index as int])
            } else {
                None
            }),
    {
        let i = self.token_index;
        self.token_index = i + 1;
        if i < self.tokens.len() {
            Some(&self.tokens[i])
        } else {
            None
        }
    }
}

} // verus!
