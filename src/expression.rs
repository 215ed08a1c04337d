//! From text to syntax tree, and what holds of that pipeline as a whole.
use vstd::prelude::*;
use crate::parser::{
    Expr, NodeExpr, ParseError, ParseErrorView, Parser, climb, digits_value, expr, op_at, operation_of, prec_of,
    primary, raise,
};
use crate::text::is_digit;
use crate::tokenizer::{
    TokenType, TokenView, Tokenizer, TokenizeError, TokenizeErrorView, dot_count, lemma_lex_wf, lex, number_len,
    strip_underscores, tokens_view,
};

verus! {

/// Why a text is not an expression: its lexing or its parsing failed.
#[derive(Clone, PartialEq, Debug)]
pub enum SyntaxError {
    Tokenize(TokenizeError),
    Parse(ParseError),
}

/// Tokenizes `text` and parses one expression from the start of its tokens.
pub fn parse_expression(text: &str) -> (r: Result<NodeExpr, SyntaxError>)
    ensures
        match lex(text@, 0) {
            Err(e) => r matches Err(SyntaxError::Tokenize(x)) && x@ == e,
            Ok(ts) => match expr(ts, 0) {
                Ok((e, _)) => r matches Ok(n) && n@ == e,
                Err(x) => r matches Err(SyntaxError::Parse(y)) && y@ == x,
            },
        },
{
    let mut tokenizer = Tokenizer::new(text);
    let tokens = match tokenizer.tokenize() {
        Ok(t) => t,
        Err(e) => {
            return Err(SyntaxError::Tokenize(e));
        },
    };
    proof {
        lemma_lex_wf(text@, 0);
        assert(tokens_view(tokens@) =~= lex(text@, 0)->Ok_0);
    }
    let mut parser = Parser::new(tokens);
    match parser.parse() {
        Ok(e) => Ok(e),
        Err(x) => Err(SyntaxError::Parse(x)),
    }
}

/// The character of a decimal digit.
pub open spec fn digit_char(d: nat) -> char {
    if d == 0 {
        '0'
    } else if d == 1 {
        '1'
    } else if d == 2 {
        '2'
    } else if d == 3 {
        '3'
    } else if d == 4 {
        '4'
    } else if d == 5 {
        '5'
    } else if d == 6 {
        '6'
    } else if d == 7 {
        '7'
    } else if d == 8 {
        '8'
    } else {
        '9'
    }
}

/// The decimal text of `n`, without leading zeros.
pub open spec fn decimal(n: nat) -> Seq<char>
    decreases n,
{
    if n < 10 {
        seq![digit_char(n)]
    } else {
        decimal(n / 10).push(digit_char(n % 10))
    }
}

proof fn lemma_decimal(n: nat)
    ensures
        decimal(n).len() > 0,
        forall|m: int| 0 <= m < decimal(n).len() ==> is_digit(#[trigger] decimal(n)[m]),
        digits_value(decimal(n)) == n,
    decreases n,
{
    if n < 10 {
        lemma_digit_char(n);
        assert(decimal(n).drop_last().len() == 0);
        assert(digits_value(decimal(n).drop_last()) == 0);
    } else {
        lemma_decimal(n / 10);
        lemma_digit_char(n % 10);
        let s = decimal(n);
        assert(s.drop_last() =~= decimal(n / 10));
        assert(forall|m: int| 0 <= m < s.len() - 1 ==> s[m] == decimal(n / 10)[m]);
        assert(digits_value(s) == digits_value(decimal(n / 10)) * 10 + (n % 10));
    }
}

proof fn lemma_digit_char(d: nat)
    requires
        d < 10,
    ensures
        is_digit(digit_char(d)),
        digit_char(d) as int - '0' as int == d,
{
}

proof fn lemma_all_digits(s: Seq<char>)
    requires
        forall|m: int| 0 <= m < s.len() ==> is_digit(#[trigger] s[m]),
    ensures
        forall|i: int| 0 <= i <= s.len() ==> number_len(s, i) == s.len() - i,
        dot_count(s) == 0,
        strip_underscores(s) == s,
    decreases s.len(),
{
    if s.len() > 0 {
        let d = s.drop_last();
        lemma_all_digits(d);
        assert(strip_underscores(s) =~= s);
    }
    assert forall|i: int| 0 <= i <= s.len() implies number_len(s, i) == s.len() - i by {
        lemma_number_len_suffix(s, i);
    }
}

proof fn lemma_number_len_suffix(s: Seq<char>, i: int)
    requires
        0 <= i <= s.len(),
        forall|m: int| 0 <= m < s.len() ==> is_digit(#[trigger] s[m]),
    ensures
        number_len(s, i) == s.len() - i,
    decreases s.len() - i,
{
    if i < s.len() {
        lemma_number_len_suffix(s, i + 1);
    }
}

/// The decimal text of any integer from 0 to `i32::MAX` lexes to one integer
/// token that carries the text, and that token parses to a leaf holding the integer.
pub proof fn law_integer_literal(n: nat)
    requires
        n <= i32::MAX,
    ensures
        lex(decimal(n), 0) == Ok::<Seq<TokenView>, TokenizeErrorView>(
            seq![TokenView { kind: TokenType::INT, literal: Some(decimal(n)) }],
        ),
        expr(seq![TokenView { kind: TokenType::INT, literal: Some(decimal(n)) }], 0) == Ok::<
            (Expr, int),
            ParseErrorView,
        >((Expr::Int(n as int), 1int)),
{
    let s = decimal(n);
    lemma_decimal(n);
    lemma_all_digits(s);
    assert(s.subrange(0, s.len() as int) =~= s);
    let t = TokenView { kind: TokenType::INT, literal: Some(s) };
    assert(lex(s, s.len() as int) == Ok::<Seq<TokenView>, TokenizeErrorView>(
        Seq::empty(),
    ));
    assert(seq![t] + Seq::<TokenView>::empty() =~= seq![t]);
}

/// An integer token with the digit text `l`.
pub open spec fn int_token(l: Seq<char>) -> TokenView {
    TokenView { kind: TokenType::INT, literal: Some(l) }
}

/// A token without text.
pub open spec fn bare_token(k: TokenType) -> TokenView {
    TokenView { kind: k, literal: None }
}

/// Between three integer operands, the operator that binds more tightly is grouped
/// first; at equal precedence (`^` included) the left one is.
pub proof fn law_precedence(a: Seq<char>, b: Seq<char>, c: Seq<char>, k1: TokenType, k2: TokenType)
    requires
        digits_value(a) <= i32::MAX,
        digits_value(b) <= i32::MAX,
        digits_value(c) <= i32::MAX,
        operation_of(k1) is Some,
        operation_of(k2) is Some,
    ensures
        ({
            let ts = seq![int_token(a), bare_token(k1), int_token(b), bare_token(k2), int_token(c)];
            let x = Expr::Int(digits_value(a));
            let y = Expr::Int(digits_value(b));
            let z = Expr::Int(digits_value(c));
            let o1 = operation_of(k1)->0;
            let o2 = operation_of(k2)->0;
            expr(ts, 0) == Ok::<(Expr, int), ParseErrorView>(
                (
                    if prec_of(k2) > prec_of(k1) {
                        Expr::Bin(o1, Box::new(x), Box::new(Expr::Bin(o2, Box::new(y), Box::new(z))))
                    } else {
                        Expr::Bin(o2, Box::new(Expr::Bin(o1, Box::new(x), Box::new(y))), Box::new(z))
                    },
                    5,
                ),
            )
        }),
{
    let ts = seq![int_token(a), bare_token(k1), int_token(b), bare_token(k2), int_token(c)];
    let x = Expr::Int(digits_value(a));
    let y = Expr::Int(digits_value(b));
    let z = Expr::Int(digits_value(c));
    let o1 = operation_of(k1)->0;
    let o2 = operation_of(k2)->0;
    let p1 = prec_of(k1);
    let p2 = prec_of(k2);
    assert(primary(ts, 0) == Ok::<(Expr, int), ParseErrorView>((x, 1)));
    assert(primary(ts, 2) == Ok::<(Expr, int), ParseErrorView>((y, 3)));
    assert(primary(ts, 4) == Ok::<(Expr, int), ParseErrorView>((z, 5)));
    assert(op_at(ts, 1, 0) == Some((o1, p1)));
    assert(op_at(ts, 5, p2 + 1) is None);
    assert(raise(ts, 5, z, p2) == Ok::<(Expr, int), ParseErrorView>((z, 5)));
    if p2 > p1 {
        let yz = Expr::Bin(o2, Box::new(y), Box::new(z));
        let all = Expr::Bin(o1, Box::new(x), Box::new(yz));
        assert(op_at(ts, 3, p1 + 1) == Some((o2, p2)));
        assert(op_at(ts, 3, p2) == Some((o2, p2)));
        assert(climb(ts, 5, yz, p2) == Ok::<(Expr, int), ParseErrorView>((yz, 5)));
        assert(climb(ts, 3, y, p2) == Ok::<(Expr, int), ParseErrorView>((yz, 5)));
        assert(op_at(ts, 5, p1 + 1) is None);
        assert(raise(ts, 5, yz, p1) == Ok::<(Expr, int), ParseErrorView>((yz, 5)));
        assert(raise(ts, 3, y, p1) == Ok::<(Expr, int), ParseErrorView>((yz, 5)));
        assert(op_at(ts, 5, 0) is None);
        assert(climb(ts, 5, all, 0) == Ok::<(Expr, int), ParseErrorView>((all, 5)));
        assert(climb(ts, 1, x, 0) == Ok::<(Expr, int), ParseErrorView>((all, 5)));
    } else {
        let xy = Expr::Bin(o1, Box::new(x), Box::new(y));
        let all = Expr::Bin(o2, Box::new(xy), Box::new(z));
        assert(op_at(ts, 3, p1 + 1) is None);
        assert(raise(ts, 3, y, p1) == Ok::<(Expr, int), ParseErrorView>((y, 3)));
        assert(op_at(ts, 3, 0) == Some((o2, p2)));
        assert(op_at(ts, 5, 0) is None);
        assert(climb(ts, 5, all, 0) == Ok::<(Expr, int), ParseErrorView>((all, 5)));
        assert(climb(ts, 3, xy, 0) == Ok::<(Expr, int), ParseErrorView>((all, 5)));
        assert(climb(ts, 1, x, 0) == Ok::<(Expr, int), ParseErrorView>((all, 5)));
    }
}

} // verus!
