//! Reading a syntax tree back in order gives the tokens it was parsed from,
//! without their parentheses.
use vstd::prelude::*;
use crate::parser::{
    Expr, ParseErrorView, climb, digits_value, expr, function_node, is_kind, op_at,
    operation_of, primary, raise,
};
use crate::tokenizer::{TokenType, TokenView};

verus! {

/// One element of an expression read in order: an operand leaf, a binary operator
/// or a function name.
pub enum Item {
    Leaf(Expr),
    Op(crate::parser::Operation),
    Func(TokenType),
}

/// What a token contributes to the in-order reading; parentheses contribute nothing.
pub open spec fn item_of(t: TokenView) -> Seq<Item> {
    match t.kind {
        TokenType::INT => seq![Item::Leaf(Expr::Int(digits_value(t.literal->0)))],
        TokenType::FLOAT => seq![Item::Leaf(Expr::Float(t.literal->0))],
        TokenType::OpenParen | TokenType::CloseParen => Seq::empty(),
        TokenType::SIN | TokenType::COS | TokenType::LN | TokenType::LOG => seq![Item::Func(t.kind)],
        _ => seq![Item::Op(operation_of(t.kind)->0)],
    }
}

/// The in-order reading of a token sequence.
pub open spec fn items(ts: Seq<TokenView>) -> Seq<Item>
    decreases ts.len(),
{
    if ts.len() == 0 {
        Seq::empty()
    } else {
        items(ts.drop_last()) + item_of(ts.last())
    }
}

/// The in-order reading of a tree.
pub open spec fn flatten(e: Expr) -> Seq<Item>
    decreases e,
{
    match e {
        Expr::Sin(a) => seq![Item::Func(TokenType::SIN)] + flatten(*a),
        Expr::Cos(a) => seq![Item::Func(TokenType::COS)] + flatten(*a),
        Expr::Ln(a) => seq![Item::Func(TokenType::LN)] + flatten(*a),
        Expr::Log(a) => seq![Item::Func(TokenType::LOG)] + flatten(*a),
        Expr::Bin(o, a, b) => flatten(*a) + seq![Item::Op(o)] + flatten(*b),
        _ => seq![Item::Leaf(e)],
    }
}

proof fn lemma_items_concat(x: Seq<TokenView>, y: Seq<TokenView>)
    ensures
        items(x + y) == items(x) + items(y),
    decreases y.len(),
{
    if y.len() == 0 {
        assert(x + y =~= x);
        assert(items(x) + items(y) =~= items(x));
    } else {
        lemma_items_concat(x, y.drop_last());
        assert((x + y).drop_last() =~= x + y.drop_last());
        assert(items(x) + items(y.drop_last()) + item_of(y.last()) =~= items(x) + (items(
            y.drop_last(),
        ) + item_of(y.last())));
    }
}

proof fn lemma_items_split(ts: Seq<TokenView>, a: int, b: int, c: int)
    requires
        0 <= a <= b <= c <= ts.len(),
    ensures
        items(ts.subrange(a, c)) == items(ts.subrange(a, b)) + items(ts.subrange(b, c)),
{
    assert(ts.subrange(a, c) =~= ts.subrange(a, b) + ts.subrange(b, c));
    lemma_items_concat(ts.subrange(a, b), ts.subrange(b, c));
}

proof fn lemma_items_one(ts: Seq<TokenView>, i: int)
    requires
        0 <= i < ts.len(),
    ensures
        items(ts.subrange(i, i + 1)) == item_of(ts[i]),
{
    let s = ts.subrange(i, i + 1);
    assert(s.drop_last().len() == 0);
    assert(items(s.drop_last()) + item_of(ts[i]) =~= item_of(ts[i]));
}

proof fn lemma_assoc(f: Seq<Item>, o: Seq<Item>, r1: Seq<Item>, r2: Seq<Item>, r3: Seq<Item>)
    ensures
        f + o + (r1 + r2) + r3 == f + (o + (r1 + (r2 + r3))),
{
    assert(f + o + (r1 + r2) + r3 =~= f + (o + (r1 + (r2 + r3))));
}

proof fn lemma_primary(ts: Seq<TokenView>, i: int)
    ensures
        primary(ts, i) matches Ok((e, j)) ==> i < j <= ts.len() && flatten(e) == items(
            ts.subrange(i, j),
        ),
    decreases ts.len() - i, 0nat,
{
    if 0 <= i < ts.len() {
        let k = ts[i].kind;
        match k {
            TokenType::INT | TokenType::FLOAT => {
                lemma_items_one(ts, i);
            },
            TokenType::OpenParen => {
                lemma_expr(ts, i + 1);
                if let Ok((e, j)) = expr(ts, i + 1) {
                    if is_kind(ts, j, TokenType::CloseParen) {
                        lemma_items_split(ts, i, i + 1, j + 1);
                        lemma_items_split(ts, i + 1, j, j + 1);
                        lemma_items_one(ts, i);
                        lemma_items_one(ts, j);
                        assert(items(ts.subrange(i + 1, j)) + Seq::<Item>::empty() =~= items(
                            ts.subrange(i + 1, j),
                        ));
                        assert(Seq::<Item>::empty() + items(ts.subrange(i + 1, j)) =~= items(
                            ts.subrange(i + 1, j),
                        ));
                    }
                }
            },
            TokenType::SIN | TokenType::COS | TokenType::LN | TokenType::LOG => {
                if is_kind(ts, i + 1, TokenType::OpenParen) {
                    lemma_primary(ts, i + 2);
                    if let Ok((e, j)) = primary(ts, i + 2) {
                        if is_kind(ts, j, TokenType::CloseParen) {
                            lemma_items_split(ts, i, i + 1, j + 1);
                            lemma_items_split(ts, i + 1, i + 2, j + 1);
                            lemma_items_split(ts, i + 2, j, j + 1);
                            lemma_items_one(ts, i);
                            lemma_items_one(ts, i + 1);
                            lemma_items_one(ts, j);
                            let inner = items(ts.subrange(i + 2, j));
                            assert(inner + Seq::<Item>::empty() =~= inner);
                            assert(Seq::<Item>::empty() + inner =~= inner);
                            assert(flatten(function_node(k, e)) == seq![Item::Func(k)] + flatten(
                                e,
                            ));
                        }
                    }
                }
            },
            _ => {},
        }
    }
}

proof fn lemma_expr(ts: Seq<TokenView>, i: int)
    ensures
        expr(ts, i) matches Ok((e, j)) ==> i < j <= ts.len() && flatten(e) == items(
            ts.subrange(i, j),
        ),
    decreases ts.len() - i, 2nat,
{
    lemma_primary(ts, i);
    if let Ok((lhs, j)) = primary(ts, i) {
        if i < j <= ts.len() {
            lemma_climb(ts, j, lhs, 0);
            if let Ok((e, k)) = climb(ts, j, lhs, 0) {
                lemma_items_split(ts, i, j, k);
            }
        }
    }
}

proof fn lemma_climb(ts: Seq<TokenView>, i: int, lhs: Expr, min: int)
    requires
        0 <= i <= ts.len(),
    ensures
        climb(ts, i, lhs, min) matches Ok((e, k)) ==> i <= k <= ts.len() && flatten(e) == flatten(
            lhs,
        ) + items(ts.subrange(i, k)),
    decreases ts.len() - i, 1nat,
{
    match op_at(ts, i, min) {
        None => {
            assert(items(ts.subrange(i, i)) =~= Seq::<Item>::empty()) by {
                assert(ts.subrange(i, i).len() == 0);
            }
            assert(flatten(lhs) + Seq::<Item>::empty() =~= flatten(lhs));
        },
        Some((op, p)) => {
            lemma_primary(ts, i + 1);
            if let Ok((rhs, j)) = primary(ts, i + 1) {
                if i < j <= ts.len() {
                    lemma_raise(ts, j, rhs, p);
                    if let Ok((rhs2, k)) = raise(ts, j, rhs, p) {
                        if i < k <= ts.len() {
                            let b = Expr::Bin(op, Box::new(lhs), Box::new(rhs2));
                            lemma_climb(ts, k, b, min);
                            if let Ok((e, m)) = climb(ts, k, b, min) {
                                lemma_items_one(ts, i);
                                lemma_items_split(ts, i, i + 1, m);
                                lemma_items_split(ts, i + 1, j, m);
                                lemma_items_split(ts, j, k, m);
                                let f = flatten(lhs);
                                let o = seq![Item::Op(op)];
                                let r1 = items(ts.subrange(i + 1, j));
                                let r2 = items(ts.subrange(j, k));
                                let r3 = items(ts.subrange(k, m));
                                assert(item_of(ts[i]) == o);
                                assert(flatten(rhs2) == r1 + r2);
                                assert(flatten(b) == f + o + (r1 + r2));
                                assert(flatten(e) == f + o + (r1 + r2) + r3);
                                assert(items(ts.subrange(i, m)) == o + (r1 + (r2 + r3)));
                                lemma_assoc(f, o, r1, r2, r3);
                            }
                        }
                    }
                }
            }
        },
    }
}

proof fn lemma_raise(ts: Seq<TokenView>, j: int, rhs: Expr, p: int)
    requires
        0 <= j <= ts.len(),
    ensures
        raise(ts, j, rhs, p) matches Ok((e, k)) ==> j <= k <= ts.len() && flatten(e) == flatten(
            rhs,
        ) + items(ts.subrange(j, k)),
    decreases ts.len() - j, 2nat,
{
    match op_at(ts, j, p + 1) {
        None => {
            assert(items(ts.subrange(j, j)) =~= Seq::<Item>::empty()) by {
                assert(ts.subrange(j, j).len() == 0);
            }
            assert(flatten(rhs) + Seq::<Item>::empty() =~= flatten(rhs));
        },
        Some((_, q)) => {
            lemma_climb(ts, j, rhs, q);
            if let Ok((r2, k)) = climb(ts, j, rhs, q) {
                if j < k <= ts.len() {
                    lemma_raise(ts, k, r2, p);
                    if let Ok((e, m)) = raise(ts, k, r2, p) {
                        lemma_items_split(ts, j, k, m);
                        assert(flatten(rhs) + items(ts.subrange(j, k)) + items(ts.subrange(k, m))
                            =~= flatten(rhs) + (items(ts.subrange(j, k)) + items(
                            ts.subrange(k, m),
                        )));
                    }
                }
            }
        },
    }
}

/// Whatever expression is parsed from position `i`, reading its tree in order gives
/// back the tokens it was parsed from, parentheses left out.
pub proof fn law_in_order_reading(ts: Seq<TokenView>, i: int)
    ensures
        expr(ts, i) matches Ok((e, j)) ==> flatten(e) == items(ts.subrange(i, j)),
{
    lemma_expr(ts, i);
}

} // verus!
