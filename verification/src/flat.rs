//! Lines without parentheses over `+`, `-`, `*` and `/`, read the way of
//! school arithmetic, and the proof that the parser reads them that way.
//!
//! The school reading of `a - b * c + d / e` needs no binding powers: the
//! last `+` or `-` splits the line into a sum on its left and a product on
//! its right, and within a product the last `*` or `/` splits off the last
//! operand. So sums and products run from left to right, and products come
//! before sums.

use crate::env::Number;
use crate::eval::{
    arithmetic_tree, assignment_of, evaluable, value_of, EvalError, Evaluated, Host,
};
use crate::expr::SpecExpr;
use crate::lexer::{head_of, tail_of};
use crate::machine::{lemma_run_evaluates, start_spec};
use crate::parser::{climb_spec, is_operator, parse_line, parse_spec, ParseError, Parsed};
use crate::token::{tokens_of, SpecToken};
use vstd::prelude::*;

verus! {

/// The operator `+` or `-`.
pub open spec fn is_additive(token: SpecToken) -> bool {
    is_operator(token, '+') || is_operator(token, '-')
}

/// The operator `*` or `/`.
pub open spec fn is_multiplicative(token: SpecToken) -> bool {
    is_operator(token, '*') || is_operator(token, '/')
}

/// The characters of a token.
pub open spec fn text_of(token: SpecToken) -> Seq<char> {
    match token {
        SpecToken::Operand(text) => text,
        SpecToken::Operator(text) => text,
        SpecToken::Eof => Seq::empty(),
    }
}

/// Operands with one of `+`, `-`, `*`, `/` between each two of them, and
/// nothing else.
pub open spec fn is_flat(tokens: Seq<SpecToken>) -> bool {
    &&& tokens.len() % 2 == 1
    &&& forall|i: int|
        0 <= i < tokens.len() ==> if i % 2 == 0 {
            (#[trigger] tokens[i]) is Operand
        } else {
            is_additive(tokens[i]) || is_multiplicative(tokens[i])
        }
}

/// The place of the last `+` or `-` in `tokens`, or -1 if there is none.
pub open spec fn last_additive(tokens: Seq<SpecToken>) -> int
    decreases tokens.len(),
{
    if tokens.len() == 0 {
        -1
    } else if is_additive(tokens.last()) {
        tokens.len() - 1
    } else {
        last_additive(tokens.drop_last())
    }
}

/// The tree of a product: its last operator, applied to the product before
/// it and to the last operand.
pub open spec fn product_tree(tokens: Seq<SpecToken>) -> SpecExpr
    recommends
        is_flat(tokens),
    decreases tokens.len(),
{
    if tokens.len() < 3 {
        SpecExpr::Operand(text_of(tokens[0]))
    } else {
        let n = tokens.len() as int;
        SpecExpr::Operation(
            text_of(tokens[n - 2]),
            seq![product_tree(tokens.take(n - 2)), SpecExpr::Operand(text_of(tokens[n - 1]))],
        )
    }
}

/// The tree of a sum of products: its last `+` or `-`, applied to the sum
/// before it and to the product after it.
pub open spec fn sum_tree(tokens: Seq<SpecToken>) -> SpecExpr
    recommends
        is_flat(tokens),
    decreases tokens.len(),
{
    let k = last_additive(tokens);
    if 0 <= k < tokens.len() {
        SpecExpr::Operation(
            text_of(tokens[k]),
            seq![sum_tree(tokens.take(k)), product_tree(tokens.skip(k + 1))],
        )
    } else {
        product_tree(tokens)
    }
}

/// Where the product that is under way at the operator place `p` ends: at
/// the first place from `p` on that holds no `*` or `/`.
pub open spec fn term_end(tokens: Seq<SpecToken>, p: int) -> int
    decreases tokens.len() - p,
{
    if p < 0 || p + 2 > tokens.len() || !is_multiplicative(tokens[p]) {
        p
    } else {
        term_end(tokens, p + 2)
    }
}

proof fn lemma_term_end(tokens: Seq<SpecToken>, p: int)
    requires
        is_flat(tokens),
        0 < p <= tokens.len(),
        p % 2 == 1,
    ensures
        p <= term_end(tokens, p) <= tokens.len(),
        term_end(tokens, p) % 2 == 1,
        term_end(tokens, p) == tokens.len() || is_additive(tokens[term_end(tokens, p)]),
        forall|j: int| p <= j < term_end(tokens, p) ==> !is_additive(#[trigger] tokens[j]),
    decreases tokens.len() - p,
{
    if p < tokens.len() && is_multiplicative(tokens[p]) {
        lemma_term_end(tokens, p + 2);
        assert(tokens[p + 1] is Operand);
        assert forall|j: int| p <= j < term_end(tokens, p) implies !is_additive(
            #[trigger] tokens[j],
        ) by {
            if j == p + 1 {
                assert(tokens[j] is Operand);
            }
        }
    } else if p < tokens.len() {
        assert(is_additive(tokens[p]) || is_multiplicative(tokens[p]));
    }
}

proof fn lemma_skip_front(tokens: Seq<SpecToken>, s: int)
    requires
        0 <= s <= tokens.len(),
    ensures
        s < tokens.len() ==> head_of(tokens.skip(s)) == tokens[s],
        s < tokens.len() ==> tail_of(tokens.skip(s)) == tokens.skip(s + 1),
        s == tokens.len() ==> head_of(tokens.skip(s)) == SpecToken::Eof,
        tokens.skip(s).len() == tokens.len() - s,
{
    if s < tokens.len() {
        assert(tokens.skip(s).drop_first() =~= tokens.skip(s + 1));
    }
}

/// Without `+` and `-` there is no last one.
proof fn lemma_no_additive(tokens: Seq<SpecToken>)
    requires
        forall|j: int| 0 <= j < tokens.len() ==> !is_additive(#[trigger] tokens[j]),
    ensures
        last_additive(tokens) == -1,
    decreases tokens.len(),
{
    if tokens.len() > 0 {
        assert(!is_additive(tokens[tokens.len() - 1]));
        lemma_no_additive(tokens.drop_last());
    }
}

/// A `+` or `-` with none after it is the last one.
proof fn lemma_last_additive_at(tokens: Seq<SpecToken>, p: int)
    requires
        0 <= p < tokens.len(),
        is_additive(tokens[p]),
        forall|j: int| p < j < tokens.len() ==> !is_additive(#[trigger] tokens[j]),
    ensures
        last_additive(tokens) == p,
    decreases tokens.len(),
{
    if p < tokens.len() - 1 {
        assert(!is_additive(tokens[tokens.len() - 1]));
        lemma_last_additive_at(tokens.drop_last(), p);
    }
}

/// The last `+` or `-`, where there is one, stands at an operator place.
proof fn lemma_last_additive_place(tokens: Seq<SpecToken>)
    requires
        is_flat(tokens),
    ensures
        ({
            let k = last_additive(tokens);
            k == -1 || (0 < k < tokens.len() - 1 && k % 2 == 1 && is_additive(tokens[k]))
        }),
{
    lemma_last_additive_found(tokens);
    let k = last_additive(tokens);
    if k != -1 {
        assert(!(tokens[k] is Operand));
    }
}

proof fn lemma_last_additive_found(tokens: Seq<SpecToken>)
    ensures
        ({
            let k = last_additive(tokens);
            k == -1 || (0 <= k < tokens.len() && is_additive(tokens[k]))
        }),
    decreases tokens.len(),
{
    if tokens.len() > 0 && !is_additive(tokens.last()) {
        lemma_last_additive_found(tokens.drop_last());
    }
}

/// With a minimum above every operator, an operand is parsed alone.
proof fn lemma_parse_operand(tokens: Seq<SpecToken>, s: int)
    requires
        is_flat(tokens),
        0 <= s < tokens.len(),
        s % 2 == 0,
    ensures
        parse_spec(tokens.skip(s), 21) == (Parsed {
            result: Ok(SpecExpr::Operand(text_of(tokens[s]))),
            rest: tokens.skip(s + 1),
        }),
{
    lemma_skip_front(tokens, s);
    lemma_skip_front(tokens, s + 1);
    assert(tokens[s] is Operand);
    if s + 1 < tokens.len() {
        assert(is_additive(tokens[s + 1]) || is_multiplicative(tokens[s + 1]));
    }
    let operand = SpecExpr::Operand(text_of(tokens[s]));
    assert(climb_spec(operand, tokens.skip(s + 1), 21) == (Parsed {
        result: Ok(operand),
        rest: tokens.skip(s + 1),
    }));
}

/// With a minimum between `+` and `*`, extending a product takes in the
/// operators up to the end of the product.
proof fn lemma_climb_product(tokens: Seq<SpecToken>, s: int, p: int)
    requires
        is_flat(tokens),
        0 <= s < p <= tokens.len(),
        s % 2 == 0,
        p % 2 == 1,
        forall|j: int| s <= j < p ==> !is_additive(#[trigger] tokens[j]),
    ensures
        climb_spec(product_tree(tokens.subrange(s, p)), tokens.skip(p), 11) == (Parsed {
            result: Ok(product_tree(tokens.subrange(s, term_end(tokens, p)))),
            rest: tokens.skip(term_end(tokens, p)),
        }),
    decreases tokens.len() - p,
{
    lemma_skip_front(tokens, p);
    if p < tokens.len() {
        assert(is_additive(tokens[p]) || is_multiplicative(tokens[p]));
        if is_multiplicative(tokens[p]) {
            lemma_parse_operand(tokens, p + 1);
            lemma_skip_front(tokens, p + 2);
            let longer = tokens.subrange(s, p + 2);
            assert(longer.take(longer.len() - 2) =~= tokens.subrange(s, p));
            assert(longer[longer.len() - 2] == tokens[p]);
            assert(longer[longer.len() - 1] == tokens[p + 1]);
            assert(product_tree(longer) == SpecExpr::Operation(
                text_of(tokens[p]),
                seq![
                    product_tree(tokens.subrange(s, p)),
                    SpecExpr::Operand(text_of(tokens[p + 1])),
                ],
            ));
            assert(tokens[p + 1] is Operand);
            assert forall|j: int| s <= j < p + 2 implies !is_additive(#[trigger] tokens[j]) by {}
            lemma_climb_product(tokens, s, p + 2);
        }
    }
}

/// With a minimum between `+` and `*`, parsing takes in one product.
proof fn lemma_parse_product(tokens: Seq<SpecToken>, s: int)
    requires
        is_flat(tokens),
        0 <= s < tokens.len(),
        s % 2 == 0,
    ensures
        parse_spec(tokens.skip(s), 11) == (Parsed {
            result: Ok(product_tree(tokens.subrange(s, term_end(tokens, s + 1)))),
            rest: tokens.skip(term_end(tokens, s + 1)),
        }),
{
    lemma_skip_front(tokens, s);
    assert(tokens[s] is Operand);
    let single = tokens.subrange(s, s + 1);
    assert(single[0] == tokens[s]);
    assert(product_tree(single) == SpecExpr::Operand(text_of(tokens[s])));
    lemma_climb_product(tokens, s, s + 1);
}

/// Without a minimum, extending the sum read so far takes in the rest of
/// the line.
proof fn lemma_climb_sum(tokens: Seq<SpecToken>, p: int)
    requires
        is_flat(tokens),
        0 < p <= tokens.len(),
        p % 2 == 1,
        p == tokens.len() || is_additive(tokens[p]) || forall|j: int|
            0 <= j < p ==> !is_additive(#[trigger] tokens[j]),
    ensures
        climb_spec(sum_tree(tokens.take(p)), tokens.skip(p), 0) == (Parsed {
            result: Ok(sum_tree(tokens)),
            rest: Seq::empty(),
        }),
    decreases tokens.len() - p,
{
    lemma_skip_front(tokens, p);
    if p == tokens.len() {
        assert(tokens.take(p) =~= tokens);
        assert(tokens.skip(p) =~= Seq::<SpecToken>::empty());
    } else if is_additive(tokens[p]) {
        let q = term_end(tokens, p + 2);
        lemma_term_end(tokens, p + 2);
        lemma_parse_product(tokens, p + 1);
        lemma_skip_front(tokens, q);
        let longer = tokens.take(q);
        assert(tokens[p + 1] is Operand);
        assert forall|j: int| p < j < longer.len() implies !is_additive(#[trigger] longer[j]) by {
            assert(longer[j] == tokens[j]);
        }
        assert(longer[p] == tokens[p]);
        lemma_last_additive_at(longer, p);
        assert(longer.take(p) =~= tokens.take(p));
        assert(longer.skip(p + 1) =~= tokens.subrange(p + 1, q));
        assert(sum_tree(longer) == SpecExpr::Operation(
            text_of(tokens[p]),
            seq![sum_tree(tokens.take(p)), product_tree(tokens.subrange(p + 1, q))],
        ));
        lemma_climb_sum(tokens, q);
    } else {
        assert(is_additive(tokens[p]) || is_multiplicative(tokens[p]));
        lemma_parse_operand(tokens, p + 1);
        lemma_skip_front(tokens, p + 2);
        let shorter = tokens.take(p);
        let longer = tokens.take(p + 2);
        assert(tokens[p + 1] is Operand);
        assert forall|j: int| 0 <= j < shorter.len() implies !is_additive(#[trigger] shorter[j]) by {
            assert(shorter[j] == tokens[j]);
        }
        assert forall|j: int| 0 <= j < longer.len() implies !is_additive(#[trigger] longer[j]) by {
            assert(longer[j] == tokens[j]);
        }
        lemma_no_additive(shorter);
        lemma_no_additive(longer);
        assert(longer.take(longer.len() - 2) =~= shorter);
        assert(longer[longer.len() - 2] == tokens[p]);
        assert(longer[longer.len() - 1] == tokens[p + 1]);
        assert(sum_tree(longer) == SpecExpr::Operation(
            text_of(tokens[p]),
            seq![sum_tree(shorter), SpecExpr::Operand(text_of(tokens[p + 1]))],
        ));
        assert forall|j: int| 0 <= j < p + 2 implies !is_additive(#[trigger] tokens[j]) by {
            assert(tokens[j] == longer[j]);
        }
        lemma_climb_sum(tokens, p + 2);
    }
}

/// The parser reads a line without parentheses over `+`, `-`, `*` and `/`
/// the way of school arithmetic: from left to right, products before sums.
/// It reads the whole line, and the tree is [`sum_tree`] of the tokens.
pub proof fn lemma_parse_flat(tokens: Seq<SpecToken>)
    requires
        is_flat(tokens),
    ensures
        parse_spec(tokens, 0) == (Parsed { result: Ok(sum_tree(tokens)), rest: Seq::empty() }),
{
    lemma_skip_front(tokens, 0);
    assert(tokens.skip(0) =~= tokens);
    assert(tokens[0] is Operand);
    let single = tokens.take(1);
    assert(single[0] == tokens[0]);
    assert forall|j: int| 0 <= j < single.len() implies !is_additive(#[trigger] single[j]) by {}
    lemma_no_additive(single);
    assert(sum_tree(single) == SpecExpr::Operand(text_of(tokens[0])));
    assert forall|j: int| 0 <= j < 1 implies !is_additive(#[trigger] tokens[j]) by {}
    lemma_climb_sum(tokens, 1);
}

/// The tree of a product is an arithmetic tree.
proof fn lemma_product_tree_is_arithmetic(tokens: Seq<SpecToken>)
    requires
        is_flat(tokens),
    ensures
        arithmetic_tree(product_tree(tokens)),
        tokens.len() >= 3 ==> !is_operator(tokens[tokens.len() - 2], '='),
    decreases tokens.len(),
{
    if tokens.len() >= 3 {
        let n = tokens.len() as int;
        let shorter = tokens.take(n - 2);
        assert forall|i: int| 0 <= i < shorter.len() implies if i % 2 == 0 {
            (#[trigger] shorter[i]) is Operand
        } else {
            is_additive(shorter[i]) || is_multiplicative(shorter[i])
        } by {
            assert(shorter[i] == tokens[i]);
        }
        lemma_product_tree_is_arithmetic(shorter);
        assert(is_additive(tokens[n - 2]) || is_multiplicative(tokens[n - 2]));
        assert(arithmetic_tree(SpecExpr::Operand(text_of(tokens[n - 1]))));
    }
}

/// The tree of a sum of products is an arithmetic tree, and no assignment.
pub proof fn lemma_sum_tree_is_arithmetic(tokens: Seq<SpecToken>)
    requires
        is_flat(tokens),
    ensures
        arithmetic_tree(sum_tree(tokens)),
        assignment_of(sum_tree(tokens)) == Ok::<Option<(Seq<char>, SpecExpr)>, EvalError>(None),
        evaluable(sum_tree(tokens)),
    decreases tokens.len(),
{
    let k = last_additive(tokens);
    lemma_last_additive_place(tokens);
    if 0 <= k < tokens.len() {
        let before = tokens.take(k);
        let after = tokens.skip(k + 1);
        assert forall|i: int| 0 <= i < before.len() implies if i % 2 == 0 {
            (#[trigger] before[i]) is Operand
        } else {
            is_additive(before[i]) || is_multiplicative(before[i])
        } by {
            assert(before[i] == tokens[i]);
        }
        assert forall|i: int| 0 <= i < after.len() implies if i % 2 == 0 {
            (#[trigger] after[i]) is Operand
        } else {
            is_additive(after[i]) || is_multiplicative(after[i])
        } by {
            assert(after[i] == tokens[k + 1 + i]);
        }
        lemma_sum_tree_is_arithmetic(before);
        lemma_product_tree_is_arithmetic(after);
    } else {
        lemma_product_tree_is_arithmetic(tokens);
    }
}

/// Parsing and then evaluating a line without parentheses over `+`, `-`,
/// `*` and `/` is school arithmetic: the line parses, the tree is the sum of
/// products that the line spells, and for every host the evaluation ends
/// with the value of that tree, or with its failure, and changes no
/// variable.
pub proof fn lemma_flat_line_is_school_arithmetic(
    line: Seq<char>,
    env: Map<Seq<char>, Number>,
    host: Host,
)
    requires
        is_flat(tokens_of(line)),
    ensures
        parse_line(line) == Ok::<SpecExpr, ParseError>(sum_tree(tokens_of(line))),
        evaluable(sum_tree(tokens_of(line))),
        start_spec(sum_tree(tokens_of(line))).run(env, host) == (Evaluated {
            result: match value_of(sum_tree(tokens_of(line)), env, host) {
                Ok(number) => Ok(Some(number)),
                Err(error) => Err(error),
            },
            env,
        }),
{
    let tokens = tokens_of(line);
    lemma_parse_flat(tokens);
    lemma_sum_tree_is_arithmetic(tokens);
    lemma_run_evaluates(sum_tree(tokens), env, host);
}

} // verus!
