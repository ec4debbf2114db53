//! What holds of the tokenizer, the parser and the evaluator as a whole.

use crate::env::Number;
use crate::eval::{evaluate_spec, value_of, EvalError, Evaluated, Host};
use crate::expr::{Expression, SpecExpr};
use crate::lexer::{head_of, tail_of};
use crate::parser::{
    binding_power, climb_spec, is_operator, lemma_parse_shrinks, parse_line, parse_spec,
    result_view, symbol_of, ParseError, Parsed,
};
use crate::text::whitespace;
use crate::token::{lemma_word_len_bound, word_len, words, SpecToken};
use vstd::prelude::*;

verus! {

/// The characters of `s` that are not whitespace, in order.
pub open spec fn visible(s: Seq<char>) -> Seq<char>
    decreases s.len(),
{
    if s.len() == 0 {
        Seq::empty()
    } else if whitespace(s[0]) {
        visible(s.drop_first())
    } else {
        seq![s[0]] + visible(s.drop_first())
    }
}

/// The words of `words` one after the other, with nothing between them.
pub open spec fn joined(words: Seq<Seq<char>>) -> Seq<char>
    decreases words.len(),
{
    if words.len() == 0 {
        Seq::empty()
    } else {
        words[0] + joined(words.drop_first())
    }
}

/// The characters counted by `word_len` are not whitespace.
proof fn lemma_word_is_clean(s: Seq<char>)
    ensures
        forall|j: int| 0 <= j < word_len(s) ==> !whitespace(#[trigger] s[j]),
    decreases s.len(),
{
    lemma_word_len_bound(s);
    if s.len() != 0 && !whitespace(s[0]) {
        lemma_word_is_clean(s.drop_first());
        lemma_word_len_bound(s.drop_first());
        assert forall|j: int| 0 <= j < word_len(s) implies !whitespace(#[trigger] s[j]) by {
            if j > 0 {
                assert(s[j] == s.drop_first()[j - 1]);
            }
        }
    }
}

/// The visible characters of a text are its first word and the visible
/// characters of what follows that word.
proof fn lemma_visible_after_word(s: Seq<char>)
    ensures
        word_len(s) <= s.len(),
        visible(s) == s.take(word_len(s) as int) + visible(s.skip(word_len(s) as int)),
    decreases s.len(),
{
    lemma_word_len_bound(s);
    if s.len() == 0 || whitespace(s[0]) {
        assert(s.skip(0) == s);
        assert(s.take(0) + visible(s) == visible(s));
    } else {
        let rest = s.drop_first();
        let n = word_len(rest) as int;
        lemma_visible_after_word(rest);
        assert(s.take(n + 1) == seq![s[0]] + rest.take(n));
        assert(s.skip(n + 1) == rest.skip(n));
        assert(seq![s[0]] + (rest.take(n) + visible(rest.skip(n))) == (seq![s[0]] + rest.take(n))
            + visible(rest.skip(n)));
    }
}

/// A word in the narrow sense: at least one character, and no whitespace.
pub open spec fn is_word(word: Seq<char>) -> bool {
    &&& word.len() > 0
    &&& forall|j: int| 0 <= j < word.len() ==> !whitespace(#[trigger] word[j])
}

/// No token spans whitespace: every word of a text has at least one
/// character, and none of its characters is whitespace.
pub proof fn lemma_words_hold_no_whitespace(s: Seq<char>)
    ensures
        forall|i: int| 0 <= i < words(s).len() ==> is_word(#[trigger] words(s)[i]),
    decreases s.len(),
{
    if s.len() == 0 {
        assert(words(s).len() == 0);
    } else if whitespace(s[0]) {
        lemma_words_hold_no_whitespace(s.drop_first());
        assert(words(s) == words(s.drop_first()));
    } else {
        let n = word_len(s) as int;
        lemma_word_len_bound(s);
        lemma_word_is_clean(s);
        lemma_words_hold_no_whitespace(s.skip(n));
        let later = words(s.skip(n));
        assert(words(s) == seq![s.take(n)] + later);
        assert forall|i: int| 0 <= i < words(s).len() implies is_word(#[trigger] words(s)[i]) by {
            if i == 0 {
                let word = words(s)[0];
                assert(word == s.take(n));
                assert forall|j: int| 0 <= j < word.len() implies !whitespace(#[trigger] word[j]) by {
                    assert(word[j] == s[j]);
                }
            } else {
                assert(words(s)[i] == later[i - 1]);
            }
        }
    }
}

/// Tokenizing is total: every character that is not whitespace lands in
/// exactly one word, in its place. Put together, the words of a text are the
/// text without its whitespace.
pub proof fn lemma_words_keep_every_character(s: Seq<char>)
    ensures
        joined(words(s)) == visible(s),
    decreases s.len(),
{
    if s.len() == 0 {
    } else if whitespace(s[0]) {
        lemma_words_keep_every_character(s.drop_first());
    } else {
        let n = word_len(s) as int;
        lemma_visible_after_word(s);
        lemma_words_keep_every_character(s.skip(n));
        let later = words(s.skip(n));
        assert(words(s)[0] == s.take(n));
        assert(words(s).drop_first() == later);
    }
}

/// Parsing the same text twice gives equal trees: whatever two runs of the
/// parser return for one line, both results have the same value.
pub proof fn lemma_parse_twice(
    line: Seq<char>,
    first: Result<Expression<'_>, ParseError>,
    second: Result<Expression<'_>, ParseError>,
)
    requires
        result_view(first) == parse_line(line),
        result_view(second) == parse_line(line),
    ensures
        result_view(first) == result_view(second),
        first is Ok ==> second is Ok && first->Ok_0@ == second->Ok_0@,
{
}

/// Every operation in the tree has two operands and an operator that has a
/// binding power.
pub open spec fn infix_tree(expr: SpecExpr) -> bool
    decreases expr,
{
    match expr {
        SpecExpr::Operand(_) => true,
        SpecExpr::Operation(operator, operands) => {
            &&& binding_power(operator) is Some
            &&& operands.len() == 2
            &&& infix_tree(operands[0])
            &&& infix_tree(operands[1])
        },
    }
}

/// A tree that the parser returns is well formed: each of its operations has
/// exactly two operands and an operator of the table.
pub proof fn lemma_parse_builds_infix_tree(tokens: Seq<SpecToken>, min_bp: nat)
    ensures
        parse_spec(tokens, min_bp).result is Ok ==> infix_tree(
            parse_spec(tokens, min_bp).result->Ok_0,
        ),
    decreases tokens.len(), 1nat,
{
    match head_of(tokens) {
        SpecToken::Operand(text) => {
            lemma_climb_builds_infix_tree(SpecExpr::Operand(text), tail_of(tokens), min_bp);
        },
        SpecToken::Operator(word) => {
            if symbol_of(word) == Some('(') {
                let inner = parse_spec(tail_of(tokens), 0);
                lemma_parse_builds_infix_tree(tail_of(tokens), 0);
                if inner.result is Ok && is_operator(head_of(inner.rest), ')') && inner.rest.len()
                    < tokens.len() {
                    lemma_climb_builds_infix_tree(inner.result->Ok_0, tail_of(inner.rest), min_bp);
                }
            }
        },
        SpecToken::Eof => {},
    }
}

/// Extending a well-formed tree gives a well-formed tree.
pub proof fn lemma_climb_builds_infix_tree(lhs: SpecExpr, tokens: Seq<SpecToken>, min_bp: nat)
    requires
        infix_tree(lhs),
    ensures
        climb_spec(lhs, tokens, min_bp).result is Ok ==> infix_tree(
            climb_spec(lhs, tokens, min_bp).result->Ok_0,
        ),
    decreases tokens.len(), 0nat,
{
    if let SpecToken::Operator(word) = head_of(tokens) {
        if symbol_of(word) != Some(')') {
            if let Some((left_bp, right_bp)) = binding_power(word) {
                if left_bp >= min_bp {
                    let rhs = parse_spec(tail_of(tokens), right_bp);
                    lemma_parse_builds_infix_tree(tail_of(tokens), right_bp);
                    if let Ok(right) = rhs.result {
                        if rhs.rest.len() < tokens.len() {
                            lemma_climb_builds_infix_tree(
                                SpecExpr::Operation(word, seq![lhs, right]),
                                rhs.rest,
                                min_bp,
                            );
                        }
                    }
                }
            }
        }
    }
}

/// What is parsed before a `)` does not depend on what follows the `)`: if
/// `tokens` alone parse to a tree, then with `more` behind them, where `more`
/// begins with `)`, they parse to the same tree, and `more` is left unread
/// behind what was left unread before.
pub proof fn lemma_parse_before_closing(tokens: Seq<SpecToken>, more: Seq<SpecToken>, min_bp: nat)
    requires
        parse_spec(tokens, min_bp).result is Ok,
        is_operator(head_of(more), ')'),
    ensures
        parse_spec(tokens + more, min_bp) == (Parsed {
            result: parse_spec(tokens, min_bp).result,
            rest: parse_spec(tokens, min_bp).rest + more,
        }),
    decreases tokens.len(), 1nat,
{
    if tokens.len() > 0 {
        assert(tail_of(tokens + more) =~= tail_of(tokens) + more);
        assert(head_of(tokens + more) == head_of(tokens));
    }
    match head_of(tokens) {
        SpecToken::Operand(text) => {
            lemma_climb_before_closing(SpecExpr::Operand(text), tail_of(tokens), more, min_bp);
        },
        SpecToken::Operator(word) => {
            let inner = parse_spec(tail_of(tokens), 0);
            lemma_parse_shrinks(tail_of(tokens), 0);
            lemma_parse_before_closing(tail_of(tokens), more, 0);
            assert(head_of(inner.rest + more) == head_of(inner.rest));
            assert(tail_of(inner.rest + more) =~= tail_of(inner.rest) + more);
            lemma_climb_before_closing(inner.result->Ok_0, tail_of(inner.rest), more, min_bp);
        },
        SpecToken::Eof => {},
    }
}

/// Extending a tree before a `)` does not depend on what follows the `)`.
pub proof fn lemma_climb_before_closing(
    lhs: SpecExpr,
    tokens: Seq<SpecToken>,
    more: Seq<SpecToken>,
    min_bp: nat,
)
    requires
        climb_spec(lhs, tokens, min_bp).result is Ok,
        is_operator(head_of(more), ')'),
    ensures
        climb_spec(lhs, tokens + more, min_bp) == (Parsed {
            result: climb_spec(lhs, tokens, min_bp).result,
            rest: climb_spec(lhs, tokens, min_bp).rest + more,
        }),
    decreases tokens.len(), 0nat,
{
    if tokens.len() == 0 {
        assert(tokens + more =~= more);
    } else {
        assert(tail_of(tokens + more) =~= tail_of(tokens) + more);
        assert(head_of(tokens + more) == head_of(tokens));
        if let SpecToken::Operator(word) = head_of(tokens) {
            if symbol_of(word) != Some(')') {
                if let Some((left_bp, right_bp)) = binding_power(word) {
                    if left_bp >= min_bp {
                        let rhs = parse_spec(tail_of(tokens), right_bp);
                        lemma_parse_shrinks(tail_of(tokens), right_bp);
                        lemma_parse_before_closing(tail_of(tokens), more, right_bp);
                        lemma_climb_before_closing(
                            SpecExpr::Operation(word, seq![lhs, rhs.result->Ok_0]),
                            rhs.rest,
                            more,
                            min_bp,
                        );
                    }
                }
            }
        }
    }
}

/// Parentheses override precedence: an expression in parentheses stands for
/// one operand. If `inner` parses as a whole to `tree`, then `( inner )`,
/// whatever stands before and behind it, is read like an operand with that
/// tree, and what follows extends it as it would extend an operand.
pub proof fn lemma_parenthesized_is_operand(
    open: Seq<char>,
    inner: Seq<SpecToken>,
    close: Seq<char>,
    rest: Seq<SpecToken>,
    tree: SpecExpr,
    min_bp: nat,
)
    requires
        symbol_of(open) == Some('('),
        symbol_of(close) == Some(')'),
        parse_spec(inner, 0) == (Parsed { result: Ok(tree), rest: Seq::empty() }),
    ensures
        parse_spec(
            seq![SpecToken::Operator(open)] + inner + seq![SpecToken::Operator(close)] + rest,
            min_bp,
        ) == climb_spec(tree, rest, min_bp),
{
    let more = seq![SpecToken::Operator(close)] + rest;
    let tokens = seq![SpecToken::Operator(open)] + inner + seq![SpecToken::Operator(close)] + rest;
    assert(head_of(more) == SpecToken::Operator(close));
    assert(tail_of(more) =~= rest);
    assert(head_of(tokens) == SpecToken::Operator(open));
    assert(tail_of(tokens) =~= inner + more);
    lemma_parse_before_closing(inner, more, 0);
    assert(Seq::<SpecToken>::empty() + more =~= more);
}

/// A `(` that nothing closes is a failure: if `inner` parses as a whole,
/// then `( inner` with the line ending there fails with
/// `UnmatchedParenthesis`.
pub proof fn lemma_unclosed_parenthesis(
    open: Seq<char>,
    inner: Seq<SpecToken>,
    tree: SpecExpr,
    min_bp: nat,
)
    requires
        symbol_of(open) == Some('('),
        parse_spec(inner, 0) == (Parsed { result: Ok(tree), rest: Seq::empty() }),
    ensures
        parse_spec(seq![SpecToken::Operator(open)] + inner, min_bp).result == Err::<
            SpecExpr,
            ParseError,
        >(ParseError::UnmatchedParenthesis),
{
    let tokens = seq![SpecToken::Operator(open)] + inner;
    assert(head_of(tokens) == SpecToken::Operator(open));
    assert(tail_of(tokens) =~= inner);
}

/// Powers group to the right: of two operators out of `^` and `√` in a row,
/// the second is applied first.
pub proof fn lemma_powers_group_to_the_right(
    a: Seq<char>,
    first: Seq<char>,
    b: Seq<char>,
    second: Seq<char>,
    c: Seq<char>,
)
    requires
        binding_power(first) == Some((31nat, 30nat)),
        binding_power(second) == Some((31nat, 30nat)),
    ensures
        parse_spec(
            seq![
                SpecToken::Operand(a),
                SpecToken::Operator(first),
                SpecToken::Operand(b),
                SpecToken::Operator(second),
                SpecToken::Operand(c),
            ],
            0,
        ) == (Parsed {
            result: Ok(
                SpecExpr::Operation(
                    first,
                    seq![
                        SpecExpr::Operand(a),
                        SpecExpr::Operation(second, seq![SpecExpr::Operand(b), SpecExpr::Operand(c)]),
                    ],
                ),
            ),
            rest: Seq::empty(),
        }),
{
    let tokens = seq![
        SpecToken::Operand(a),
        SpecToken::Operator(first),
        SpecToken::Operand(b),
        SpecToken::Operator(second),
        SpecToken::Operand(c),
    ];
    let from_first = tail_of(tokens);
    let from_b = tail_of(from_first);
    let from_second = tail_of(from_b);
    let from_c = tail_of(from_second);
    let end = tail_of(from_c);
    assert(from_first =~= tokens.skip(1));
    assert(from_b =~= tokens.skip(2));
    assert(from_second =~= tokens.skip(3));
    assert(from_c =~= tokens.skip(4));
    assert(end =~= Seq::<SpecToken>::empty());
    let inner = SpecExpr::Operation(second, seq![SpecExpr::Operand(b), SpecExpr::Operand(c)]);
    let whole = SpecExpr::Operation(first, seq![SpecExpr::Operand(a), inner]);
    assert(climb_spec(SpecExpr::Operand(c), end, 30) == (Parsed {
        result: Ok(SpecExpr::Operand(c)),
        rest: end,
    }));
    assert(parse_spec(from_c, 30) == (Parsed { result: Ok(SpecExpr::Operand(c)), rest: end }));
    assert(climb_spec(inner, end, 30) == (Parsed { result: Ok(inner), rest: end }));
    assert(climb_spec(SpecExpr::Operand(b), from_second, 30) == (Parsed {
        result: Ok(inner),
        rest: end,
    }));
    assert(parse_spec(from_b, 30) == (Parsed { result: Ok(inner), rest: end }));
    assert(climb_spec(whole, end, 0) == (Parsed { result: Ok(whole), rest: end }));
    assert(climb_spec(SpecExpr::Operand(a), from_first, 0) == (Parsed {
        result: Ok(whole),
        rest: end,
    }));
}

/// A failed evaluation leaves the variables as they were.
pub proof fn lemma_failure_keeps_variables(
    expr: SpecExpr,
    env: Map<Seq<char>, Number>,
    host: Host,
)
    ensures
        evaluate_spec(expr, env, host).result is Err ==> evaluate_spec(expr, env, host).env == env,
        evaluate_spec(expr, env, host).result matches Ok(Some(_)) ==> evaluate_spec(
            expr,
            env,
            host,
        ).env == env,
{
}

/// What is assigned can be read back: after the assignment of a value
/// expression to a name, the name alone evaluates to the value that the
/// expression had.
pub proof fn lemma_assignment_round_trip(
    name: Seq<char>,
    value: SpecExpr,
    env: Map<Seq<char>, Number>,
    host: Host,
)
    requires
        (host.number)(name) is None,
        value_of(value, env, host) is Ok,
    ensures
        ({
            let assignment = SpecExpr::Operation(seq!['='], seq![SpecExpr::Operand(name), value]);
            let assigned = evaluate_spec(assignment, env, host);
            &&& assigned.result == Ok::<Option<Number>, EvalError>(None)
            &&& assigned.env == env.insert(name, value_of(value, env, host)->Ok_0)
            &&& evaluate_spec(SpecExpr::Operand(name), assigned.env, host) == (Evaluated {
                result: Ok(Some(value_of(value, env, host)->Ok_0)),
                env: assigned.env,
            })
        }),
{
}

} // verus!
