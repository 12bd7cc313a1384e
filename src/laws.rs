//! Properties of tokenization, stated over the models of `lexer` and `rules`.

use vstd::prelude::*;
use crate::lexer::{diagnostics_of, is_space, tokens_of, words};
use crate::rules::{
    build, lemma_digit_run,    lemma_classify_matching,
    all_digits, classify, digit_byte, digit_run, digit_value, digits_value, float_pattern,
    int_pattern, is_digit, is_negative, lemma_rule_table_unambiguous, match_count, rule_at,
    rule_matches, unsigned_part, LexError, Rule, FLOAT_OVERFLOW, RULE_COUNT,
};
use crate::token::TokenView;

verus! {

/// A sequence without whitespace is a single word.
pub proof fn lemma_single_word(w: Seq<char>)
    requires
        w.len() > 0,
        forall|i: int| 0 <= i < w.len() ==> !is_space(#[trigger] w[i]),
    ensures
        words(w) == seq![w],
    decreases w.len(),
{
    reveal_with_fuel(words, 2);
    if w.len() == 1 {
        assert(w.drop_last() =~= Seq::<char>::empty());
        assert(seq![w.last()] =~= w);
    } else {
        lemma_single_word(w.drop_last());
        assert(w.drop_last().push(w.last()) =~= w);
        assert(seq![w.drop_last()].update(0, w.drop_last().push(w.last())) =~= seq![w]);
    }
}

/// The tokens and diagnostics of a single word.
pub proof fn lemma_one_word(w: Seq<char>)
    ensures
        tokens_of(seq![w]) == (match classify(w) {
            Ok(t) => seq![(t, w)],
            Err(_) => Seq::<(TokenView, Seq<char>)>::empty(),
        }),
        diagnostics_of(seq![w]) == (match classify(w) {
            Ok(_) => Seq::<(LexError, Seq<char>)>::empty(),
            Err(e) => seq![(e, w)],
        }),
{
    reveal_with_fuel(tokens_of, 2);
    reveal_with_fuel(diagnostics_of, 2);
    assert(seq![w].drop_last() =~= Seq::<Seq<char>>::empty());
    assert(seq![w].last() == w);
    match classify(w) {
        Ok(t) => {
            assert(Seq::<(TokenView, Seq<char>)>::empty().push((t, w)) =~= seq![(t, w)]);
        },
        Err(e) => {
            assert(Seq::<(LexError, Seq<char>)>::empty().push((e, w)) =~= seq![(e, w)]);
        },
    }
}


/// The character of a decimal digit.
pub open spec fn digit_char(d: nat) -> char {
    if d == 0 {
        '0'
    } else if d == 1 {
        '1'
    } else if d == 2 {
        '2'
    } else if d == 3 {
        '3'
    } else if d == 4 {
        '4'
    } else if d == 5 {
        '5'
    } else if d == 6 {
        '6'
    } else if d == 7 {
        '7'
    } else if d == 8 {
        '8'
    } else {
        '9'
    }
}

/// The shortest decimal text of a natural number.
pub open spec fn nat_text(n: nat) -> Seq<char>
    decreases n,
{
    if n < 10 {
        seq![digit_char(n)]
    } else {
        nat_text(n / 10).push(digit_char(n % 10))
    }
}

/// The decimal text of an integer, with a minus sign when it is negative.
pub open spec fn int_text(n: int) -> Seq<char> {
    if n < 0 {
        seq!['-'] + nat_text((-n) as nat)
    } else {
        nat_text(n as nat)
    }
}

proof fn lemma_nat_text(n: nat)
    ensures
        nat_text(n).len() > 0,
        all_digits(nat_text(n)),
        digits_value(nat_text(n)) == n,
    decreases n,
{
    if n < 10 {
        reveal_with_fuel(digits_value, 2);
        assert(seq![digit_char(n)].drop_last() =~= Seq::<char>::empty());
    } else {
        lemma_nat_text(n / 10);
        let t = nat_text(n);
        assert(t.drop_last() =~= nat_text(n / 10));
        assert(n == (n / 10) * 10 + n % 10) by (nonlinear_arith);
    }
}

/// Every 32-bit integer, written in decimal, tokenizes to exactly that integer,
/// with its text kept.
pub proof fn law_int_literal(n: i32)
    ensures
        tokens_of(words(int_text(n as int))) == seq![(TokenView::Int(n as int), int_text(n as int))],
        diagnostics_of(words(int_text(n as int))) == Seq::<(LexError, Seq<char>)>::empty(),
{
    let t = int_text(n as int);
    let m: nat = if n < 0 {
        (-n) as nat
    } else {
        n as nat
    };
    lemma_nat_text(m);
    let d = nat_text(m);
    if n < 0 {
        assert(t.skip(1) =~= d);
        assert(unsigned_part(t) == d);
    } else {
        assert(is_digit(d[0]));
        assert(unsigned_part(t) == d);
    }
    assert forall|i: int| 0 <= i < t.len() implies !is_space(#[trigger] t[i]) by {
        if n < 0 && i > 0 {
            assert(t[i] == d[i - 1]);
        }
        if n >= 0 {
            assert(is_digit(d[i]));
        } else if i > 0 {
            assert(is_digit(d[i - 1]));
        }
    }
    lemma_single_word(t);
    assert(rule_matches(Rule::Int, t));
    lemma_classify_matching(Rule::Int, t);
    lemma_one_word(t);
}


/// A float literal: an optional minus sign, digits, a point, digits.
pub open spec fn float_text(negative: bool, whole: Seq<char>, fraction: Seq<char>) -> Seq<char> {
    (if negative {
        seq!['-']
    } else {
        Seq::<char>::empty()
    }) + whole + seq!['.'] + fraction
}

/// A float literal with digits on both sides of the point, whose magnitude a
/// 32-bit float can hold, tokenizes to exactly its decimal value, with its
/// text kept.
pub proof fn law_float_literal(negative: bool, whole: Seq<char>, fraction: Seq<char>)
    requires
        whole.len() > 0,
        fraction.len() > 0,
        all_digits(whole),
        all_digits(fraction),
        digits_value(whole) < FLOAT_OVERFLOW,
    ensures
        tokens_of(words(float_text(negative, whole, fraction))) == seq![
            (
                TokenView::Float {
                    negative,
                    whole: digits_value(whole),
                    fraction: fraction.map_values(|c: char| digit_byte(c)),
                },
                float_text(negative, whole, fraction),
            ),
        ],
        diagnostics_of(words(float_text(negative, whole, fraction))) == Seq::<
            (LexError, Seq<char>),
        >::empty(),
{
    let t = float_text(negative, whole, fraction);
    let u = whole + seq!['.'] + fraction;
    let n = whole.len() as int;
    if negative {
        assert(t =~= seq!['-'] + u);
        assert(t.skip(1) =~= u);
    } else {
        assert(t =~= u);
        assert(is_digit(t[0]));
    }
    assert(unsigned_part(t) == u);
    assert(is_negative(t) == negative);
    assert forall|k: int| 0 <= k < n implies #[trigger] is_digit(u[k]) by {
        assert(u[k] == whole[k]);
    }
    lemma_digit_run(u, n);
    assert(u.take(n) =~= whole);
    assert(u.skip(n + 1) =~= fraction);
    assert(float_pattern(t));
    assert forall|i: int| 0 <= i < t.len() implies !is_space(#[trigger] t[i]) by {
        let j = if negative {
            i - 1
        } else {
            i
        };
        if j >= 0 {
            assert(t[i] == u[j]);
            if j < n {
                assert(is_digit(whole[j]));
            } else if j > n {
                assert(u[j] == fraction[j - n - 1]);
                assert(is_digit(fraction[j - n - 1]));
            }
        }
    }
    lemma_single_word(t);
    lemma_classify_matching(Rule::Float, t);
    lemma_one_word(t);
}


proof fn lemma_words_nonempty(s: Seq<char>)
    requires
        s.len() > 0,
        !is_space(s.last()),
    ensures
        words(s).len() > 0,
    decreases s.len(),
{
    if s.len() >= 2 && !is_space(s[s.len() - 2]) {
        lemma_words_nonempty(s.drop_last());
    }
}

/// Splitting at a whitespace character splits the words there.
pub proof fn lemma_words_append(a: Seq<char>, c: char, b: Seq<char>)
    requires
        is_space(c),
    ensures
        words(a + seq![c] + b) == words(a) + words(b),
    decreases b.len(),
{
    let s = a + seq![c] + b;
    if b.len() == 0 {
        assert(s.drop_last() =~= a);
        assert(words(a) + words(b) =~= words(a));
    } else {
        let x = b.last();
        assert(s.drop_last() =~= a + seq![c] + b.drop_last());
        lemma_words_append(a, c, b.drop_last());
        let wa = words(a);
        let p = words(b.drop_last());
        if is_space(x) {
        } else if b.len() >= 2 && !is_space(b[b.len() - 2]) {
            assert(s[s.len() - 2] == b[b.len() - 2]);
            lemma_words_nonempty(b.drop_last());
            assert((wa + p).update((wa + p).len() - 1, (wa + p).last().push(x)) =~= wa + p.update(
                p.len() - 1,
                p.last().push(x),
            ));
        } else {
            if b.len() >= 2 {
                assert(s[s.len() - 2] == b[b.len() - 2]);
            } else {
                assert(s[s.len() - 2] == c);
            }
            assert((wa + p).push(seq![x]) =~= wa + p.push(seq![x]));
        }
    }
}

/// Tokens and diagnostics of a concatenation of word lists are concatenated.
pub proof fn lemma_outputs_append(x: Seq<Seq<char>>, y: Seq<Seq<char>>)
    ensures
        tokens_of(x + y) == tokens_of(x) + tokens_of(y),
        diagnostics_of(x + y) == diagnostics_of(x) + diagnostics_of(y),
    decreases y.len(),
{
    if y.len() == 0 {
        assert(x + y =~= x);
        assert(tokens_of(x) + tokens_of(y) =~= tokens_of(x));
        assert(diagnostics_of(x) + diagnostics_of(y) =~= diagnostics_of(x));
    } else {
        assert((x + y).drop_last() =~= x + y.drop_last());
        assert((x + y).last() == y.last());
        lemma_outputs_append(x, y.drop_last());
        let w = y.last();
        let tx = tokens_of(x);
        let ty = tokens_of(y.drop_last());
        let dx = diagnostics_of(x);
        let dy = diagnostics_of(y.drop_last());
        match classify(w) {
            Ok(t) => {
                assert((tx + ty).push((t, w)) =~= tx + ty.push((t, w)));
            },
            Err(e) => {
                assert((dx + dy).push((e, w)) =~= dx + dy.push((e, w)));
            },
        }
    }
}

/// Tokenizing two texts joined by a space gives the tokens of the first text
/// followed by those of the second, and likewise for the diagnostics.
pub proof fn law_tokenize_concat(a: Seq<char>, b: Seq<char>)
    ensures
        tokens_of(words(a + seq![' '] + b)) == tokens_of(words(a)) + tokens_of(words(b)),
        diagnostics_of(words(a + seq![' '] + b)) == diagnostics_of(words(a)) + diagnostics_of(
            words(b),
        ),
{
    lemma_words_append(a, ' ', b);
    lemma_outputs_append(words(a), words(b));
}

proof fn lemma_outputs_accounted(ws: Seq<Seq<char>>)
    ensures
        tokens_of(ws).len() + diagnostics_of(ws).len() == ws.len(),
        forall|i: int|
            0 <= i < tokens_of(ws).len() ==> classify(#[trigger] tokens_of(ws)[i].1) == Ok::<
                TokenView,
                LexError,
            >(tokens_of(ws)[i].0),
        forall|j: int|
            0 <= j < diagnostics_of(ws).len() ==> classify(#[trigger] diagnostics_of(ws)[j].1)
                == Err::<TokenView, LexError>(diagnostics_of(ws)[j].0),
    decreases ws.len(),
{
    if ws.len() > 0 {
        lemma_outputs_accounted(ws.drop_last());
        let tp = tokens_of(ws.drop_last());
        let dp = diagnostics_of(ws.drop_last());
        match classify(ws.last()) {
            Ok(t) => {
                assert forall|i: int| 0 <= i < tokens_of(ws).len() implies classify(
                    #[trigger] tokens_of(ws)[i].1,
                ) == Ok::<TokenView, LexError>(tokens_of(ws)[i].0) by {
                    if i < tp.len() {
                        assert(tokens_of(ws)[i] == tp[i]);
                    }
                }
            },
            Err(e) => {
                assert forall|j: int| 0 <= j < diagnostics_of(ws).len() implies classify(
                    #[trigger] diagnostics_of(ws)[j].1,
                ) == Err::<TokenView, LexError>(diagnostics_of(ws)[j].0) by {
                    if j < dp.len() {
                        assert(diagnostics_of(ws)[j] == dp[j]);
                    }
                }
            },
        }
    }
}


/// Every word of a text becomes either a token or a diagnostic: a token is
/// kept only for a word that classifies, and every skipped word is reported
/// exactly once.
pub proof fn law_skipped_words_reported(text: Seq<char>)
    ensures
        tokens_of(words(text)).len() + diagnostics_of(words(text)).len() == words(text).len(),
        forall|i: int|
            0 <= i < tokens_of(words(text)).len() ==> classify(
                #[trigger] tokens_of(words(text))[i].1,
            ) == Ok::<TokenView, LexError>(tokens_of(words(text))[i].0),
        forall|j: int|
            0 <= j < diagnostics_of(words(text)).len() ==> classify(
                #[trigger] diagnostics_of(words(text))[j].1,
            ) == Err::<TokenView, LexError>(diagnostics_of(words(text))[j].0),
{
    lemma_outputs_accounted(words(text));
}

proof fn lemma_operator_word(r: Rule, w: Seq<char>)
    requires
        rule_matches(r, w),
        build(r, w) is Ok,
        w.len() > 0,
        forall|i: int| 0 <= i < w.len() ==> !is_space(#[trigger] w[i]),
    ensures
        tokens_of(words(w)) == seq![(build(r, w)->Ok_0, w)],
{
    lemma_single_word(w);
    lemma_classify_matching(r, w);
    lemma_one_word(w);
}

/// A two-character operator is read whole, never as its one-character prefix
/// followed by a leftover `=`.
pub proof fn law_two_char_operators()
    ensures
        tokens_of(words(seq!['+', '='])) == seq![(TokenView::PlusEquals, seq!['+', '='])],
        tokens_of(words(seq!['-', '='])) == seq![(TokenView::MinusEquals, seq!['-', '='])],
        tokens_of(words(seq!['*', '='])) == seq![(TokenView::MultiplyEquals, seq!['*', '='])],
        tokens_of(words(seq!['/', '='])) == seq![(TokenView::DivideEquals, seq!['/', '='])],
        tokens_of(words(seq!['!', '='])) == seq![(TokenView::NotEquals, seq!['!', '='])],
        tokens_of(words(seq!['>', '='])) == seq![(TokenView::GreaterThanOrEqual, seq!['>', '='])],
        tokens_of(words(seq!['<', '='])) == seq![(TokenView::LessThanOrEqual, seq!['<', '='])],
{
    lemma_operator_word(Rule::PlusEquals, seq!['+', '=']);
    lemma_operator_word(Rule::MinusEquals, seq!['-', '=']);
    lemma_operator_word(Rule::MultiplyEquals, seq!['*', '=']);
    lemma_operator_word(Rule::DivideEquals, seq!['/', '=']);
    lemma_operator_word(Rule::NotEquals, seq!['!', '=']);
    lemma_operator_word(Rule::GreaterThanOrEqual, seq!['>', '=']);
    lemma_operator_word(Rule::LessThanOrEqual, seq!['<', '=']);
}

} // verus!
