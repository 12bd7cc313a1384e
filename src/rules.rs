//! The rule table: each lexical category with its pattern, and the
//! classification of one word against the whole table.

use vstd::prelude::*;
use crate::token::{FloatLiteral, Token, TokenView};

verus! {

/// Magnitudes at or above this value round to infinity as a 32-bit float
/// (the largest finite value plus half of its last unit, `2^128 - 2^103`).
pub const FLOAT_OVERFLOW: u128 = 340282356779733661637539395458142568448;

/// The number of rules in the table.
/// `FLOAT_OVERFLOW / 10`, rounded down.
const FLOAT_OVERFLOW_TENTH: u128 = 34028235677973366163753939545814256844;

/// The largest magnitude of a 32-bit signed integer, `2^31`.
const INT_MAGNITUDE: u64 = 2147483648;

pub const RULE_COUNT: usize = 19;

/// One entry of the rule table: a lexical category with its pattern.
#[derive(Clone, Copy, Debug, PartialEq, Eq, Structural)]
pub enum Rule {
    Float,
    Int,
    If,
    Else,
    While,
    Identifier,
    PlusEquals,
    MultiplyEquals,
    MinusEquals,
    DivideEquals,
    NotEquals,
    GreaterThanOrEqual,
    LessThanOrEqual,
    Plus,
    Minus,
    Multiply,
    Divide,
    LessThan,
    GreaterThan,
}

/// Why a word was not turned into a token.
#[derive(Clone, Copy, Debug, PartialEq, Eq, Structural)]
pub enum LexError {
    /// No rule matches the whole word.
    NoTokenFound,
    /// More than one rule matches the whole word.
    AmbiguousToken,
    /// The word is a number outside the 32-bit range.
    InvalidNumber,
}

pub open spec fn is_digit(c: char) -> bool {
    '0' <= c && c <= '9'
}

pub open spec fn is_letter(c: char) -> bool {
    ('a' <= c && c <= 'z') || ('A' <= c && c <= 'Z')
}

pub open spec fn all_digits(s: Seq<char>) -> bool {
    forall|i: int| 0 <= i < s.len() ==> #[trigger] is_digit(s[i])
}

pub open spec fn digit_value(c: char) -> nat {
    (c as nat - '0' as nat) as nat
}

pub open spec fn digit_byte(c: char) -> u8 {
    digit_value(c) as u8
}

/// The number that a run of decimal digits denotes.
pub open spec fn digits_value(s: Seq<char>) -> nat
    decreases s.len(),
{
    if s.len() == 0 {
        0
    } else {
        digits_value(s.drop_last()) * 10 + digit_value(s.last())
    }
}

/// Whether the word starts with a minus sign.
pub open spec fn is_negative(w: Seq<char>) -> bool {
    w.len() > 0 && w[0] == '-'
}

/// The word without its leading minus sign, if it has one.
pub open spec fn unsigned_part(w: Seq<char>) -> Seq<char> {
    if is_negative(w) {
        w.skip(1)
    } else {
        w
    }
}

/// The length of the run of digits that starts the sequence.
pub open spec fn digit_run(s: Seq<char>) -> nat
    decreases s.len(),
{
    if s.len() == 0 || !is_digit(s[0]) {
        0
    } else {
        1 + digit_run(s.skip(1))
    }
}

/// An optional minus sign, then one or more digits.
pub open spec fn int_pattern(w: Seq<char>) -> bool {
    let u = unsigned_part(w);
    u.len() > 0 && all_digits(u)
}

/// An optional minus sign, digits, a point, digits, with at least one digit.
pub open spec fn float_pattern(w: Seq<char>) -> bool {
    let u = unsigned_part(w);
    let n = digit_run(u) as int;
    &&& n < u.len()
    &&& u[n] == '.'
    &&& all_digits(u.skip(n + 1))
    &&& u.len() >= 2
}

pub open spec fn is_keyword(w: Seq<char>) -> bool {
    w == seq!['i', 'f'] || w == seq!['e', 'l', 's', 'e'] || w == seq!['w', 'h', 'i', 'l', 'e']
}

/// A letter, then letters, digits or underscores; keywords excluded.
pub open spec fn identifier_pattern(w: Seq<char>) -> bool {
    &&& w.len() > 0
    &&& is_letter(w[0])
    &&& forall|i: int|
        1 <= i < w.len() ==> is_letter(#[trigger] w[i]) || is_digit(w[i]) || w[i] == '_'
    &&& !is_keyword(w)
}

/// Whether the rule's pattern matches the whole word.
pub open spec fn rule_matches(r: Rule, w: Seq<char>) -> bool {
    match r {
        Rule::Float => float_pattern(w),
        Rule::Int => int_pattern(w),
        Rule::If => w == seq!['i', 'f'],
        Rule::Else => w == seq!['e', 'l', 's', 'e'],
        Rule::While => w == seq!['w', 'h', 'i', 'l', 'e'],
        Rule::Identifier => identifier_pattern(w),
        Rule::PlusEquals => w == seq!['+', '='],
        Rule::MultiplyEquals => w == seq!['*', '='],
        Rule::MinusEquals => w == seq!['-', '='],
        Rule::DivideEquals => w == seq!['/', '='],
        Rule::NotEquals => w == seq!['!', '='],
        Rule::GreaterThanOrEqual => w == seq!['>', '='],
        Rule::LessThanOrEqual => w == seq!['<', '='],
        Rule::Plus => w == seq!['+'],
        Rule::Minus => w == seq!['-'],
        Rule::Multiply => w == seq!['*'],
        Rule::Divide => w == seq!['/'],
        Rule::LessThan => w == seq!['<'],
        Rule::GreaterThan => w == seq!['>'],
    }
}

/// The rule table, in the order in which the rules are tried: two-character
/// operators come before their one-character prefixes.
pub open spec fn rule_at(i: int) -> Rule {
    if i == 0 {
        Rule::Float
    } else if i == 1 {
        Rule::Int
    } else if i == 2 {
        Rule::If
    } else if i == 3 {
        Rule::Else
    } else if i == 4 {
        Rule::While
    } else if i == 5 {
        Rule::Identifier
    } else if i == 6 {
        Rule::PlusEquals
    } else if i == 7 {
        Rule::MultiplyEquals
    } else if i == 8 {
        Rule::MinusEquals
    } else if i == 9 {
        Rule::DivideEquals
    } else if i == 10 {
        Rule::NotEquals
    } else if i == 11 {
        Rule::GreaterThanOrEqual
    } else if i == 12 {
        Rule::LessThanOrEqual
    } else if i == 13 {
        Rule::Plus
    } else if i == 14 {
        Rule::Minus
    } else if i == 15 {
        Rule::Multiply
    } else if i == 16 {
        Rule::Divide
    } else if i == 17 {
        Rule::LessThan
    } else {
        Rule::GreaterThan
    }
}

/// How many of the first `n` rules of the table match the whole word.
pub open spec fn match_count(w: Seq<char>, n: int) -> nat
    decreases n,
{
    if n <= 0 {
        0
    } else if rule_matches(rule_at(n - 1), w) {
        match_count(w, n - 1) + 1
    } else {
        match_count(w, n - 1)
    }
}

/// The last of the first `n` rules of the table that matches the whole word.
pub open spec fn last_match(w: Seq<char>, n: int) -> Option<Rule>
    decreases n,
{
    if n <= 0 {
        None
    } else if rule_matches(rule_at(n - 1), w) {
        Some(rule_at(n - 1))
    } else {
        last_match(w, n - 1)
    }
}

/// The token that a rule builds from a word that it matches.
pub open spec fn build(r: Rule, w: Seq<char>) -> Result<TokenView, LexError> {
    match r {
        Rule::Float => {
            let u = unsigned_part(w);
            let n = digit_run(u) as int;
            let whole = digits_value(u.take(n));
            if whole < FLOAT_OVERFLOW {
                Ok(
                    TokenView::Float {
                        negative: is_negative(w),
                        whole,
                        fraction: u.skip(n + 1).map_values(|c: char| digit_byte(c)),
                    },
                )
            } else {
                Err(LexError::InvalidNumber)
            }
        },
        Rule::Int => {
            let m = digits_value(unsigned_part(w)) as int;
            let v = if is_negative(w) {
                -m
            } else {
                m
            };
            if i32::MIN <= v <= i32::MAX {
                Ok(TokenView::Int(v))
            } else {
                Err(LexError::InvalidNumber)
            }
        },
        Rule::If => Ok(TokenView::If),
        Rule::Else => Ok(TokenView::Else),
        Rule::While => Ok(TokenView::While),
        Rule::Identifier => Ok(TokenView::Identifier(w)),
        Rule::PlusEquals => Ok(TokenView::PlusEquals),
        Rule::MultiplyEquals => Ok(TokenView::MultiplyEquals),
        Rule::MinusEquals => Ok(TokenView::MinusEquals),
        Rule::DivideEquals => Ok(TokenView::DivideEquals),
        Rule::NotEquals => Ok(TokenView::NotEquals),
        Rule::GreaterThanOrEqual => Ok(TokenView::GreaterThanOrEqual),
        Rule::LessThanOrEqual => Ok(TokenView::LessThanOrEqual),
        Rule::Plus => Ok(TokenView::Plus),
        Rule::Minus => Ok(TokenView::Minus),
        Rule::Multiply => Ok(TokenView::Multiply),
        Rule::Divide => Ok(TokenView::Divide),
        Rule::LessThan => Ok(TokenView::LessThan),
        Rule::GreaterThan => Ok(TokenView::GreaterThan),
    }
}

/// The outcome for one word: no matching rule, more than one, or the token
/// that the single matching rule builds.
pub open spec fn classify(w: Seq<char>) -> Result<TokenView, LexError> {
    let c = match_count(w, RULE_COUNT as int);
    if c == 0 {
        Err(LexError::NoTokenFound)
    } else if c > 1 {
        Err(LexError::AmbiguousToken)
    } else {
        build(last_match(w, RULE_COUNT as int)->Some_0, w)
    }
}

/// What a classification returns, as a mathematical value.
pub open spec fn outcome_view(r: Result<Token, LexError>) -> Result<TokenView, LexError> {
    match r {
        Ok(t) => Ok(t@),
        Err(e) => Err(e),
    }
}


proof fn lemma_digits_push(s: Seq<char>, i: int)
    requires
        0 <= i < s.len(),
    ensures
        digits_value(s.take(i + 1)) == digits_value(s.take(i)) * 10 + digit_value(s[i]),
{
    assert(s.take(i + 1).drop_last() =~= s.take(i));
}

/// A prefix of a run of digits never denotes more than the whole run.
proof fn lemma_digits_prefix_le(s: Seq<char>, i: int)
    requires
        0 <= i <= s.len(),
    ensures
        digits_value(s.take(i)) <= digits_value(s),
    decreases s.len() - i,
{
    if i == s.len() {
        assert(s.take(i) =~= s);
    } else {
        lemma_digits_prefix_le(s, i + 1);
        lemma_digits_push(s, i);
    }
}

/// `digit_run` is the index of the first character that is not a digit.
pub(crate) proof fn lemma_digit_run(u: Seq<char>, i: int)
    requires
        0 <= i <= u.len(),
        forall|k: int| 0 <= k < i ==> #[trigger] is_digit(u[k]),
        i == u.len() || !is_digit(u[i]),
    ensures
        digit_run(u) == i,
    decreases i,
{
    if i > 0 {
        let t = u.skip(1);
        assert forall|k: int| 0 <= k < i - 1 implies #[trigger] is_digit(t[k]) by {
            assert(t[k] == u[k + 1]);
        }
        assert(is_digit(u[0]));
        lemma_digit_run(t, i - 1);
    }
}

/// The rule of the table at position `i`.
fn rule_entry(i: usize) -> (r: Rule)
    requires
        i < RULE_COUNT,
    ensures
        r == rule_at(i as int),
{
    match i {
        0 => Rule::Float,
        1 => Rule::Int,
        2 => Rule::If,
        3 => Rule::Else,
        4 => Rule::While,
        5 => Rule::Identifier,
        6 => Rule::PlusEquals,
        7 => Rule::MultiplyEquals,
        8 => Rule::MinusEquals,
        9 => Rule::DivideEquals,
        10 => Rule::NotEquals,
        11 => Rule::GreaterThanOrEqual,
        12 => Rule::LessThanOrEqual,
        13 => Rule::Plus,
        14 => Rule::Minus,
        15 => Rule::Multiply,
        16 => Rule::Divide,
        17 => Rule::LessThan,
        _ => Rule::GreaterThan,
    }
}

fn is_digit_char(c: char) -> (r: bool)
    ensures
        r == is_digit(c),
{
    '0' <= c && c <= '9'
}

fn is_letter_char(c: char) -> (r: bool)
    ensures
        r == is_letter(c),
{
    ('a' <= c && c <= 'z') || ('A' <= c && c <= 'Z')
}

fn word_is_1(w: &Vec<char>, a: char) -> (r: bool)
    ensures
        r == (w@ == seq![a]),
{
    if w.len() == 1 && w[0] == a {
        assert(w@ =~= seq![a]);
        true
    } else {
        false
    }
}

fn word_is_2(w: &Vec<char>, a: char, b: char) -> (r: bool)
    ensures
        r == (w@ == seq![a, b]),
{
    if w.len() == 2 && w[0] == a && w[1] == b {
        assert(w@ =~= seq![a, b]);
        true
    } else {
        false
    }
}

fn word_is_4(w: &Vec<char>, a: char, b: char, c: char, d: char) -> (r: bool)
    ensures
        r == (w@ == seq![a, b, c, d]),
{
    if w.len() == 4 && w[0] == a && w[1] == b && w[2] == c && w[3] == d {
        assert(w@ =~= seq![a, b, c, d]);
        true
    } else {
        false
    }
}

fn word_is_5(w: &Vec<char>, a: char, b: char, c: char, d: char, e: char) -> (r: bool)
    ensures
        r == (w@ == seq![a, b, c, d, e]),
{
    if w.len() == 5 && w[0] == a && w[1] == b && w[2] == c && w[3] == d && w[4] == e {
        assert(w@ =~= seq![a, b, c, d, e]);
        true
    } else {
        false
    }
}

fn is_keyword_word(w: &Vec<char>) -> (r: bool)
    ensures
        r == is_keyword(w@),
{
    word_is_2(w, 'i', 'f') || word_is_4(w, 'e', 'l', 's', 'e') || word_is_5(w, 'w', 'h', 'i', 'l', 'e')
}

/// Where the unsigned part of the word starts: after a leading minus sign.
fn sign_len(w: &Vec<char>) -> (r: usize)
    ensures
        r == (if is_negative(w@) { 1usize } else { 0usize }),
        w@.skip(r as int) == unsigned_part(w@),
{
    if w.len() > 0 && w[0] == '-' {
        1
    } else {
        assert(w@.skip(0) =~= w@);
        0
    }
}

/// The end of the run of digits that starts at `from`.
fn digit_run_end(w: &Vec<char>, from: usize) -> (r: usize)
    requires
        from <= w.len(),
    ensures
        from <= r <= w.len(),
        r - from == digit_run(w@.skip(from as int)),
        r == w.len() || !is_digit(w@[r as int]),
        forall|k: int| from <= k < r ==> #[trigger] is_digit(w@[k]),
{
    let mut i = from;
    while i < w.len() && is_digit_char(w[i])
        invariant
            from <= i <= w.len(),
            forall|k: int| from <= k < i ==> #[trigger] is_digit(w@[k]),
        decreases w.len() - i,
    {
        i += 1;
    }
    proof {
        let u = w@.skip(from as int);
        assert forall|k: int| 0 <= k < i - from implies #[trigger] is_digit(u[k]) by {
            assert(u[k] == w@[k + from]);
        }
        lemma_digit_run(u, i - from);
    }
    i
}

fn int_word(w: &Vec<char>) -> (r: bool)
    ensures
        r == int_pattern(w@),
{
    let s = sign_len(w);
    let e = digit_run_end(w, s);
    proof {
        let u = w@.skip(s as int);
        if e == w.len() && s < w.len() {
            assert forall|k: int| 0 <= k < u.len() implies #[trigger] is_digit(u[k]) by {
                assert(u[k] == w@[k + s]);
            }
        }
        if e < w.len() {
            assert(u[e - s] == w@[e as int]);
        }
    }
    s < w.len() && e == w.len()
}

fn float_word(w: &Vec<char>) -> (r: bool)
    ensures
        r == float_pattern(w@),
{
    let s = sign_len(w);
    let e = digit_run_end(w, s);
    if e < w.len() && w[e] == '.' && w.len() - s >= 2 {
        let f = digit_run_end(w, e + 1);
        proof {
            let u = w@.skip(s as int);
            assert(u[e - s] == w@[e as int]);
            let t = u.skip(e - s + 1);
            if f == w.len() {
                assert forall|k: int| 0 <= k < t.len() implies #[trigger] is_digit(t[k]) by {
                    assert(t[k] == w@[k + e + 1]);
                }
            } else {
                assert(t[f - e - 1] == w@[f as int]);
            }
        }
        f == w.len()
    } else {
        proof {
            let u = w@.skip(s as int);
            if e < w.len() {
                assert(u[e - s] == w@[e as int]);
            }
        }
        false
    }
}

fn identifier_word(w: &Vec<char>) -> (r: bool)
    ensures
        r == identifier_pattern(w@),
{
    if w.len() == 0 || !is_letter_char(w[0]) {
        return false;
    }
    let mut i: usize = 1;
    while i < w.len()
        invariant
            1 <= i <= w.len(),
            forall|k: int|
                1 <= k < i ==> is_letter(#[trigger] w@[k]) || is_digit(w@[k]) || w@[k] == '_',
        decreases w.len() - i,
    {
        let c = w[i];
        if !(is_letter_char(c) || is_digit_char(c) || c == '_') {
            return false;
        }
        i += 1;
    }
    !is_keyword_word(w)
}

/// Whether the rule's pattern matches the whole word.
pub fn matches_rule(r: Rule, w: &Vec<char>) -> (b: bool)
    ensures
        b == rule_matches(r, w@),
{
    match r {
        Rule::Float => float_word(w),
        Rule::Int => int_word(w),
        Rule::If => word_is_2(w, 'i', 'f'),
        Rule::Else => word_is_4(w, 'e', 'l', 's', 'e'),
        Rule::While => word_is_5(w, 'w', 'h', 'i', 'l', 'e'),
        Rule::Identifier => identifier_word(w),
        Rule::PlusEquals => word_is_2(w, '+', '='),
        Rule::MultiplyEquals => word_is_2(w, '*', '='),
        Rule::MinusEquals => word_is_2(w, '-', '='),
        Rule::DivideEquals => word_is_2(w, '/', '='),
        Rule::NotEquals => word_is_2(w, '!', '='),
        Rule::GreaterThanOrEqual => word_is_2(w, '>', '='),
        Rule::LessThanOrEqual => word_is_2(w, '<', '='),
        Rule::Plus => word_is_1(w, '+'),
        Rule::Minus => word_is_1(w, '-'),
        Rule::Multiply => word_is_1(w, '*'),
        Rule::Divide => word_is_1(w, '/'),
        Rule::LessThan => word_is_1(w, '<'),
        Rule::GreaterThan => word_is_1(w, '>'),
    }
}


fn digit_of(c: char) -> (d: u8)
    requires
        is_digit(c),
    ensures
        d as nat == digit_value(c),
        d <= 9,
{
    (c as u32 - '0' as u32) as u8
}

/// Reads an integer word, refusing one outside the 32-bit signed range.
fn build_int(w: &Vec<char>) -> (r: Result<Token, LexError>)
    requires
        int_pattern(w@),
    ensures
        outcome_view(r) == build(Rule::Int, w@),
{
    let s = sign_len(w);
    let ghost u = w@.skip(s as int);
    let mut acc: u64 = 0;
    let mut i = s;
    while i < w.len()
        invariant
            s <= i <= w.len(),
            u == w@.skip(s as int),
            u == unsigned_part(w@),
            int_pattern(w@),
            acc as nat == digits_value(u.take(i - s)),
            acc <= INT_MAGNITUDE,
        decreases w.len() - i,
    {
        proof {
            assert(u[i - s] == w@[i as int]);
            assert(is_digit(u[i - s]));
            lemma_digits_push(u, i - s);
        }
        let d = digit_of(w[i]);
        acc = acc * 10 + d as u64;
        if acc > INT_MAGNITUDE {
            proof {
                lemma_digits_prefix_le(u, i - s + 1);
            }
            return Err(LexError::InvalidNumber);
        }
        i += 1;
    }
    proof {
        assert(u.take(i - s) =~= u);
    }
    if s == 1 {
        Ok(Token::Int((0 - acc as i64) as i32))
    } else if acc < INT_MAGNITUDE {
        Ok(Token::Int(acc as i32))
    } else {
        Err(LexError::InvalidNumber)
    }
}

/// Reads the digits `w[from..to]`, refusing a value that a 32-bit float
/// cannot hold.
fn read_whole(w: &Vec<char>, from: usize, to: usize) -> (r: Option<u128>)
    requires
        from <= to <= w.len(),
        forall|k: int| from <= k < to ==> #[trigger] is_digit(w@[k]),
    ensures
        match r {
            Some(v) => v as nat == digits_value(w@.subrange(from as int, to as int)) && v
                < FLOAT_OVERFLOW,
            None => digits_value(w@.subrange(from as int, to as int)) >= FLOAT_OVERFLOW,
        },
{
    let ghost wd = w@.subrange(from as int, to as int);
    let mut acc: u128 = 0;
    let mut i = from;
    while i < to
        invariant
            from <= i <= to <= w.len(),
            wd == w@.subrange(from as int, to as int),
            acc as nat == digits_value(wd.take(i - from)),
            acc < FLOAT_OVERFLOW,
            forall|k: int| from <= k < to ==> #[trigger] is_digit(w@[k]),
        decreases to - i,
    {
        proof {
            assert(wd[i - from] == w@[i as int]);
            lemma_digits_push(wd, i - from);
            lemma_digits_prefix_le(wd, i - from + 1);
        }
        let d = digit_of(w[i]);
        if acc > FLOAT_OVERFLOW_TENTH {
            return None;
        }
        acc = acc * 10 + d as u128;
        if acc >= FLOAT_OVERFLOW {
            return None;
        }
        i += 1;
    }
    proof {
        assert(wd.take(to - from) =~= wd);
    }
    Some(acc)
}

/// The digit values of `w[from..]`.
fn read_fraction(w: &Vec<char>, from: usize) -> (r: Vec<u8>)
    requires
        from <= w.len(),
        all_digits(w@.skip(from as int)),
    ensures
        r@ == w@.skip(from as int).map_values(|c: char| digit_byte(c)),
{
    let ghost fr = w@.skip(from as int);
    let mut r: Vec<u8> = Vec::new();
    let mut k = from;
    while k < w.len()
        invariant
            from <= k <= w.len(),
            fr == w@.skip(from as int),
            all_digits(fr),
            r@ =~= fr.take(k - from).map_values(|c: char| digit_byte(c)),
        decreases w.len() - k,
    {
        proof {
            assert(fr[k - from] == w@[k as int]);
            assert(is_digit(fr[k - from]));
            assert(fr.take(k - from + 1).map_values(|c: char| digit_byte(c)) =~= fr.take(
                k - from,
            ).map_values(|c: char| digit_byte(c)).push(digit_byte(fr[k - from])));
        }
        let d = digit_of(w[k]);
        r.push(d);
        k += 1;
    }
    proof {
        assert(fr.take(k - from) =~= fr);
    }
    r
}

/// Reads a float word into its exact decimal form, refusing one whose
/// magnitude a 32-bit float cannot hold.
fn build_float(w: &Vec<char>) -> (r: Result<Token, LexError>)
    requires
        float_pattern(w@),
    ensures
        outcome_view(r) == build(Rule::Float, w@),
{
    let s = sign_len(w);
    let e = digit_run_end(w, s);
    let ghost u = w@.skip(s as int);
    let ghost n = e - s;
    proof {
        assert(u.take(n) =~= w@.subrange(s as int, e as int));
        assert(u.skip(n + 1) =~= w@.skip(e + 1));
    }
    match read_whole(w, s, e) {
        Some(whole) => {
            let fraction = read_fraction(w, e + 1);
            Ok(Token::Float(FloatLiteral { negative: s == 1, whole, fraction }))
        },
        None => Err(LexError::InvalidNumber),
    }
}

/// Builds the token of a rule that matches the whole word.
fn build_token(r: Rule, w: &Vec<char>, word: &str) -> (t: Result<Token, LexError>)
    requires
        rule_matches(r, w@),
        word@ == w@,
    ensures
        outcome_view(t) == build(r, w@),
{
    match r {
        Rule::Float => build_float(w),
        Rule::Int => build_int(w),
        Rule::If => Ok(Token::If),
        Rule::Else => Ok(Token::Else),
        Rule::While => Ok(Token::While),
        Rule::Identifier => Ok(Token::String(word.to_owned())),
        Rule::PlusEquals => Ok(Token::PlusEquals),
        Rule::MultiplyEquals => Ok(Token::MultiplyEquals),
        Rule::MinusEquals => Ok(Token::MinusEquals),
        Rule::DivideEquals => Ok(Token::DivideEquals),
        Rule::NotEquals => Ok(Token::NotEquals),
        Rule::GreaterThanOrEqual => Ok(Token::GreaterThanOrEqual),
        Rule::LessThanOrEqual => Ok(Token::LessThanOrEqual),
        Rule::Plus => Ok(Token::Plus),
        Rule::Minus => Ok(Token::Minus),
        Rule::Multiply => Ok(Token::Multiply),
        Rule::Divide => Ok(Token::Divide),
        Rule::LessThan => Ok(Token::LessThan),
        Rule::GreaterThan => Ok(Token::GreaterThan),
    }
}

/// The characters of a string, in order.
pub fn chars_of(s: &str) -> (r: Vec<char>)
    ensures
        r@ == s@,
{
    broadcast use vstd::string::group_string_axioms;

    let mut r: Vec<char> = Vec::new();
    for c in iter: s.chars()
        invariant
            r@ == iter.seq().take(iter.index() as int),
    {
        r.push(c);
    }
    assert(r@ =~= s@);
    r
}

/// Classifies one word against the whole rule table: the token that the only
/// matching rule builds, or why there is none.
pub fn classify_word(word: &str) -> (r: Result<Token, LexError>)
    ensures
        outcome_view(r) == classify(word@),
{
    let w = chars_of(word);
    let mut count: usize = 0;
    let mut found: Option<Rule> = None;
    let mut i: usize = 0;
    while i < RULE_COUNT
        invariant
            i <= RULE_COUNT,
            count <= i,
            count == match_count(w@, i as int),
            found == last_match(w@, i as int),
            count > 0 ==> found is Some,
            found is Some ==> rule_matches(found->Some_0, w@),
        decreases RULE_COUNT - i,
    {
        let r = rule_entry(i);
        if matches_rule(r, &w) {
            count += 1;
            found = Some(r);
        }
        i += 1;
    }
    if count == 0 {
        Err(LexError::NoTokenFound)
    } else if count > 1 {
        Err(LexError::AmbiguousToken)
    } else {
        match found {
            Some(r) => build_token(r, &w, word),
            None => Err(LexError::NoTokenFound),
        }
    }
}


/// No word is matched by more than one rule of the table, so classifying a
/// word never reports it as ambiguous.
pub proof fn lemma_rule_table_unambiguous(w: Seq<char>)
    ensures
        match_count(w, RULE_COUNT as int) <= 1,
        classify(w) != Err::<TokenView, LexError>(LexError::AmbiguousToken),
{
    reveal_with_fuel(match_count, 20);
    let u = unsigned_part(w);
    if float_pattern(w) {
        let n = digit_run(u) as int;
        assert(!is_digit(u[n]));
        assert(!int_pattern(w));
        assert(!identifier_pattern(w)) by {
            if w.len() > 0 && is_letter(w[0]) {
                assert(u == w);
            }
        }
    }
    if int_pattern(w) {
        assert(is_digit(u[0]));
        assert(!identifier_pattern(w)) by {
            if w.len() > 0 && is_letter(w[0]) {
                assert(u == w);
            }
        }
    }
    if w.len() > 0 && (is_letter(w[0]) || w[0] == '+' || w[0] == '*' || w[0] == '/' || w[0] == '!'
        || w[0] == '<' || w[0] == '>') {
        assert(u == w);
    }
    if w.len() > 0 && w[0] == '-' {
        assert(u =~= w.skip(1));
    }
}


/// The position of a rule in the table.
pub open spec fn rule_index(r: Rule) -> int {
    match r {
        Rule::Float => 0,
        Rule::Int => 1,
        Rule::If => 2,
        Rule::Else => 3,
        Rule::While => 4,
        Rule::Identifier => 5,
        Rule::PlusEquals => 6,
        Rule::MultiplyEquals => 7,
        Rule::MinusEquals => 8,
        Rule::DivideEquals => 9,
        Rule::NotEquals => 10,
        Rule::GreaterThanOrEqual => 11,
        Rule::LessThanOrEqual => 12,
        Rule::Plus => 13,
        Rule::Minus => 14,
        Rule::Multiply => 15,
        Rule::Divide => 16,
        Rule::LessThan => 17,
        Rule::GreaterThan => 18,
    }
}

proof fn lemma_match_count_positive(w: Seq<char>, n: int, k: int)
    requires
        0 <= k < n,
        rule_matches(rule_at(k), w),
    ensures
        match_count(w, n) >= 1,
    decreases n,
{
    if k < n - 1 {
        lemma_match_count_positive(w, n - 1, k);
    }
}

proof fn lemma_only_match_is_last(w: Seq<char>, n: int, k: int)
    requires
        0 <= k < n,
        rule_matches(rule_at(k), w),
        match_count(w, n) <= 1,
    ensures
        last_match(w, n) == Some(rule_at(k)),
    decreases n,
{
    if k < n - 1 {
        lemma_match_count_positive(w, n - 1, k);
        lemma_only_match_is_last(w, n - 1, k);
    }
}

/// A word that a rule matches is classified by that rule alone.
pub proof fn lemma_classify_matching(r: Rule, w: Seq<char>)
    requires
        rule_matches(r, w),
    ensures
        classify(w) == build(r, w),
{
    let k = rule_index(r);
    assert(rule_at(k) == r);
    lemma_rule_table_unambiguous(w);
    lemma_match_count_positive(w, RULE_COUNT as int, k);
    lemma_only_match_is_last(w, RULE_COUNT as int, k);
}

} // verus!
