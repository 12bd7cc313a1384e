//! Splitting a line into words and tokenizing each of them.

use vstd::prelude::*;
use vstd::string::StrSliceExecFns;
use crate::rules::{chars_of, classify, classify_word, LexError};
pub use crate::token::{FloatLiteral, Token, TokenView};

verus! {

/// A classified token with the exact text of the word it came from.
pub struct ResultingToken {
    pub token: Token,
    pub value: String,
}

impl View for ResultingToken {
    type V = (TokenView, Seq<char>);

    open spec fn view(&self) -> (TokenView, Seq<char>) {
        (self.token@, self.value@)
    }
}

/// A word that was skipped, and why.
pub struct Diagnostic {
    pub kind: LexError,
    pub word: String,
}

impl View for Diagnostic {
    type V = (LexError, Seq<char>);

    open spec fn view(&self) -> (LexError, Seq<char>) {
        (self.kind, self.word@)
    }
}

/// The characters that separate words (ASCII whitespace).
pub open spec fn is_space(c: char) -> bool {
    c == ' ' || c == '\t' || c == '\n' || c == '\r' || c == '\x0C'
}

/// The maximal runs of non-space characters of `s`, from left to right.
pub open spec fn words(s: Seq<char>) -> Seq<Seq<char>>
    decreases s.len(),
{
    if s.len() == 0 {
        seq![]
    } else {
        let prev = words(s.drop_last());
        let c = s.last();
        if is_space(c) {
            prev
        } else if s.len() >= 2 && !is_space(s[s.len() - 2]) {
            prev.update(prev.len() - 1, prev.last().push(c))
        } else {
            prev.push(seq![c])
        }
    }
}

/// The tokens of the words that classify, each with its word, in order.
pub open spec fn tokens_of(ws: Seq<Seq<char>>) -> Seq<(TokenView, Seq<char>)>
    decreases ws.len(),
{
    if ws.len() == 0 {
        seq![]
    } else {
        let prev = tokens_of(ws.drop_last());
        match classify(ws.last()) {
            Ok(t) => prev.push((t, ws.last())),
            Err(_) => prev,
        }
    }
}

/// The words that do not classify, each with the reason, in order.
pub open spec fn diagnostics_of(ws: Seq<Seq<char>>) -> Seq<(LexError, Seq<char>)>
    decreases ws.len(),
{
    if ws.len() == 0 {
        seq![]
    } else {
        let prev = diagnostics_of(ws.drop_last());
        match classify(ws.last()) {
            Ok(_) => prev,
            Err(e) => prev.push((e, ws.last())),
        }
    }
}

pub open spec fn string_views(v: Seq<String>) -> Seq<Seq<char>> {
    v.map_values(|w: String| w@)
}

fn is_space_char(c: char) -> (r: bool)
    ensures
        r == is_space(c),
{
    c == ' ' || c == '\t' || c == '\n' || c == '\r' || c == '\x0C'
}

/// Splits the text on runs of whitespace, keeping the words in order.
pub fn split_words(text: &str) -> (r: Vec<String>)
    ensures
        string_views(r@) == words(text@),
{
    let cs = chars_of(text);
    let mut out: Vec<String> = Vec::new();
    let mut start: usize = 0;
    let mut in_word = false;
    let mut i: usize = 0;
    while i < cs.len()
        invariant
            i <= cs.len(),
            cs@ == text@,
            start <= i,
            in_word == (i > 0 && !is_space(cs@[i - 1])),
            in_word ==> start < i && words(cs@.take(i as int)) == string_views(out@).push(
                cs@.subrange(start as int, i as int),
            ),
            !in_word ==> words(cs@.take(i as int)) == string_views(out@),
        decreases cs.len() - i,
    {
        let c = cs[i];
        let ghost s = cs@.take(i + 1);
        proof {
            assert(s.drop_last() =~= cs@.take(i as int));
            assert(s.last() == c);
        }
        if is_space_char(c) {
            if in_word {
                let w = text.substring_char(start, i).to_owned();
                let ghost before = out@;
                out.push(w);
                assert(string_views(out@) =~= string_views(before).push(w@));
            }
            in_word = false;
        } else {
            if !in_word {
                start = i;
                in_word = true;
                assert(cs@.subrange(start as int, i + 1) =~= seq![c]);
            } else {
                assert(s[s.len() - 2] == cs@[i - 1]);
                assert(cs@.subrange(start as int, i + 1) =~= cs@.subrange(
                    start as int,
                    i as int,
                ).push(c));
                let ghost prev = string_views(out@).push(cs@.subrange(start as int, i as int));
                assert(prev.update(prev.len() - 1, prev.last().push(c)) =~= string_views(
                    out@,
                ).push(cs@.subrange(start as int, i + 1)));
            }
        }
        i += 1;
    }
    if in_word {
        let w = text.substring_char(start, cs.len()).to_owned();
        let ghost before = out@;
        out.push(w);
        assert(string_views(out@) =~= string_views(before).push(w@));
    }
    proof {
        assert(cs@.take(cs.len() as int) =~= cs@);
    }
    out
}


pub open spec fn token_views(v: Seq<ResultingToken>) -> Seq<(TokenView, Seq<char>)> {
    v.map_values(|t: ResultingToken| t@)
}

pub open spec fn diagnostic_views(v: Seq<Diagnostic>) -> Seq<(LexError, Seq<char>)> {
    v.map_values(|d: Diagnostic| d@)
}

/// Tokenizes one line: each word of the text becomes either a token, in the
/// order of the words, or a diagnostic that names the word and the reason.
pub fn tokenize(text: &str) -> (r: (Vec<ResultingToken>, Vec<Diagnostic>))
    ensures
        token_views(r.0@) == tokens_of(words(text@)),
        diagnostic_views(r.1@) == diagnostics_of(words(text@)),
{
    let ws = split_words(text);
    let ghost wv = string_views(ws@);
    let mut tokens: Vec<ResultingToken> = Vec::new();
    let mut diagnostics: Vec<Diagnostic> = Vec::new();
    let mut i: usize = 0;
    while i < ws.len()
        invariant
            i <= ws.len(),
            wv == string_views(ws@),
            wv == words(text@),
            token_views(tokens@) == tokens_of(wv.take(i as int)),
            diagnostic_views(diagnostics@) == diagnostics_of(wv.take(i as int)),
        decreases ws.len() - i,
    {
        let word = &ws[i];
        proof {
            assert(wv.take(i + 1).drop_last() =~= wv.take(i as int));
            assert(wv.take(i + 1).last() == word@);
        }
        match classify_word(word.as_str()) {
            Ok(token) => {
                let ghost before = tokens@;
                tokens.push(ResultingToken { token, value: word.clone() });
                assert(token_views(tokens@) =~= token_views(before).push(
                    (token@, word@),
                ));
            },
            Err(kind) => {
                let ghost before = diagnostics@;
                diagnostics.push(Diagnostic { kind, word: word.clone() });
                assert(diagnostic_views(diagnostics@) =~= diagnostic_views(before).push(
                    (kind, word@),
                ));
            },
        }
        i += 1;
    }
    proof {
        assert(wv.take(ws.len() as int) =~= wv);
    }
    (tokens, diagnostics)
}

/// The tokens of one line, in the order of their words; words that do not
/// classify are left out.
pub fn process_text(text: &str) -> (r: Vec<ResultingToken>)
    ensures
        token_views(r@) == tokens_of(words(text@)),
{
    let (tokens, _diagnostics) = tokenize(text);
    tokens
}

} // verus!
