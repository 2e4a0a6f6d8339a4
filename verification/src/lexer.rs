//! The lexer: compiles the grammar's token patterns into one combined
//! pattern and turns raw text into a lazy, forward-only sequence of
//! tokens. The search is not anchored at the cursor: text that no token
//! pattern matches is silently skipped, and unmatched trailing text
//! silently ends the sequence.

use vstd::prelude::*;

use crate::grammar::{combined_pattern, Grammar};

verus! {

/// A token: which token class matched (an index into the grammar's token
/// list) and the matched span, as byte offsets into the source text. A
/// token never copies source text; the span addresses the caller's buffer.
#[derive(Clone, Copy, Debug, PartialEq, Eq, Structural)]
pub struct Token {
    pub kind: usize,
    pub start: usize,
    pub end: usize,
}

/// Raised once, at lexer construction, when the combined token pattern is
/// not a valid pattern; never recovered, never retried.
#[derive(Clone, Copy, Debug, PartialEq, Eq, Structural)]
pub struct PatternError;

/// Whether the pattern engine accepts `pattern`: success or failure of
/// compilation is a function of the pattern text alone.
pub uninterp spec fn pattern_compiles(pattern: Seq<char>) -> bool;

/// What the pattern engine finds for `pattern` in `text` when the search
/// starts at byte offset `from`: the zero-based index of the first
/// capture group that participates in the leftmost match, and the byte
/// span of the whole match. The result is a function of the pattern, the
/// text and the offset alone.
pub uninterp spec fn regex_find(pattern: Seq<char>, text: Seq<u8>, from: usize) -> Option<
    (usize, usize, usize),
>;

/// Relies on `regex::bytes::Regex::new`: whether a pattern compiles
/// depends on the pattern text alone.
#[verifier::external_body]
fn pattern_ok(pattern: &str) -> (r: bool)
    ensures
        r == pattern_compiles(pattern@),
{
    regex::bytes::Regex::new(pattern).is_ok()
}

/// Relies on `regex::bytes::Regex::new` and `Regex::captures_at`: the
/// leftmost match at or after `from` together with its first
/// participating capture group is a function of the pattern, the text and
/// the offset alone, and the match lies between `from` and the end of
/// `text`.
#[verifier::external_body]
fn regex_find_from(pattern: &str, text: &[u8], from: usize) -> (r: Option<(usize, usize, usize)>)
    requires
        from <= text@.len(),
    ensures
        pattern_compiles(pattern@) ==> r == regex_find(pattern@, text@, from),
        match r {
            Some(m) => from <= m.1 && m.1 <= m.2 && m.2 <= text@.len(),
            None => true,
        },
{
    let re = match regex::bytes::Regex::new(pattern) {
        Ok(re) => re,
        Err(_) => return None,
    };
    let caps = re.captures_at(text, from)?;
    let group = caps.iter().skip(1).position(|m| m.is_some())?;
    let whole = caps.get(0).unwrap();
    Some((group, whole.start(), whole.end()))
}

pub struct LexerV {
    pub text: Seq<u8>,
    pub pattern: Seq<char>,
    pub n_tokens: usize,
    pub cursor: usize,
}

/// A lexer over one source text: the combined pattern, the number of
/// token classes, and the cursor from which the next search starts. The
/// sequence it yields is forward-only and non-restartable.
pub struct Lexer {
    text: Vec<u8>,
    pattern: String,
    n_tokens: usize,
    cursor: usize,
}

impl View for Lexer {
    type V = LexerV;

    closed spec fn view(&self) -> LexerV {
        LexerV {
            text: self.text@,
            pattern: self.pattern@,
            n_tokens: self.n_tokens,
            cursor: self.cursor,
        }
    }
}

/// The tokens that repeated pulls yield from `from` on. The sequence
/// ends where the pattern no longer matches, where a match fails to
/// advance the cursor, or where a match sets a capture group outside the
/// token list.
pub open spec fn lex_from(pattern: Seq<char>, text: Seq<u8>, from: usize, n_tokens: usize) -> Seq<
    Token,
>
    decreases text.len() - from,
{
    match regex_find(pattern, text, from) {
        None => Seq::empty(),
        Some(m) => {
            if m.2 <= from || m.2 > text.len() {
                Seq::empty()
            } else if m.0 >= n_tokens {
                Seq::empty()
            } else {
                seq![Token { kind: m.0, start: m.1, end: m.2 }] + lex_from(
                    pattern,
                    text,
                    m.2,
                    n_tokens,
                )
            }
        },
    }
}

impl Lexer {
    /// The cursor never runs past the end of the text.
    pub open spec fn wf(self) -> bool {
        self@.cursor <= self@.text.len()
    }

    /// Builds a lexer for `text` over `grammar`'s token list. The
    /// combined pattern is compiled here, once; a malformed pattern is a
    /// fatal configuration error surfaced immediately.
    pub fn new(text: Vec<u8>, grammar: &Grammar) -> (r: Result<Lexer, PatternError>)
        ensures
            match r {
                Ok(lexer) => {
                    &&& pattern_compiles(combined_pattern(grammar@))
                    &&& lexer.wf()
                    &&& lexer@.text == text@
                    &&& lexer@.pattern == combined_pattern(grammar@)
                    &&& lexer@.n_tokens == grammar.tokens@.len()
                    &&& lexer@.cursor == 0
                },
                Err(_) => !pattern_compiles(combined_pattern(grammar@)),
            },
    {
        let pattern = grammar.combined_pattern();
        if pattern_ok(pattern.as_str()) {
            Ok(Lexer { text, pattern, n_tokens: grammar.tokens.len(), cursor: 0 })
        } else {
            Err(PatternError)
        }
    }

    /// One pull: searches the combined pattern from the cursor, not
    /// anchored there, and yields at most one token. On a match the
    /// cursor advances to the end of the whole match and the first set
    /// capture group names the token class; a match that fails to
    /// advance the cursor ends the sequence, as the same zero-width
    /// match would otherwise be pulled forever. The cursor never moves
    /// backwards, and a yielded span lies between the old cursor and the
    /// end of the text.
    pub fn next(&mut self) -> (r: Option<Token>)
        requires
            old(self).wf(),
        ensures
            final(self).wf(),
            final(self)@.text == old(self)@.text,
            final(self)@.pattern == old(self)@.pattern,
            final(self)@.n_tokens == old(self)@.n_tokens,
            old(self)@.cursor <= final(self)@.cursor,
            match r {
                Some(t) => {
                    &&& t.kind < old(self)@.n_tokens
                    &&& old(self)@.cursor <= t.start
                    &&& t.start <= t.end
                    &&& t.end <= old(self)@.text.len()
                    &&& old(self)@.cursor < t.end
                    &&& final(self)@.cursor == t.end
                },
                None => true,
            },
            pattern_compiles(old(self)@.pattern) ==> match regex_find(
                old(self)@.pattern,
                old(self)@.text,
                old(self)@.cursor,
            ) {
                None => r is None && final(self)@.cursor == old(self)@.cursor,
                Some(m) => {
                    if m.2 <= old(self)@.cursor {
                        r is None && final(self)@.cursor == old(self)@.cursor
                    } else {
                        final(self)@.cursor == m.2 && r == if m.0 < old(self)@.n_tokens {
                            Some(Token { kind: m.0, start: m.1, end: m.2 })
                        } else {
                            None::<Token>
                        }
                    }
                },
            },
    {
        match regex_find_from(self.pattern.as_str(), self.text.as_slice(), self.cursor) {
            None => None,
            Some((group, start, end)) => {
                if end <= self.cursor {
                    return None;
                }
                self.cursor = end;
                if group < self.n_tokens {
                    Some(Token { kind: group, start, end })
                } else {
                    None
                }
            },
        }
    }

    /// Pulls tokens until the sequence ends. The spans of the result are
    /// ordered left to right without overlap, and under a compiling
    /// pattern the result is exactly the token sequence of the text from
    /// the cursor on: lexing is deterministic.
    pub fn tokenize(&mut self) -> (r: Vec<Token>)
        requires
            old(self).wf(),
        ensures
            final(self).wf(),
            final(self)@.text == old(self)@.text,
            final(self)@.pattern == old(self)@.pattern,
            final(self)@.n_tokens == old(self)@.n_tokens,
            old(self)@.cursor <= final(self)@.cursor,
            forall|i: int|
                0 <= i < r@.len() ==> {
                    &&& (#[trigger] r@[i]).kind < old(self)@.n_tokens
                    &&& old(self)@.cursor <= r@[i].start
                    &&& r@[i].start <= r@[i].end
                    &&& r@[i].end <= old(self)@.text.len()
                },
            forall|i: int, j: int|
                0 <= i < j < r@.len() ==> (#[trigger] r@[i]).end <= (#[trigger] r@[j]).start,
            pattern_compiles(old(self)@.pattern) ==> r@ == lex_from(
                old(self)@.pattern,
                old(self)@.text,
                old(self)@.cursor,
                old(self)@.n_tokens,
            ),
    {
        let ghost pattern = self@.pattern;
        let ghost text = self@.text;
        let ghost n_tokens = self@.n_tokens;
        let ghost cursor0 = self@.cursor;
        let mut out: Vec<Token> = Vec::new();
        loop
            invariant
                self.wf(),
                pattern == old(self)@.pattern,
                text == old(self)@.text,
                n_tokens == old(self)@.n_tokens,
                cursor0 == old(self)@.cursor,
                self@.pattern == pattern,
                self@.text == text,
                self@.n_tokens == n_tokens,
                cursor0 <= self@.cursor,
                forall|i: int|
                    0 <= i < out@.len() ==> {
                        &&& (#[trigger] out@[i]).kind < n_tokens
                        &&& cursor0 <= out@[i].start
                        &&& out@[i].start <= out@[i].end
                        &&& out@[i].end <= text.len()
                    },
                forall|i: int, j: int|
                    0 <= i < j < out@.len() ==> (#[trigger] out@[i]).end <= (
                    #[trigger] out@[j]).start,
                out@.len() > 0 ==> out@.last().end <= self@.cursor,
                pattern_compiles(pattern) ==> lex_from(pattern, text, cursor0, n_tokens) == out@
                    + lex_from(pattern, text, self@.cursor, n_tokens),
            decreases text.len() - self@.cursor,
        {
            let ghost cursor_before = self@.cursor;
            let ghost out_before = out@;
            match self.next() {
                Some(token) => {
                    proof {
                        if pattern_compiles(pattern) {
                            assert(lex_from(pattern, text, cursor_before, n_tokens) == seq![token]
                                + lex_from(pattern, text, token.end, n_tokens));
                            assert(out_before + lex_from(pattern, text, cursor_before, n_tokens)
                                =~= out_before.push(token) + lex_from(
                                pattern,
                                text,
                                token.end,
                                n_tokens,
                            ));
                        }
                    }
                    out.push(token);
                },
                None => {
                    proof {
                        if pattern_compiles(pattern) {
                            assert(lex_from(pattern, text, cursor_before, n_tokens)
                                =~= Seq::<Token>::empty());
                            assert(out_before + Seq::<Token>::empty() =~= out_before);
                        }
                    }
                    return out;
                },
            }
        }
    }
}

/// When every span in an ordered token sequence is non-empty, the starts
/// and the ends strictly increase from token to token.
pub proof fn lemma_spans_strictly_increase(tokens: Seq<Token>)
    requires
        forall|i: int| 0 <= i < tokens.len() ==> (#[trigger] tokens[i]).start < tokens[i].end,
        forall|i: int, j: int|
            0 <= i < j < tokens.len() ==> (#[trigger] tokens[i]).end <= (
            #[trigger] tokens[j]).start,
    ensures
        forall|i: int, j: int|
            0 <= i < j < tokens.len() ==> (#[trigger] tokens[i]).start < (
            #[trigger] tokens[j]).start && tokens[i].end < tokens[j].end,
{
}

} // verus!
