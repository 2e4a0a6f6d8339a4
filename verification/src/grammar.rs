//! The grammar table: an ordered list of token patterns and an ordered
//! list of nonterminal definitions. A grammar is immutable once built;
//! token order decides which pattern wins at overlapping matches, and
//! nonterminal/case order decides which reduction wins.

use vstd::prelude::*;

verus! {

/// The kind of a symbol. A terminal names a token class by its position
/// in the grammar's token list; a nonterminal names a definition by its
/// position in the grammar's nonterminal list.
#[derive(Clone, Copy, Debug, PartialEq, Eq, Structural)]
pub enum SymbolKind {
    Terminal(usize),
    Nonterminal(usize),
}

/// One expected child of a case: the kind the child must have, and the
/// name under which the built node carries it.
#[derive(Clone, Debug)]
pub struct GrammarPart {
    pub kind: SymbolKind,
    pub name: String,
}

/// One alternative of a nonterminal: a named, ordered sequence of
/// expected child kinds that must match a prefix of the symbol window.
#[derive(Clone, Debug)]
pub struct GrammarCase {
    pub name: String,
    pub parts: Vec<GrammarPart>,
}

/// One nonterminal definition: a name and its ordered alternative cases.
#[derive(Clone, Debug)]
pub struct NonterminalDef {
    pub name: String,
    pub cases: Vec<GrammarCase>,
}

/// One token class: a name and the pattern that matches it.
#[derive(Clone, Debug)]
pub struct TokenDef {
    pub name: String,
    pub pattern: String,
}

/// A grammar: the ordered token classes and the ordered nonterminal
/// definitions. Both orders carry meaning: earlier token patterns win
/// pattern-overlap ties, and earlier nonterminals/cases win reductions.
#[derive(Clone, Debug)]
pub struct Grammar {
    pub tokens: Vec<TokenDef>,
    pub nonterminals: Vec<NonterminalDef>,
}

pub struct GrammarPartV {
    pub kind: SymbolKind,
    pub name: Seq<char>,
}

pub struct GrammarCaseV {
    pub name: Seq<char>,
    pub parts: Seq<GrammarPartV>,
}

pub struct NonterminalDefV {
    pub name: Seq<char>,
    pub cases: Seq<GrammarCaseV>,
}

pub struct TokenDefV {
    pub name: Seq<char>,
    pub pattern: Seq<char>,
}

pub struct GrammarV {
    pub tokens: Seq<TokenDefV>,
    pub nonterminals: Seq<NonterminalDefV>,
}

impl View for GrammarPart {
    type V = GrammarPartV;

    open spec fn view(&self) -> GrammarPartV {
        GrammarPartV { kind: self.kind, name: self.name@ }
    }
}

impl View for GrammarCase {
    type V = GrammarCaseV;

    open spec fn view(&self) -> GrammarCaseV {
        GrammarCaseV {
            name: self.name@,
            parts: Seq::new(self.parts@.len(), |i: int| self.parts@[i]@),
        }
    }
}

impl View for NonterminalDef {
    type V = NonterminalDefV;

    open spec fn view(&self) -> NonterminalDefV {
        NonterminalDefV {
            name: self.name@,
            cases: Seq::new(self.cases@.len(), |i: int| self.cases@[i]@),
        }
    }
}

impl View for TokenDef {
    type V = TokenDefV;

    open spec fn view(&self) -> TokenDefV {
        TokenDefV { name: self.name@, pattern: self.pattern@ }
    }
}

impl View for Grammar {
    type V = GrammarV;

    open spec fn view(&self) -> GrammarV {
        GrammarV {
            tokens: Seq::new(self.tokens@.len(), |i: int| self.tokens@[i]@),
            nonterminals: Seq::new(self.nonterminals@.len(), |i: int| self.nonterminals@[i]@),
        }
    }
}

/// A token pattern wrapped in its own capturing group.
pub open spec fn wrapped(pattern: Seq<char>) -> Seq<char> {
    seq!['('] + pattern + seq![')']
}

/// The combined pattern over the first `n` token classes: each pattern in
/// its own capturing group, joined in declared order by alternation.
pub open spec fn combined_prefix(tokens: Seq<TokenDefV>, n: int) -> Seq<char>
    recommends
        0 <= n <= tokens.len(),
    decreases n,
{
    if n <= 0 {
        Seq::empty()
    } else if n == 1 {
        wrapped(tokens[0].pattern)
    } else {
        combined_prefix(tokens, n - 1) + seq!['|'] + wrapped(tokens[n - 1].pattern)
    }
}

/// The combined pattern of a grammar's whole token list.
pub open spec fn combined_pattern(g: GrammarV) -> Seq<char> {
    combined_prefix(g.tokens, g.tokens.len() as int)
}

impl Grammar {
    /// Builds the combined pattern text: every token pattern wrapped as
    /// its own capturing group, in declared order, joined by `|`.
    pub fn combined_pattern(&self) -> (r: String)
        ensures
            r@ == combined_pattern(self@),
    {
        proof {
            reveal_strlit("(");
            reveal_strlit(")");
            reveal_strlit("|");
        }
        let mut buffer = String::new();
        let n = self.tokens.len();
        for i in 0..n
            invariant
                n == self.tokens@.len(),
                buffer@ == combined_prefix(self@.tokens, i as int),
                "("@ == seq!['('] && ")"@ == seq![')'] && "|"@ == seq!['|'],
        {
            if i > 0 {
                buffer.append("|");
            }
            buffer.append("(");
            buffer.append(self.tokens[i].pattern.as_str());
            buffer.append(")");
            proof {
                assert(buffer@ =~= combined_prefix(self@.tokens, i + 1));
            }
        }
        buffer
    }
}

} // verus!
