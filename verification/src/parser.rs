//! The parser: a greedy, first-match, restart-on-success shift/reduce
//! engine. A queue holds the unconsumed symbols; while more than one
//! remains, the earliest grammar case that matches a prefix of the queue
//! reduces it, and otherwise the front symbol is shifted onto a stash.
//! Every reduction restores the stash in front of the queue, so the scan
//! restarts from the leftmost position. The engine accepts iff exactly
//! one symbol remains and the stash is empty.

use vstd::prelude::*;

use std::collections::VecDeque;

use crate::grammar::{Grammar, GrammarCase, GrammarCaseV, GrammarV, SymbolKind};
use crate::lexer::Token;

verus! {

/// A symbol: a token leaf, or a nonterminal node built by a reduction.
/// `nt` and `case` index the grammar's nonterminal list and its case
/// list; the children are the consumed symbols, in consumed order, and
/// are never mutated after the node is built.
#[derive(Debug, PartialEq)]
pub enum Symbol {
    Leaf(Token),
    Node { nt: usize, case: usize, children: Vec<Symbol> },
}

/// The mathematical shape of a symbol: what contracts speak about.
pub enum Tree {
    Leaf(Token),
    Node { nt: usize, case: usize, children: Seq<Tree> },
}

impl Symbol {
    /// The tree a symbol stands for.
    pub open spec fn tree(self) -> Tree
        decreases self, 1int,
    {
        match self {
            Symbol::Leaf(token) => Tree::Leaf(token),
            Symbol::Node { nt, case, children } => Tree::Node {
                nt,
                case,
                children: trees_prefix(children, children.len() as int),
            },
        }
    }

    /// The kind of a symbol, as the grammar's cases speak of kinds.
    pub fn kind(&self) -> (k: SymbolKind)
        ensures
            k == kind_of(self.tree()),
    {
        match self {
            Symbol::Leaf(token) => SymbolKind::Terminal(token.kind),
            Symbol::Node { nt, .. } => SymbolKind::Nonterminal(*nt),
        }
    }
}

/// The trees of the first `n` children, in order.
pub open spec fn trees_prefix(children: Vec<Symbol>, n: int) -> Seq<Tree>
    recommends
        n <= children.len(),
    decreases children, 0int, n,
    via trees_prefix_decreases
{
    if n <= 0 || children.len() < n {
        Seq::empty()
    } else {
        trees_prefix(children, n - 1).push(children[n - 1].tree())
    }
}

#[via_fn]
proof fn trees_prefix_decreases(children: Vec<Symbol>, n: int) {
    broadcast use vstd::std_specs::vec::axiom_vec_index_decreases;

    if 0 < n <= children.len() {
        assert(decreases_to!(children => children[n - 1]));
    }
}

/// The trees of a symbol sequence, in order.
pub open spec fn tree_seq(symbols: Seq<Symbol>) -> Seq<Tree> {
    Seq::new(symbols.len(), |i: int| symbols[i].tree())
}

proof fn lemma_trees_prefix(children: Vec<Symbol>, n: int)
    requires
        0 <= n <= children.len(),
    ensures
        trees_prefix(children, n) == tree_seq(children@.subrange(0, n)),
    decreases n,
{
    if n > 0 {
        lemma_trees_prefix(children, n - 1);
        assert(trees_prefix(children, n - 1).push(children[n - 1].tree()) =~= tree_seq(
            children@.subrange(0, n),
        ));
    } else {
        assert(trees_prefix(children, 0) =~= tree_seq(children@.subrange(0, 0)));
    }
}

/// The tree of a node is the node over its children's trees.
pub proof fn lemma_node_tree(nt: usize, case: usize, children: Vec<Symbol>)
    ensures
        (Symbol::Node { nt, case, children }).tree() == (Tree::Node {
            nt,
            case,
            children: tree_seq(children@),
        }),
{
    lemma_trees_prefix(children, children.len() as int);
    assert(children@.subrange(0, children.len() as int) =~= children@);
}

/// The kind of a tree: a leaf has its token's kind; a node has the kind
/// of the nonterminal it was reduced to.
pub open spec fn kind_of(t: Tree) -> SymbolKind {
    match t {
        Tree::Leaf(token) => SymbolKind::Terminal(token.kind),
        Tree::Node { nt, .. } => SymbolKind::Nonterminal(nt),
    }
}

/// Whether a case's expected child kinds match a prefix of the window,
/// kind for kind, left to right.
pub open spec fn case_matches(case: GrammarCaseV, window: Seq<Tree>) -> bool {
    &&& case.parts.len() <= window.len()
    &&& forall|i: int|
        0 <= i < case.parts.len() ==> kind_of(#[trigger] window[i]) == case.parts[i].kind
}

/// The first case at or after `j`, in declared order, that matches a
/// prefix of the window.
pub open spec fn first_case_from(cases: Seq<GrammarCaseV>, window: Seq<Tree>, j: int) -> Option<
    int,
>
    decreases cases.len() - j,
{
    if j < 0 || j >= cases.len() {
        None
    } else if case_matches(cases[j], window) {
        Some(j)
    } else {
        first_case_from(cases, window, j + 1)
    }
}

/// The first matching (nonterminal, case) pair at or after nonterminal
/// `i`, in declared order: nonterminal order first, case order within.
pub open spec fn first_reduction_from(g: GrammarV, window: Seq<Tree>, i: int) -> Option<
    (int, int),
>
    decreases g.nonterminals.len() - i,
{
    if i < 0 || i >= g.nonterminals.len() {
        None
    } else {
        match first_case_from(g.nonterminals[i].cases, window, 0) {
            Some(j) => Some((i, j)),
            None => first_reduction_from(g, window, i + 1),
        }
    }
}

/// The reduction the oracle takes on a window: the first declared match.
pub open spec fn find_reduction_spec(g: GrammarV, window: Seq<Tree>) -> Option<(int, int)> {
    first_reduction_from(g, window, 0)
}

/// Whether a case of `case.parts.len()` parts applies to the front of
/// the queue.
fn case_applies(case: &GrammarCase, window: &VecDeque<Symbol>) -> (r: bool)
    ensures
        r == case_matches(case@, tree_seq(window@)),
{
    let n = case.parts.len();
    if n > window.len() {
        return false;
    }
    for k in 0..n
        invariant
            n == case.parts@.len(),
            n <= window@.len(),
            forall|i: int|
                0 <= i < k ==> kind_of(#[trigger] tree_seq(window@)[i]) == case@.parts[i].kind,
    {
        if window[k].kind() != case.parts[k].kind {
            proof {
                assert(tree_seq(window@)[k as int] == window@[k as int].tree());
            }
            return false;
        }
    }
    true
}

/// Searches every nonterminal's cases in declared order for the first
/// one that matches a prefix of the queue.
fn find_reduction(grammar: &Grammar, window: &VecDeque<Symbol>) -> (r: Option<(usize, usize)>)
    ensures
        match r {
            Some(ij) => {
                &&& ij.0 < grammar.nonterminals@.len()
                &&& ij.1 < grammar@.nonterminals[ij.0 as int].cases.len()
                &&& find_reduction_spec(grammar@, tree_seq(window@)) == Some(
                    (ij.0 as int, ij.1 as int),
                )
                &&& case_matches(
                    grammar@.nonterminals[ij.0 as int].cases[ij.1 as int],
                    tree_seq(window@),
                )
            },
            None => find_reduction_spec(grammar@, tree_seq(window@)) is None,
        },
{
    let n_nts = grammar.nonterminals.len();
    for i in 0..n_nts
        invariant
            n_nts == grammar.nonterminals@.len(),
            first_reduction_from(grammar@, tree_seq(window@), 0) == first_reduction_from(
                grammar@,
                tree_seq(window@),
                i as int,
            ),
        decreases n_nts - i,
    {
        let cases = &grammar.nonterminals[i].cases;
        let n_cases = cases.len();
        for j in 0..n_cases
            invariant
                n_nts == grammar.nonterminals@.len(),
                i < n_nts,
                n_cases == cases@.len(),
                cases == &grammar.nonterminals@[i as int].cases,
                first_reduction_from(grammar@, tree_seq(window@), 0) == first_reduction_from(
                    grammar@,
                    tree_seq(window@),
                    i as int,
                ),
                first_case_from(grammar@.nonterminals[i as int].cases, tree_seq(window@), 0)
                    == first_case_from(
                    grammar@.nonterminals[i as int].cases,
                    tree_seq(window@),
                    j as int,
                ),
        {
            if case_applies(&cases[j], window) {
                return Some((i, j));
            }
        }
    }
    None
}

/// One machine state: the queue of unconsumed symbols (front first) and
/// the stash of shifted symbols (bottom first).
#[verifier::ext_equal]
pub struct State {
    pub q: Seq<Tree>,
    pub s: Seq<Tree>,
}

/// The engine is at rest once at most one symbol remains in the queue.
pub open spec fn is_final(st: State) -> bool {
    st.q.len() <= 1
}

/// One engine step. When the first declared case matches the front of
/// the queue, its `n` symbols are consumed into a new node, the node is
/// prepended, and the stash is restored in front of it, in its original
/// left-to-right order, so the scan restarts from the earliest position.
/// Otherwise the front symbol is shifted onto the stash.
pub open spec fn step(g: GrammarV, st: State) -> State {
    match find_reduction_spec(g, st.q) {
        Some(ij) => {
            let n = g.nonterminals[ij.0].cases[ij.1].parts.len() as int;
            let node = Tree::Node {
                nt: ij.0 as usize,
                case: ij.1 as usize,
                children: st.q.subrange(0, n),
            };
            State {
                q: st.s + seq![node] + st.q.subrange(n, st.q.len() as int),
                s: Seq::empty(),
            }
        },
        None => State {
            q: st.q.subrange(1, st.q.len() as int),
            s: st.s.push(st.q[0]),
        },
    }
}

/// The state after at most `n` steps: stepping stops at a final state.
pub open spec fn run(g: GrammarV, st: State, n: nat) -> State
    decreases n,
{
    if n == 0 || is_final(st) {
        st
    } else {
        run(g, step(g, st), (n - 1) as nat)
    }
}

proof fn lemma_run_succ(g: GrammarV, st: State, n: nat)
    requires
        !is_final(run(g, st, n)),
    ensures
        run(g, st, (n + 1) as nat) == step(g, run(g, st, n)),
    decreases n,
{
    reveal_with_fuel(run, 2);
    if n > 0 && !is_final(st) {
        lemma_run_succ(g, step(g, st), (n - 1) as nat);
    }
}

proof fn lemma_run_stable(g: GrammarV, st: State, n: nat, m: nat)
    requires
        n <= m,
        is_final(run(g, st, n)),
    ensures
        run(g, st, m) == run(g, st, n),
    decreases n,
{
    if n == 0 || is_final(st) {
    } else {
        lemma_run_stable(g, step(g, st), (n - 1) as nat, (m - 1) as nat);
    }
}

/// Determinism: two runs of the engine from one state under one grammar
/// agree once both have come to rest, whatever step counts they took.
/// Two parses of the same symbol sequence under the same grammar thus
/// produce structurally identical trees.
pub proof fn lemma_run_deterministic(g: GrammarV, st: State, n1: nat, n2: nat)
    requires
        is_final(run(g, st, n1)),
        is_final(run(g, st, n2)),
    ensures
        run(g, st, n1) == run(g, st, n2),
{
    if n1 <= n2 {
        lemma_run_stable(g, st, n1, n2);
    } else {
        lemma_run_stable(g, st, n2, n1);
    }
}

proof fn lemma_first_case_sound(cases: Seq<GrammarCaseV>, window: Seq<Tree>, j0: int)
    requires
        0 <= j0,
    ensures
        match first_case_from(cases, window, j0) {
            Some(j) => j0 <= j < cases.len() && case_matches(cases[j], window),
            None => true,
        },
    decreases cases.len() - j0,
{
    if j0 < cases.len() && !case_matches(cases[j0], window) {
        lemma_first_case_sound(cases, window, j0 + 1);
    }
}

proof fn lemma_first_case_wins(cases: Seq<GrammarCaseV>, window: Seq<Tree>, j0: int, j: int)
    requires
        0 <= j0 <= j < cases.len(),
        case_matches(cases[j], window),
    ensures
        first_case_from(cases, window, j0) is Some,
        j0 <= first_case_from(cases, window, j0)->Some_0 <= j,
    decreases j - j0,
{
    if !case_matches(cases[j0], window) {
        lemma_first_case_wins(cases, window, j0 + 1, j);
    }
}

proof fn lemma_first_reduction_wins(g: GrammarV, window: Seq<Tree>, i0: int, i: int, j: int)
    requires
        0 <= i0 <= i < g.nonterminals.len(),
        0 <= j < g.nonterminals[i].cases.len(),
        case_matches(g.nonterminals[i].cases[j], window),
    ensures
        first_reduction_from(g, window, i0) is Some,
        ({
            let ij = first_reduction_from(g, window, i0)->Some_0;
            i0 <= ij.0 && (ij.0 < i || (ij.0 == i && ij.1 <= j))
        }),
    decreases i - i0,
{
    if i0 == i {
        lemma_first_case_wins(g.nonterminals[i].cases, window, 0, j);
    } else {
        if first_case_from(g.nonterminals[i0].cases, window, 0) is None {
            lemma_first_reduction_wins(g, window, i0 + 1, i, j);
        }
    }
}

/// Declaration order decides. When some case of some nonterminal matches
/// the front of the window, a reduction is taken, and it is the first
/// matching case in declaration order: nonterminal order first, then
/// case order within a nonterminal. A grammar that lists overlapping
/// cases in another order therefore commits another reduction on the
/// same window.
pub proof fn lemma_first_declared_case_wins(g: GrammarV, window: Seq<Tree>, i: int, j: int)
    requires
        0 <= i < g.nonterminals.len(),
        0 <= j < g.nonterminals[i].cases.len(),
        case_matches(g.nonterminals[i].cases[j], window),
    ensures
        find_reduction_spec(g, window) is Some,
        ({
            let ij = find_reduction_spec(g, window)->Some_0;
            &&& 0 <= ij.0 < g.nonterminals.len()
            &&& 0 <= ij.1 < g.nonterminals[ij.0].cases.len()
            &&& case_matches(g.nonterminals[ij.0].cases[ij.1], window)
            &&& ij.0 < i || (ij.0 == i && ij.1 <= j)
        }),
{
    lemma_first_reduction_wins(g, window, 0, i, j);
    lemma_first_reduction_sound(g, window, 0);
}

proof fn lemma_first_reduction_sound(g: GrammarV, window: Seq<Tree>, i0: int)
    requires
        0 <= i0,
    ensures
        match first_reduction_from(g, window, i0) {
            Some(ij) => {
                &&& i0 <= ij.0 < g.nonterminals.len()
                &&& 0 <= ij.1 < g.nonterminals[ij.0].cases.len()
                &&& case_matches(g.nonterminals[ij.0].cases[ij.1], window)
            },
            None => true,
        },
    decreases g.nonterminals.len() - i0,
{
    if i0 < g.nonterminals.len() {
        lemma_first_case_sound(g.nonterminals[i0].cases, window, 0);
        if first_case_from(g.nonterminals[i0].cases, window, 0) is None {
            lemma_first_reduction_sound(g, window, i0 + 1);
        }
    }
}

/// A parse failure. The engine either came to rest without acceptance —
/// the error then carries the unconsumed leftover symbols, stash first,
/// for diagnostics — or its step budget ran out before it came to rest.
#[derive(Debug, PartialEq)]
pub enum ParseError {
    Unreduced { leftover: Vec<Symbol> },
    OutOfSteps,
}

pub struct ParserV {
    pub grammar: GrammarV,
    pub symbols: Seq<Tree>,
}

/// A parser over one symbol sequence: the grammar whose oracle drives
/// reductions, and the queue of remaining symbols, front first.
pub struct Parser {
    grammar: Grammar,
    symbols: VecDeque<Symbol>,
}

impl View for Parser {
    type V = ParserV;

    closed spec fn view(&self) -> ParserV {
        ParserV { grammar: self.grammar@, symbols: tree_seq(self.symbols@) }
    }
}

impl Parser {
    /// Builds a parser over the grammar and the token sequence, each
    /// token promoted 1:1 into a leaf symbol.
    pub fn new(tokens: Vec<Token>, grammar: Grammar) -> (r: Parser)
        ensures
            r@.grammar == grammar@,
            r@.symbols == Seq::new(tokens@.len(), |i: int| Tree::Leaf(tokens@[i])),
    {
        let n = tokens.len();
        let mut symbols: VecDeque<Symbol> = VecDeque::new();
        for idx in 0..n
            invariant
                n == tokens@.len(),
                symbols@.len() == idx,
                forall|i: int| 0 <= i < idx ==> #[trigger] symbols@[i] == Symbol::Leaf(tokens@[i]),
            decreases n - idx,
        {
            symbols.push_back(Symbol::Leaf(tokens[idx]));
        }
        proof {
            assert(tree_seq(symbols@) =~= Seq::new(tokens@.len(), |i: int| Tree::Leaf(tokens@[i])));
        }
        Parser { grammar, symbols }
    }

    /// Runs the shift/reduce engine to rest and pops the root. The
    /// result is exactly what the step machine yields from the initial
    /// state: `Ok` with the sole remaining symbol iff the engine comes
    /// to rest with one symbol in the queue and an empty stash; an
    /// `Unreduced` error, carrying the leftover symbols, iff it comes to
    /// rest any other way — in particular on empty input. A grammar
    /// whose reductions cycle never comes to rest, so `max_steps` bounds
    /// the engine; `OutOfSteps` reports that the bound was hit first.
    pub fn parse(&mut self, max_steps: usize) -> (r: Result<Symbol, ParseError>)
        ensures
            final(self)@.grammar == old(self)@.grammar,
            ({
                let g = old(self)@.grammar;
                let init = State { q: old(self)@.symbols, s: Seq::empty() };
                match r {
                    Ok(root) => exists|n: nat| {
                        let fin = #[trigger] run(g, init, n);
                        is_final(fin) && fin.q.len() == 1 && fin.s.len() == 0 && root.tree()
                            == fin.q[0]
                    },
                    Err(e) => match e {
                        ParseError::Unreduced { leftover } => exists|n: nat| {
                            let fin = #[trigger] run(g, init, n);
                            is_final(fin) && !(fin.q.len() == 1 && fin.s.len() == 0) && tree_seq(
                                leftover@,
                            ) == fin.s + fin.q
                        },
                        ParseError::OutOfSteps => !is_final(run(g, init, max_steps as nat)),
                    },
                }
            }),
            old(self)@.symbols.len() == 0 ==> r is Err && r->Err_0 is Unreduced,
            old(self)@.symbols.len() == 1 ==> (r matches Ok(root) && root.tree() == old(
                self,
            )@.symbols[0]),
    {
        let ghost g = self@.grammar;
        let ghost init = State { q: self@.symbols, s: Seq::empty() };
        let mut stack: Vec<Symbol> = Vec::new();
        let mut steps: usize = 0;
        proof {
            assert(tree_seq(stack@) =~= Seq::<Tree>::empty());
            assert(init =~= State { q: tree_seq(self.symbols@), s: tree_seq(stack@) });
        }
        while self.symbols.len() > 1 && steps < max_steps
            invariant
                g == old(self)@.grammar,
                init == (State { q: old(self)@.symbols, s: Seq::<Tree>::empty() }),
                self@.grammar == g,
                steps <= max_steps,
                run(g, init, steps as nat) == (State {
                    q: tree_seq(self.symbols@),
                    s: tree_seq(stack@),
                }),
            decreases max_steps - steps,
        {
            let ghost q_pre = tree_seq(self.symbols@);
            let ghost s_pre = tree_seq(stack@);
            let ghost pre = State { q: q_pre, s: s_pre };
            match find_reduction(&self.grammar, &self.symbols) {
                Some((i, j)) => {
                    let n_parts = self.grammar.nonterminals[i].cases[j].parts.len();
                    proof {
                        assert(find_reduction_spec(g, q_pre) == Some((i as int, j as int)));
                        assert(case_matches(g.nonterminals[i as int].cases[j as int], q_pre));
                        assert(g.nonterminals[i as int].cases[j as int].parts.len()
                            == n_parts as int);
                        assert(n_parts <= self.symbols@.len());
                    }
                    let mut children: Vec<Symbol> = Vec::new();
                    let mut k: usize = 0;
                    while k < n_parts
                        invariant
                            self@.grammar == g,
                            k <= n_parts,
                            children@.len() == k,
                            stack@.len() == s_pre.len(),
                            tree_seq(stack@) == s_pre,
                            n_parts <= q_pre.len(),
                            q_pre == tree_seq(children@) + tree_seq(self.symbols@),
                        decreases n_parts - k,
                    {
                        let ghost symbols_pre = self.symbols@;
                        let ghost children_pre = children@;
                        let sym = self.symbols.pop_front().unwrap();
                        children.push(sym);
                        proof {
                            assert(tree_seq(children@) =~= tree_seq(children_pre).push(sym.tree()));
                            assert(tree_seq(symbols_pre) =~= seq![sym.tree()] + tree_seq(
                                self.symbols@,
                            ));
                            assert(tree_seq(children@) + tree_seq(self.symbols@) =~= tree_seq(
                                children_pre,
                            ) + tree_seq(symbols_pre));
                        }
                        k = k + 1;
                    }
                    proof {
                        lemma_node_tree(i, j, children);
                        assert(tree_seq(children@) =~= q_pre.subrange(0, n_parts as int));
                        assert(tree_seq(self.symbols@) =~= q_pre.subrange(
                            n_parts as int,
                            q_pre.len() as int,
                        ));
                    }
                    let node = Symbol::Node { nt: i, case: j, children };
                    let ghost target_q = s_pre + seq![node.tree()] + q_pre.subrange(
                        n_parts as int,
                        q_pre.len() as int,
                    );
                    let ghost symbols_mid = self.symbols@;
                    self.symbols.push_front(node);
                    proof {
                        assert(tree_seq(self.symbols@) =~= seq![node.tree()] + tree_seq(
                            symbols_mid,
                        ));
                        assert(tree_seq(stack@) + tree_seq(self.symbols@) =~= target_q);
                    }
                    while stack.len() > 0
                        invariant
                            self@.grammar == g,
                            tree_seq(stack@) + tree_seq(self.symbols@) == target_q,
                        decreases stack@.len(),
                    {
                        let ghost stack_pre = stack@;
                        let ghost symbols_pre = self.symbols@;
                        let top = stack.pop().unwrap();
                        self.symbols.push_front(top);
                        proof {
                            assert(tree_seq(stack_pre) =~= tree_seq(stack@).push(top.tree()));
                            assert(tree_seq(self.symbols@) =~= seq![top.tree()] + tree_seq(
                                symbols_pre,
                            ));
                            assert(tree_seq(stack@) + tree_seq(self.symbols@) =~= target_q);
                        }
                    }
                    steps = steps + 1;
                    proof {
                        lemma_run_succ(g, init, (steps - 1) as nat);
                        assert(tree_seq(stack@) =~= Seq::<Tree>::empty());
                        assert(step(g, pre) =~= State {
                            q: tree_seq(self.symbols@),
                            s: tree_seq(stack@),
                        });
                    }
                },
                None => {
                    let ghost symbols_pre = self.symbols@;
                    let front = self.symbols.pop_front().unwrap();
                    let ghost stack_pre = stack@;
                    stack.push(front);
                    steps = steps + 1;
                    proof {
                        lemma_run_succ(g, init, (steps - 1) as nat);
                        assert(front.tree() == q_pre[0]);
                        assert(tree_seq(self.symbols@) =~= tree_seq(symbols_pre).subrange(
                            1,
                            symbols_pre.len() as int,
                        ));
                        assert(tree_seq(stack@) =~= tree_seq(stack_pre).push(front.tree()));
                        assert(step(g, pre) =~= State {
                            q: tree_seq(self.symbols@),
                            s: tree_seq(stack@),
                        });
                    }
                },
            }
        }
        if self.symbols.len() > 1 {
            proof {
                assert(steps == max_steps);
                assert(!is_final(run(g, init, max_steps as nat)));
            }
            return Err(ParseError::OutOfSteps);
        }
        let ghost fin = State { q: tree_seq(self.symbols@), s: tree_seq(stack@) };
        proof {
            assert(is_final(run(g, init, steps as nat)));
        }
        if stack.len() == 0 {
            match self.symbols.pop_front() {
                Some(root) => {
                    proof {
                        assert(fin.q.len() == 1 && fin.s.len() == 0);
                        assert(root.tree() == fin.q[0]);
                    }
                    Ok(root)
                },
                None => {
                    let leftover: Vec<Symbol> = Vec::new();
                    proof {
                        assert(tree_seq(leftover@) =~= fin.s + fin.q);
                    }
                    Err(ParseError::Unreduced { leftover })
                },
            }
        } else {
            let mut leftover = stack;
            let ghost leftover_pre = leftover@;
            match self.symbols.pop_front() {
                Some(sym) => {
                    leftover.push(sym);
                    proof {
                        assert(tree_seq(leftover@) =~= tree_seq(leftover_pre).push(sym.tree()));
                        assert(tree_seq(leftover@) =~= fin.s + fin.q);
                    }
                },
                None => {
                    proof {
                        assert(tree_seq(leftover@) =~= fin.s + fin.q);
                    }
                },
            }
            Err(ParseError::Unreduced { leftover })
        }
    }
}

} // verus!
