use parser_generator::grammar::{
    Grammar, GrammarCase, GrammarPart, NonterminalDef, SymbolKind, TokenDef,
};
use parser_generator::lexer::{Lexer, Token};
use parser_generator::parser::{ParseError, Parser, Symbol};

fn tok(name: &str, pattern: &str) -> TokenDef {
    TokenDef { name: name.to_string(), pattern: pattern.to_string() }
}

fn part(kind: SymbolKind, name: &str) -> GrammarPart {
    GrammarPart { kind, name: name.to_string() }
}

fn case(name: &str, parts: Vec<GrammarPart>) -> GrammarCase {
    GrammarCase { name: name.to_string(), parts }
}

fn nt(name: &str, cases: Vec<GrammarCase>) -> NonterminalDef {
    NonterminalDef { name: name.to_string(), cases }
}

fn leaf(kind: usize, start: usize, end: usize) -> Symbol {
    Symbol::Leaf(Token { kind, start, end })
}

fn node(nt: usize, case: usize, children: Vec<Symbol>) -> Symbol {
    Symbol::Node { nt, case, children }
}

const LPAREN: usize = 0;
const RPAREN: usize = 1;
const FLOAT: usize = 2;
const INT: usize = 3;
const OP_ADD: usize = 4;
const OP_SUB: usize = 5;

const EXPR: usize = 0;
const BIN_OP: usize = 1;
const NUM: usize = 2;

#[allow(non_snake_case)]
fn T(kind: usize) -> SymbolKind {
    SymbolKind::Terminal(kind)
}

#[allow(non_snake_case)]
fn N(kind: usize) -> SymbolKind {
    SymbolKind::Nonterminal(kind)
}

/// Parenthesized arithmetic: Expr = Num | Paren(LParen Expr RParen)
/// | BinOp(Expr BinOp Expr); BinOp = Add | Sub; Num = Int | Float.
fn arith_grammar() -> Grammar {
    Grammar {
        tokens: vec![
            tok("LParen", r"[(]"),
            tok("RParen", r"[)]"),
            tok("Float", r"[+-]?[0-9][0-9_]*[.][0-9]+"),
            tok("Int", r"[+-]?[0-9][0-9_]*"),
            tok("OpAdd", r"[+]"),
            tok("OpSub", r"[-]"),
        ],
        nonterminals: vec![
            nt(
                "Expr",
                vec![
                    case("Num", vec![part(N(NUM), "num")]),
                    case(
                        "Paren",
                        vec![
                            part(T(LPAREN), "lparen"),
                            part(N(EXPR), "inner"),
                            part(T(RPAREN), "rparen"),
                        ],
                    ),
                    case(
                        "BinOp",
                        vec![part(N(EXPR), "lhs"), part(N(BIN_OP), "op"), part(N(EXPR), "rhs")],
                    ),
                ],
            ),
            nt(
                "BinOp",
                vec![
                    case("Add", vec![part(T(OP_ADD), "op")]),
                    case("Sub", vec![part(T(OP_SUB), "op")]),
                ],
            ),
            nt(
                "Num",
                vec![
                    case("Int", vec![part(T(INT), "value")]),
                    case("Float", vec![part(T(FLOAT), "value")]),
                ],
            ),
        ],
    }
}

fn lex(grammar: &Grammar, text: &str) -> Vec<Token> {
    Lexer::new(text.as_bytes().to_vec(), grammar).unwrap().tokenize()
}

/// Structural comparison that ignores spans: same case tags, same child
/// arrangement, same token kinds.
fn same_shape(a: &Symbol, b: &Symbol) -> bool {
    match (a, b) {
        (Symbol::Leaf(ta), Symbol::Leaf(tb)) => ta.kind == tb.kind,
        (
            Symbol::Node { nt: na, case: ca, children: cha },
            Symbol::Node { nt: nb, case: cb, children: chb },
        ) => {
            na == nb
                && ca == cb
                && cha.len() == chb.len()
                && cha.iter().zip(chb.iter()).all(|(x, y)| same_shape(x, y))
        }
        _ => false,
    }
}

#[test]
fn lib_parse() {
    let grammar = arith_grammar();
    let tokens = lex(&grammar, "(123 + 2_222_333.6 - 0.25)");
    let mut parser = Parser::new(tokens, grammar);
    println!("{:#?}", parser.parse(10_000));
}

#[test]
fn parser_parse() {
    let grammar = arith_grammar();
    let tokens = lex(&grammar, "(123 + 2_222_333.6 - 0.25)");
    let mut parser = Parser::new(tokens, grammar);
    println!("{:#?}", parser.parse(10_000));
}

#[test]
fn s_expressions_parse() {
    let grammar = Grammar {
        tokens: vec![
            tok("LParen", r"[(]"),
            tok("RParen", r"[)]"),
            tok("Float", r"[-+]?[0-9]+[.][0-9]+"),
            tok("Int", r"[-+]?[0-9]+"),
            tok("Str", "\".*?[^\\\\]\"|\"\""),
        ],
        nonterminals: vec![
            nt(
                "Expr",
                vec![
                    case("List", vec![part(N(3), "list")]),
                    case("Literal", vec![part(N(1), "literal")]),
                ],
            ),
            nt(
                "Literal",
                vec![
                    case("String", vec![part(T(4), "string")]),
                    case("Num", vec![part(N(2), "num")]),
                ],
            ),
            nt(
                "Num",
                vec![
                    case("Float", vec![part(T(2), "value")]),
                    case("Int", vec![part(T(3), "value")]),
                ],
            ),
            nt(
                "List",
                vec![case("List", vec![part(N(4), "content"), part(T(1), "rparen")])],
            ),
            nt(
                "ListContent",
                vec![
                    case("Node", vec![part(N(4), "content"), part(N(0), "next_expr")]),
                    case("Leaf", vec![part(T(0), "lparen")]),
                ],
            ),
        ],
    };
    let text = "(1 2.5 \"three\" (4 5))";
    let tokens = lex(&grammar, text);
    let mut parser = Parser::new(tokens, grammar);
    let _symbol = parser.parse(10_000).unwrap();
}

#[test]
fn spans_increasing_and_non_overlapping() {
    let grammar = arith_grammar();
    let tokens = lex(&grammar, "(123 + 2_222_333.6 - 0.25)");
    let expected = vec![
        Token { kind: LPAREN, start: 0, end: 1 },
        Token { kind: INT, start: 1, end: 4 },
        Token { kind: OP_ADD, start: 5, end: 6 },
        Token { kind: FLOAT, start: 7, end: 18 },
        Token { kind: OP_SUB, start: 19, end: 20 },
        Token { kind: FLOAT, start: 21, end: 25 },
        Token { kind: RPAREN, start: 25, end: 26 },
    ];
    assert_eq!(tokens, expected);
    for pair in tokens.windows(2) {
        assert!(pair[0].start < pair[0].end);
        assert!(pair[0].end <= pair[1].start);
        assert!(pair[1].start < pair[1].end);
    }
}

#[test]
fn cursor_monotone_across_pulls() {
    let grammar = arith_grammar();
    let mut lexer = Lexer::new("(1 + 2)".as_bytes().to_vec(), &grammar).unwrap();
    let mut previous_end: usize = 0;
    while let Some(token) = lexer.next() {
        assert!(previous_end <= token.start);
        assert!(token.start <= token.end);
        previous_end = token.end;
    }
}

#[test]
fn determinism_identical_trees() {
    let text = "(123 + 2_222_333.6 - 0.25)";
    let grammar_a = arith_grammar();
    let grammar_b = arith_grammar();
    let tree_a = Parser::new(lex(&grammar_a, text), grammar_a).parse(10_000).unwrap();
    let tree_b = Parser::new(lex(&grammar_b, text), grammar_b).parse(10_000).unwrap();
    assert_eq!(tree_a, tree_b);
}

#[test]
fn declaration_order_decides() {
    // Two grammars differing only in the order of two overlapping cases
    // for S, over the ambiguous input [Int, Int].
    let tokens_decl = vec![tok("Int", r"[0-9]+")];
    let pair_first = Grammar {
        tokens: tokens_decl.clone(),
        nonterminals: vec![nt(
            "S",
            vec![
                case("Pair", vec![part(T(0), "x"), part(T(0), "y")]),
                case("Single", vec![part(T(0), "x")]),
            ],
        )],
    };
    let single_first = Grammar {
        tokens: tokens_decl,
        nonterminals: vec![nt(
            "S",
            vec![
                case("Single", vec![part(T(0), "x")]),
                case("Pair", vec![part(T(0), "x"), part(T(0), "y")]),
            ],
        )],
    };
    let input = vec![Token { kind: 0, start: 0, end: 1 }, Token { kind: 0, start: 2, end: 3 }];

    let root = Parser::new(input.clone(), pair_first).parse(10_000).unwrap();
    assert_eq!(root, node(0, 0, vec![leaf(0, 0, 1), leaf(0, 2, 3)]));

    // With Single declared first, the pair case never fires: the first
    // Int is reduced alone and the parse cannot finish.
    let result = Parser::new(input, single_first).parse(10_000);
    assert!(matches!(result, Err(ParseError::Unreduced { .. })));
}

#[test]
fn silent_skip_of_unmatched_text() {
    let grammar = arith_grammar();
    let with_junk = lex(&grammar, "(1 + @2)");
    let without = lex(&grammar, "(1 + 2)");
    let kinds_with: Vec<usize> = with_junk.iter().map(|t| t.kind).collect();
    let kinds_without: Vec<usize> = without.iter().map(|t| t.kind).collect();
    assert_eq!(kinds_with, vec![LPAREN, INT, OP_ADD, INT, RPAREN]);
    assert_eq!(kinds_with, kinds_without);
    let texts: Vec<&str> = with_junk.iter().map(|t| &"(1 + @2)"[t.start..t.end]).collect();
    assert_eq!(texts, vec!["(", "1", "+", "2", ")"]);

    let root_with = Parser::new(with_junk, arith_grammar()).parse(10_000).unwrap();
    let root_without = Parser::new(without, arith_grammar()).parse(10_000).unwrap();
    assert!(same_shape(&root_with, &root_without));
}

#[test]
fn unmatched_trailing_text_is_discarded() {
    let grammar = arith_grammar();
    let tokens = lex(&grammar, "12@@@");
    assert_eq!(tokens, vec![Token { kind: INT, start: 0, end: 2 }]);
}

#[test]
fn parenthesized_arithmetic_tree() {
    let grammar = arith_grammar();
    let tokens = lex(&grammar, "(123 + 2_222_333.6 - 0.25)");
    let root = Parser::new(tokens, grammar).parse(10_000).unwrap();
    // One root Expr wrapping a Paren whose inner Expr is a left-associated
    // BinOp chain over 123, 2_222_333.6 and 0.25.
    let num_123 = node(EXPR, 0, vec![node(NUM, 0, vec![leaf(INT, 1, 4)])]);
    let num_big = node(EXPR, 0, vec![node(NUM, 1, vec![leaf(FLOAT, 7, 18)])]);
    let num_quarter = node(EXPR, 0, vec![node(NUM, 1, vec![leaf(FLOAT, 21, 25)])]);
    let add = node(BIN_OP, 0, vec![leaf(OP_ADD, 5, 6)]);
    let sub = node(BIN_OP, 1, vec![leaf(OP_SUB, 19, 20)]);
    let sum = node(EXPR, 2, vec![num_123, add, num_big]);
    let chain = node(EXPR, 2, vec![sum, sub, num_quarter]);
    let expected = node(EXPR, 1, vec![leaf(LPAREN, 0, 1), chain, leaf(RPAREN, 25, 26)]);
    assert_eq!(root, expected);
}

#[test]
fn single_token_input() {
    let grammar = arith_grammar();
    let tokens = lex(&grammar, "7");
    assert_eq!(tokens, vec![Token { kind: INT, start: 0, end: 1 }]);
    // The engine only runs while more than one symbol remains, so the
    // sole token is returned as the root without any reduction.
    let root = Parser::new(tokens, grammar).parse(10_000).unwrap();
    assert_eq!(root, leaf(INT, 0, 1));
}

#[test]
fn empty_input_fails() {
    let grammar = arith_grammar();
    let tokens = lex(&grammar, "");
    assert_eq!(tokens, Vec::new());
    let result = Parser::new(tokens, grammar).parse(10_000);
    assert_eq!(result, Err(ParseError::Unreduced { leftover: Vec::new() }));
}

#[test]
fn malformed_pattern_is_fatal() {
    let grammar = Grammar {
        tokens: vec![tok("Broken", r"(")],
        nonterminals: Vec::new(),
    };
    assert!(Lexer::new("anything".as_bytes().to_vec(), &grammar).is_err());
}

#[test]
fn error_carries_leftovers() {
    let grammar = arith_grammar();
    let tokens = lex(&grammar, "1 1");
    let result = Parser::new(tokens, grammar).parse(10_000);
    match result {
        Err(ParseError::Unreduced { leftover }) => {
            assert_eq!(leftover.len(), 2);
            // The first Int was reduced up to an Expr before the engine
            // gave up; the second is left as a bare token.
            assert!(matches!(leftover[0], Symbol::Node { nt: EXPR, .. }));
            assert_eq!(leftover[1], leaf(INT, 2, 3));
        }
        other => panic!("expected leftover symbols, got {:?}", other),
    }
}

#[test]
fn cyclic_grammar_runs_out_of_steps() {
    // B rewrites an Int, A wraps a B, and A rewrites itself forever.
    let grammar = Grammar {
        tokens: vec![tok("Int", r"[0-9]+")],
        nonterminals: vec![
            nt(
                "A",
                vec![
                    case("Wrap", vec![part(N(1), "inner")]),
                    case("Again", vec![part(N(0), "inner")]),
                ],
            ),
            nt("B", vec![case("FromInt", vec![part(T(0), "value")])]),
        ],
    };
    let input = vec![Token { kind: 0, start: 0, end: 1 }, Token { kind: 0, start: 2, end: 3 }];
    let result = Parser::new(input, grammar).parse(100);
    assert_eq!(result, Err(ParseError::OutOfSteps));
}
