use refal::compiler::{check_module, compile, compile_function, compile_module, qualify};
use refal::compiler::{compile_pattern, decompose_holes, Hole};
use refal::data::{Command, Error, Function, Object, Program, RefalModule, Sentence};
use refal::globalize::globalize_module;
use refal::lexer::{convert, tokens, InnerToken, Token};
use refal::parser::parse_input;
use refal::runtime;
use refal::runtime::{connected, flatten, init_view, link_nodes, pair_nodes, unlink_next};
use refal::runtime::unlink_prev;
use refal::runtime::{Chain, Node};
use refal::vm::{eval, eval_main, EvalError};

fn symbol(text: &str) -> runtime::Object {
    runtime::Object::Symbol(String::from(text))
}

fn symbols(texts: &[&str]) -> Vec<runtime::Object> {
    texts.iter().map(|text| symbol(text)).collect()
}

fn run(source: &str, goal: &str) -> Result<Vec<runtime::Object>, EvalError> {
    let defs = compile(source).unwrap();
    eval_main(&defs, goal)
}

/// Every neighbour names its neighbour back, and every bracket has a mate
/// of its kind that names it back.
fn assert_chain_invariants(chain: &Chain) {
    for (id, node) in chain.nodes.iter().enumerate() {
        if let Some(next) = node.next() {
            assert_eq!(chain.nodes[next].prev(), Some(id));
        }
        if let Some(prev) = node.prev() {
            assert_eq!(chain.nodes[prev].next(), Some(id));
        }
        match node.object {
            runtime::Object::StrBracketL => {
                let twin = node.twin().unwrap();
                assert_eq!(chain.nodes[twin].twin(), Some(id));
                assert_eq!(chain.nodes[twin].object, runtime::Object::StrBracketR);
            }
            runtime::Object::StrBracketR => {
                let twin = node.twin().unwrap();
                assert_eq!(chain.nodes[twin].twin(), Some(id));
                assert_eq!(chain.nodes[twin].object, runtime::Object::StrBracketL);
            }
            runtime::Object::FunBracketL => {
                let twin = node.twin().unwrap();
                assert_eq!(chain.nodes[twin].twin(), Some(id));
                assert_eq!(chain.nodes[twin].object, runtime::Object::FunBracketR);
            }
            runtime::Object::FunBracketR => {
                let twin = node.twin().unwrap();
                assert_eq!(chain.nodes[twin].twin(), Some(id));
                assert_eq!(chain.nodes[twin].object, runtime::Object::FunBracketL);
            }
            _ => assert_eq!(node.twin(), None),
        }
    }
}

const SAMPLE: &str = r#"
$MODULE S;

Palindrome {
    = True;
    $s.1 = True;
    $s.1 $e.1 $s.1 = <Palindrome $e.1>;
    $e.1 = False;
}

ChangePlusToMinus {
    '+' $e.1 = '-' <ChangePlusToMinus $e.1>;
    $s.1 $e.1 = $s.1 <ChangePlusToMinus $e.1>;
    = ;
}

RepeatedInBrackets {
     = True;
   ($e.1 $e.1) ($e.2 $e.2) = True;
   $e.1 = False;
}

Double {
    $e.1 = ($e.1) $e.1 ($e.1);
}

Twice {
    $s.1 $t.2 = $t.2 $s.1 $s.1 $t.2;
}

Empty { = ; }

GoPalindrome { = <Palindrome 'a' 'b' 'a'>; }
GoChange { = <ChangePlusToMinus '+' '12' '-' '123'>; }
GoRepeated { = <RepeatedInBrackets ('a' 'a') ('b' 'b')>; }
GoDouble { = <Double 'x' ('y' 'z')>; }
GoTwice { = <Twice 'p' ('q')>; }
GoEmpty { = <Empty>; }
GoNoMatch { = <Twice>; }
GoUnknown { = <Nowhere 'a'>; }
Forever { $e.1 = <Forever $e.1 'x'>; }
"#;

#[test]
fn scenario_palindrome() {
    assert_eq!(run(SAMPLE, "S.GoPalindrome"), Ok(symbols(&["True"])));
}

#[test]
fn scenario_change_plus_to_minus() {
    assert_eq!(
        run(SAMPLE, "S.GoChange"),
        Ok(symbols(&["-", "12", "-", "123"]))
    );
}

#[test]
fn scenario_repeated_in_brackets() {
    assert_eq!(run(SAMPLE, "S.GoRepeated"), Ok(symbols(&["True"])));
}

#[test]
fn rewrite_moves_first_use_and_copies_later_uses() {
    let expected = vec![
        runtime::Object::StrBracketL,
        symbol("x"),
        runtime::Object::StrBracketL,
        symbol("y"),
        symbol("z"),
        runtime::Object::StrBracketR,
        runtime::Object::StrBracketR,
        symbol("x"),
        runtime::Object::StrBracketL,
        symbol("y"),
        symbol("z"),
        runtime::Object::StrBracketR,
        runtime::Object::StrBracketL,
        symbol("x"),
        runtime::Object::StrBracketL,
        symbol("y"),
        symbol("z"),
        runtime::Object::StrBracketR,
        runtime::Object::StrBracketR,
    ];
    assert_eq!(run(SAMPLE, "S.GoDouble"), Ok(expected));
}

#[test]
fn rewrite_with_symbol_and_term_variables() {
    let expected = vec![
        runtime::Object::StrBracketL,
        symbol("q"),
        runtime::Object::StrBracketR,
        symbol("p"),
        symbol("p"),
        runtime::Object::StrBracketL,
        symbol("q"),
        runtime::Object::StrBracketR,
    ];
    assert_eq!(run(SAMPLE, "S.GoTwice"), Ok(expected));
}

#[test]
fn empty_rewrite_of_empty_argument_is_empty() {
    assert_eq!(run(SAMPLE, "S.Empty"), Ok(vec![]));
    assert_eq!(run(SAMPLE, "S.GoEmpty"), Ok(vec![]));
}

#[test]
fn evaluation_is_deterministic() {
    let first = run(SAMPLE, "S.GoDouble");
    let second = run(SAMPLE, "S.GoDouble");
    assert_eq!(first, second);
    let defs = compile(SAMPLE).unwrap();
    assert_eq!(eval_main(&defs, "S.GoChange"), eval_main(&defs, "S.GoChange"));
}

#[test]
fn chain_invariants_hold_at_the_start() {
    let (dots, chain) = init_view("S.GoDouble");
    assert_eq!(dots, vec![3]);
    assert_chain_invariants(&chain);
}

#[test]
fn chain_invariants_hold_after_evaluation() {
    let defs = compile(SAMPLE).unwrap();
    for goal in ["S.GoDouble", "S.GoTwice", "S.GoChange", "S.GoRepeated", "S.GoEmpty"] {
        let (dots, chain) = init_view(goal);
        let chain = eval(&defs, dots, chain, 100_000).unwrap();
        assert_chain_invariants(&chain);
        assert_eq!(Ok(flatten(&chain)), eval_main(&defs, goal));
    }
}

#[test]
fn chain_invariants_hold_after_every_step_bound() {
    let defs = compile(SAMPLE).unwrap();
    for limit in 0..40 {
        let (dots, chain) = init_view("S.GoChange");
        match eval(&defs, dots, chain, limit) {
            Ok(chain) => assert_chain_invariants(&chain),
            Err(error) => assert_eq!(error, EvalError::StepLimit),
        }
    }
}

fn copying(commands: Vec<Command>) -> Vec<Command> {
    commands
        .into_iter()
        .map(|command| match command {
            Command::TransplantObject(slot) => Command::CopySymbol(slot),
            Command::TransplantExpr(slot) => Command::CopyExpr(slot),
            other => other,
        })
        .collect()
}

#[test]
fn copy_in_place_of_transplant_gives_the_same_output() {
    let module = parse_input(SAMPLE).unwrap();
    assert!(check_module(&module));
    let moving = compile_module(&module);
    let mut copied = Program::new();
    let mut replaced = 0;
    for function in &module.functions {
        let commands = compile_function(&module.name, function);
        let changed = copying(compile_function(&module.name, function));
        if changed != commands {
            replaced += 1;
        }
        copied.insert(qualify(&module.name, &function.name), changed);
    }
    assert!(replaced > 0);
    for goal in [
        "S.GoPalindrome",
        "S.GoChange",
        "S.GoRepeated",
        "S.GoDouble",
        "S.GoTwice",
        "S.GoEmpty",
    ] {
        let with_moves = eval_main(&moving, goal);
        assert!(with_moves.is_ok());
        assert_eq!(with_moves, eval_main(&copied, goal));
    }
}

const ORDER_AB: &str = "$MODULE O; F { 'a' $e.1 = First; $e.1 'b' = Second; $e.1 = Other; } \
    Both { = <F 'a' 'b'>; } OnlyFirst { = <F 'a' 'c'>; } OnlySecond { = <F 'c' 'b'>; } \
    Neither { = <F 'c'>; }";

const ORDER_BA: &str = "$MODULE O; F { $e.1 'b' = Second; 'a' $e.1 = First; $e.1 = Other; } \
    Both { = <F 'a' 'b'>; } OnlyFirst { = <F 'a' 'c'>; } OnlySecond { = <F 'c' 'b'>; } \
    Neither { = <F 'c'>; }";

#[test]
fn first_matching_sentence_wins() {
    assert_eq!(run(ORDER_AB, "O.Both"), Ok(symbols(&["First"])));
    assert_eq!(run(ORDER_BA, "O.Both"), Ok(symbols(&["Second"])));
}

#[test]
fn swapping_sentences_matters_only_where_both_match() {
    for goal in ["O.OnlyFirst", "O.OnlySecond", "O.Neither"] {
        assert_eq!(run(ORDER_AB, goal), run(ORDER_BA, goal));
    }
    assert_eq!(run(ORDER_AB, "O.OnlyFirst"), Ok(symbols(&["First"])));
    assert_eq!(run(ORDER_AB, "O.OnlySecond"), Ok(symbols(&["Second"])));
    assert_eq!(run(ORDER_AB, "O.Neither"), Ok(symbols(&["Other"])));
    assert_ne!(run(ORDER_AB, "O.Both"), run(ORDER_BA, "O.Both"));
}

#[test]
fn open_variable_grows_from_empty_one_term_at_a_time() {
    let source = "$MODULE L; Split { $e.1 $e.2 = ($e.1) ($e.2); } \
        Cut { $e.1 '|' $e.2 = ($e.1) ($e.2); } \
        GoSplit { = <Split 'a' 'b'>; } GoCut { = <Cut ('x' '|') 'y' '|' 'z' '|'>; }";
    assert_eq!(
        run(source, "L.GoSplit"),
        Ok(vec![
            runtime::Object::StrBracketL,
            runtime::Object::StrBracketR,
            runtime::Object::StrBracketL,
            symbol("a"),
            symbol("b"),
            runtime::Object::StrBracketR,
        ])
    );
    assert_eq!(
        run(source, "L.GoCut"),
        Ok(vec![
            runtime::Object::StrBracketL,
            runtime::Object::StrBracketL,
            symbol("x"),
            symbol("|"),
            runtime::Object::StrBracketR,
            symbol("y"),
            runtime::Object::StrBracketR,
            runtime::Object::StrBracketL,
            symbol("z"),
            symbol("|"),
            runtime::Object::StrBracketR,
        ])
    );
}

#[test]
fn nested_calls_are_reduced_inside_out_and_left_to_right() {
    let source = "$MODULE N; A { = 'a'; } B { = 'b'; } Wrap { $e.1 = ($e.1); } \
        Go { = <Wrap <A> <B>> <Wrap <B>>; }";
    assert_eq!(
        run(source, "N.Go"),
        Ok(vec![
            runtime::Object::StrBracketL,
            symbol("a"),
            symbol("b"),
            runtime::Object::StrBracketR,
            runtime::Object::StrBracketL,
            symbol("b"),
            runtime::Object::StrBracketR,
        ])
    );
}

#[test]
fn recognition_impossible_is_reported() {
    assert_eq!(
        run(SAMPLE, "S.GoNoMatch"),
        Err(EvalError::RecognitionImpossible)
    );
}

#[test]
fn undefined_function_is_reported_with_its_name() {
    assert_eq!(
        run(SAMPLE, "S.GoUnknown"),
        Err(EvalError::UndefinedFunction(String::from("S.Nowhere")))
    );
    assert_eq!(
        run(SAMPLE, "Missing"),
        Err(EvalError::UndefinedFunction(String::from("Missing")))
    );
}

#[test]
fn step_limit_is_reported() {
    let defs = compile(SAMPLE).unwrap();
    let (dots, chain) = init_view("S.Forever");
    assert_eq!(
        eval(&defs, dots, chain, 1000).err(),
        Some(EvalError::StepLimit)
    );
}

#[test]
fn instructions_that_do_not_fit_are_an_illegal_state() {
    let mut defs = Program::new();
    defs.insert(String::from("NoEnd"), vec![Command::MatchEmpty]);
    defs.insert(
        String::from("Unpaired"),
        vec![
            Command::MatchEmpty,
            Command::RewriteStart,
            Command::InsertStrBracketL,
            Command::RewriteFinalize,
            Command::MatchStart,
        ],
    );
    defs.insert(
        String::from("BadSlot"),
        vec![Command::MatchSVarLProj(9), Command::MatchEmpty],
    );
    defs.insert(String::from("Stray"), vec![Command::InsertSymbol(String::from("x"))]);
    defs.insert(String::from("None"), vec![]);
    for goal in ["NoEnd", "Unpaired", "Stray", "None"] {
        assert_eq!(eval_main(&defs, goal), Err(EvalError::IllegalState));
    }
    assert_eq!(
        eval_main(&defs, "BadSlot"),
        Err(EvalError::RecognitionImpossible)
    );
}

#[test]
fn lexing_errors() {
    assert_eq!(tokens(" ! ").err(), Some(Error::Lexing));
    assert_eq!(tokens("'open").err(), Some(Error::Lexing));
    assert_eq!(tokens("$x").err(), Some(Error::Lexing));
    assert_eq!(tokens("$e.").err(), Some(Error::Lexing));
    assert_eq!(tokens("/* a * b */").err(), Some(Error::Lexing));
    assert_eq!(tokens("/* open").err(), Some(Error::Lexing));
    assert_eq!(tokens("'a\tb'").err(), Some(Error::Lexing));
}

#[test]
fn skipped_lexemes_are_no_tokens() {
    assert_eq!(convert(InnerToken::Ws), Err(Error::IllegalState));
    assert_eq!(convert(InnerToken::Comment), Err(Error::IllegalState));
    assert_eq!(convert(InnerToken::Error), Err(Error::Lexing));
    assert_eq!(
        convert(InnerToken::QSymbol(String::from("q"))),
        Ok(Token::Symbol(String::from("q")))
    );
}

#[test]
fn tokens_of_a_sentence() {
    assert_eq!(
        tokens("$MODULE M; F { (A-1 $e.x) 'b c' $s.1 $t.9 = <G>; } /* c */"),
        Ok(vec![
            Token::Module,
            Token::Symbol(String::from("M")),
            Token::Semi,
            Token::Symbol(String::from("F")),
            Token::CurlyL,
            Token::ParenL,
            Token::Symbol(String::from("A-1")),
            Token::EVar(String::from("$e.x")),
            Token::ParenR,
            Token::Symbol(String::from("b c")),
            Token::SVar(String::from("$s.1")),
            Token::TVar(String::from("$t.9")),
            Token::Eq,
            Token::AngleL,
            Token::Symbol(String::from("G")),
            Token::AngleR,
            Token::Semi,
            Token::CurlyR,
        ])
    );
    assert_eq!(tokens(""), Ok(vec![]));
    assert_eq!(
        tokens("$e.1a$MODULEx"),
        Ok(vec![
            Token::EVar(String::from("$e.1")),
            Token::Symbol(String::from("a")),
            Token::Module,
            Token::Symbol(String::from("x")),
        ])
    );
}

#[test]
fn parsing_a_module() {
    let module = parse_input("$MODULE M; F { = ; $e.1 (A) = <G $e.1>; } G { }").unwrap();
    assert_eq!(
        module,
        RefalModule {
            name: String::from("M"),
            functions: vec![
                Function {
                    name: String::from("F"),
                    sentences: vec![
                        Sentence { pattern: vec![], rewrite: vec![] },
                        Sentence {
                            pattern: vec![
                                Object::EVar(String::from("$e.1")),
                                Object::StrBracketL,
                                Object::Symbol(String::from("A")),
                                Object::StrBracketR,
                            ],
                            rewrite: vec![
                                Object::FunBracketL,
                                Object::Symbol(String::from("G")),
                                Object::EVar(String::from("$e.1")),
                                Object::FunBracketR,
                            ],
                        },
                    ],
                },
                Function { name: String::from("G"), sentences: vec![] },
            ],
        }
    );
}

#[test]
fn parsing_errors() {
    for text in [
        "",
        "M;",
        "$MODULE ;",
        "$MODULE M",
        "$MODULE M; F",
        "$MODULE M; F { = ",
        "$MODULE M; F { A ; }",
        "$MODULE M; F { = ; ",
        "$MODULE M; { = ; }",
        "$MODULE M; F { = ; } }",
        "$MODULE M; F { = ! ; }",
    ] {
        assert_eq!(parse_input(text).err(), Some(Error::Parsing));
        assert_eq!(compile(text).err(), Some(Error::Parsing));
    }
}

#[test]
fn modules_that_cannot_be_compiled_are_parsing_errors() {
    for text in [
        "$MODULE M; F { ( = ; }",
        "$MODULE M; F { ) ( = ; }",
        "$MODULE M; F { <A> = ; }",
        "$MODULE M; F { A = $e.1; }",
        "$MODULE M; F { $s.1 = $s.1 $s.2; }",
    ] {
        let module = parse_input(text).unwrap();
        assert!(!check_module(&module));
        assert_eq!(compile(text).err(), Some(Error::Parsing));
    }
    let module = parse_input("$MODULE M; F { ($e.1) $s.2 = $s.2 ) $e.1 ( ; }").unwrap();
    assert!(check_module(&module));
}

#[test]
fn qualified_names() {
    assert_eq!(qualify("M", "F"), "M.F");
    assert_eq!(qualify("M", "Other.F"), "Other.F");
    assert_eq!(qualify("", ""), ".");
}

#[test]
fn later_definition_of_a_name_replaces_the_earlier() {
    let source = "$MODULE D; F { = Early; } F { = Late; }";
    assert_eq!(run(source, "D.F"), Ok(symbols(&["Late"])));
    let source = "$MODULE T; F { = Early; } 'T.F' { = Late; }";
    assert_eq!(run(source, "T.F"), Ok(symbols(&["Late"])));
    let source = "$MODULE T; 'T.F' { = Early; } F { = Late; }";
    assert_eq!(run(source, "T.F"), Ok(symbols(&["Late"])));
}

#[test]
fn globalized_module() {
    let module = parse_input("$MODULE M; F { <A> = <F A> <'N.G' <H>> F; }").unwrap();
    let global = globalize_module(module);
    assert_eq!(global.name, "M");
    assert_eq!(global.functions[0].name, "M.F");
    assert_eq!(
        global.functions[0].sentences[0].pattern,
        vec![
            Object::FunBracketL,
            Object::Symbol(String::from("A")),
            Object::FunBracketR,
        ]
    );
    assert_eq!(
        global.functions[0].sentences[0].rewrite,
        vec![
            Object::FunBracketL,
            Object::Symbol(String::from("M.F")),
            Object::Symbol(String::from("A")),
            Object::FunBracketR,
            Object::FunBracketL,
            Object::Symbol(String::from("N.G")),
            Object::FunBracketL,
            Object::Symbol(String::from("M.H")),
            Object::FunBracketR,
            Object::FunBracketR,
            Object::Symbol(String::from("F")),
        ]
    );
}

#[test]
fn holes_are_divided_into_classes() {
    let module = parse_input(
        "$MODULE T; F { ($e.1 $s.1 $e.2) ($e.3 $s.2 $e.4) ($e.5 $s.1 $e.6) = $s.1 $s.2; }",
    )
    .unwrap();
    let compiled = compile_function("T", &module.functions[0]);
    assert_eq!(
        compiled,
        vec![
            Command::MatchStrBracketL,
            Command::MatchMoveBorderL(4),
            Command::MatchMoveBorderR(2),
            Command::MatchStrBracketL,
            Command::MatchMoveBorderL(6),
            Command::MatchMoveBorderR(2),
            Command::MatchStrBracketL,
            Command::MatchMoveBorderL(8),
            Command::MatchMoveBorderR(2),
            Command::MatchEmpty,
            Command::MatchMoveBorderL(3),
            Command::MatchMoveBorderR(4),
            Command::MatchEVarPrepare,
            Command::MatchEVarLengthen,
            Command::MatchSVarL,
            Command::MatchEVar,
            Command::MatchMoveBorderL(7),
            Command::MatchMoveBorderR(8),
            Command::MatchEVarPrepare,
            Command::MatchEVarLengthen,
            Command::MatchSVarLProj(11),
            Command::MatchEVar,
            Command::ConstrainLengthen(2),
            Command::MatchMoveBorderL(5),
            Command::MatchMoveBorderR(6),
            Command::MatchEVarPrepare,
            Command::MatchEVarLengthen,
            Command::MatchSVarL,
            Command::MatchEVar,
            Command::RewriteStart,
            Command::TransplantObject(11),
            Command::TransplantObject(21),
            Command::RewriteFinalize,
            Command::MatchStart,
        ]
    );
}

#[test]
fn chain_operations() {
    let mut chain = Chain { nodes: vec![], first: 0, last: 0 };
    let first = chain.add(Node::new(runtime::Object::First));
    let open = chain.add(Node::new(runtime::Object::StrBracketL));
    let inner = chain.add(Node::new(symbol("x")));
    let close = chain.add(Node::new(runtime::Object::StrBracketR));
    let last = chain.add(Node::new(runtime::Object::Last));
    chain.last = last;
    assert_eq!((first, open, inner, close, last), (0, 1, 2, 3, 4));
    assert_eq!(chain.node(inner).next(), None);
    link_nodes(&mut chain, first, open);
    link_nodes(&mut chain, open, inner);
    link_nodes(&mut chain, inner, close);
    link_nodes(&mut chain, close, last);
    pair_nodes(&mut chain, open, close);
    assert_eq!(chain.node(open).twin(), Some(close));
    assert_eq!(chain.node(close).twin(), Some(open));
    assert_eq!(chain.node(inner).prev(), Some(open));
    assert_eq!(chain.node(inner).next(), Some(close));
    assert_chain_invariants(&chain);
    assert_eq!(
        flatten(&chain),
        vec![
            runtime::Object::StrBracketL,
            symbol("x"),
            runtime::Object::StrBracketR,
        ]
    );
    link_nodes(&mut chain, open, close);
    assert_eq!(chain.node(inner).prev(), None);
    assert_eq!(chain.node(inner).next(), None);
    assert_chain_invariants(&chain);
    assert_eq!(
        flatten(&chain),
        vec![runtime::Object::StrBracketL, runtime::Object::StrBracketR]
    );
    unlink_next(&mut chain, open);
    assert_eq!(chain.node(open).next(), None);
    assert_eq!(chain.node(close).prev(), None);
    assert_eq!(flatten(&chain), vec![runtime::Object::StrBracketL]);
    unlink_prev(&mut chain, open);
    assert_eq!(chain.node(first).next(), None);
    assert_eq!(flatten(&chain), vec![]);
    assert_chain_invariants(&chain);
}

#[test]
fn symbol_of_an_object() {
    assert_eq!(symbol("s").symbol(), Some(&String::from("s")));
    assert_eq!(runtime::Object::First.symbol(), None);
    assert!(symbol("s").same(&symbol("s")));
    assert!(!symbol("s").same(&symbol("t")));
    assert!(!symbol("s").same(&runtime::Object::Last));
}

#[test]
fn initial_view() {
    let (dots, chain) = init_view("Go");
    assert_eq!(dots, vec![3]);
    assert_eq!(chain.first, 0);
    assert_eq!(chain.last, 4);
    assert_eq!(
        flatten(&chain),
        vec![
            runtime::Object::FunBracketL,
            symbol("Go"),
            runtime::Object::FunBracketR,
        ]
    );
}

#[test]
fn chain_leads_from_the_first_sentinel_to_the_last() {
    let (_, mut chain) = init_view("Go");
    assert!(connected(&chain));
    unlink_next(&mut chain, 2);
    assert!(!connected(&chain));
    link_nodes(&mut chain, 2, 4);
    assert!(connected(&chain));
    assert_eq!(
        flatten(&chain),
        vec![runtime::Object::FunBracketL, symbol("Go")]
    );
}

#[test]
fn every_node_between_the_sentinels_has_both_neighbours() {
    let defs = compile(SAMPLE).unwrap();
    let (dots, chain) = init_view("S.GoTwice");
    let chain = eval(&defs, dots, chain, 100_000).unwrap();
    assert!(connected(&chain));
    let mut cursor = chain.node(chain.first).next().unwrap();
    let mut met = 0;
    while cursor != chain.last {
        let node = chain.node(cursor);
        assert_eq!(chain.node(node.prev().unwrap()).next(), Some(cursor));
        assert_eq!(chain.node(node.next().unwrap()).prev(), Some(cursor));
        cursor = node.next().unwrap();
        met += 1;
    }
    assert_eq!(met, 8);
}

fn var(kind: char, name: &str) -> Object {
    let text = format!("${}.{}", kind, name);
    match kind {
        'e' => Object::EVar(text),
        's' => Object::SVar(text),
        _ => Object::TVar(text),
    }
}

fn hole(start: usize, end: usize) -> Hole {
    Hole { border_l: 0, border_r: 0, start, end }
}

#[test]
fn a_hole_that_shares_no_variable_is_a_class_of_its_own() {
    let pattern = vec![
        var('e', "1"),
        var('s', "1"),
        var('e', "2"),
        var('e', "5"),
        var('s', "2"),
        var('e', "6"),
        var('e', "3"),
        var('s', "1"),
        var('e', "4"),
    ];
    let holes = vec![hole(0, 3), hole(3, 6), hole(6, 9)];
    let nothing = compile_pattern(&vec![]).projected_vars;
    let division = decompose_holes(&pattern, &holes, &nothing);
    assert_eq!(division.n, 2);
    assert_eq!(division.classes, vec![1, 2, 1]);
}

#[test]
fn holes_linked_by_a_chain_of_shared_variables_are_one_class() {
    let pattern = vec![
        var('e', "1"),
        var('s', "a"),
        var('e', "2"),
        var('s', "c"),
        var('e', "3"),
        var('t', "b"),
        var('s', "d"),
        var('s', "a"),
        var('t', "b"),
        var('s', "c"),
        var('e', "9"),
    ];
    let holes = vec![hole(0, 2), hole(2, 4), hole(4, 6), hole(6, 7), hole(7, 9), hole(9, 11)];
    let nothing = compile_pattern(&vec![]).projected_vars;
    let division = decompose_holes(&pattern, &holes, &nothing);
    assert_eq!(division.n, 3);
    assert_eq!(division.classes, vec![1, 2, 1, 3, 1, 2]);
    let projected = compile_pattern(&vec![var('s', "a"), var('s', "c")]).projected_vars;
    let division = decompose_holes(&pattern, &holes, &projected);
    assert_eq!(division.n, 5);
    assert_eq!(division.classes, vec![1, 2, 3, 4, 3, 5]);
}

#[test]
fn no_holes_have_no_class() {
    let nothing = compile_pattern(&vec![]).projected_vars;
    let division = decompose_holes(&vec![], &vec![], &nothing);
    assert_eq!(division.n, 0);
    assert_eq!(division.classes, Vec::<usize>::new());
}

#[test]
fn every_variable_of_a_pattern_has_a_slot_of_its_own() {
    let pattern = vec![
        var('s', "1"),
        var('e', "1"),
        Object::StrBracketL,
        var('t', "1"),
        var('s', "1"),
        var('e', "2"),
        Object::StrBracketR,
        var('e', "1"),
    ];
    let compiled = compile_pattern(&pattern);
    let names = ["$s.1", "$e.1", "$t.1", "$e.2"];
    let mut seen: Vec<usize> = Vec::new();
    for name in names {
        let slot = *compiled.projected_vars.get(name).unwrap();
        assert!(slot >= 3);
        assert!(slot < 4 + 2 * pattern.len());
        assert!(!seen.contains(&slot));
        seen.push(slot);
    }
    assert_eq!(compiled.projected_vars.len(), 4);
    assert!(compiled.projected_vars.get("$s.2").is_none());
}

#[test]
fn slots_are_given_in_the_order_of_matching() {
    let compiled = compile_pattern(&vec![var('s', "1"), var('t', "1"), var('e', "1")]);
    assert_eq!(
        compiled.commands,
        vec![Command::MatchSVarL, Command::MatchTVarL, Command::MatchEVar]
    );
    assert_eq!(compiled.projected_vars.get("$s.1"), Some(&3));
    assert_eq!(compiled.projected_vars.get("$t.1"), Some(&5));
    assert_eq!(compiled.projected_vars.get("$e.1"), Some(&7));
    assert_eq!(compiled.projected_vars.len(), 3);
}

#[test]
fn a_pattern_without_variables_has_no_slots() {
    let compiled = compile_pattern(&vec![Object::Symbol(String::from("a"))]);
    assert_eq!(compiled.projected_vars.len(), 0);
    assert_eq!(
        compiled.commands,
        vec![Command::MatchSymbolL(String::from("a")), Command::MatchEmpty]
    );
}

#[test]
fn brackets_are_paired_whatever_else_the_nodes_hold() {
    let mut chain = Chain { nodes: vec![], first: 0, last: 0 };
    let a = chain.add(Node::new(runtime::Object::StrBracketR));
    let b = chain.add(Node::new(symbol("x")));
    let c = chain.add(Node::new(runtime::Object::FunBracketL));
    pair_nodes(&mut chain, a, b);
    assert_eq!(chain.node(a).twin(), Some(b));
    assert_eq!(chain.node(b).twin(), Some(a));
    pair_nodes(&mut chain, c, a);
    assert_eq!(chain.node(c).twin(), Some(a));
    assert_eq!(chain.node(a).twin(), Some(c));
    assert_eq!(chain.node(b).twin(), Some(a));
    pair_nodes(&mut chain, b, b);
    assert_eq!(chain.node(b).twin(), Some(b));
    assert_eq!(chain.node(a).prev(), None);
    assert_eq!(chain.node(a).next(), None);
}

/// The slots of the chain from the first sentinel to the last, in order.
fn slots_along(chain: &Chain) -> Vec<usize> {
    let mut slots = vec![chain.first];
    let mut current = chain.first;
    while current != chain.last {
        current = chain.node(current).next().unwrap();
        assert!(!slots.contains(&current));
        slots.push(current);
    }
    slots
}

#[test]
fn brackets_nest_along_the_chain_after_evaluation() {
    let defs = compile(SAMPLE).unwrap();
    for goal in ["S.GoDouble", "S.GoTwice", "S.GoRepeated", "S.GoChange"] {
        let (dots, chain) = init_view(goal);
        let chain = eval(&defs, dots, chain, 100_000).unwrap();
        let mut waiting: Vec<usize> = Vec::new();
        for slot in slots_along(&chain) {
            match chain.node(slot).object {
                runtime::Object::StrBracketL | runtime::Object::FunBracketL => waiting.push(slot),
                runtime::Object::StrBracketR | runtime::Object::FunBracketR => {
                    assert_eq!(chain.node(slot).twin(), waiting.pop());
                }
                _ => {}
            }
        }
        assert_eq!(waiting, Vec::<usize>::new());
    }
}

#[test]
fn the_way_back_meets_the_same_nodes_in_reverse() {
    let defs = compile(SAMPLE).unwrap();
    for goal in ["S.GoDouble", "S.GoTwice", "S.GoChange", "S.GoEmpty"] {
        let (dots, chain) = init_view(goal);
        let chain = eval(&defs, dots, chain, 100_000).unwrap();
        let forward = slots_along(&chain);
        let mut backward = vec![chain.last];
        let mut current = chain.last;
        while current != chain.first {
            current = chain.node(current).prev().unwrap();
            backward.push(current);
        }
        backward.reverse();
        assert_eq!(forward, backward);
        assert_eq!(chain.node(chain.last).next(), None);
    }
}

#[test]
fn a_rewrite_writes_its_text_in_place_of_the_call() {
    assert_eq!(
        run(SAMPLE, "S.GoDouble"),
        Ok(vec![
            runtime::Object::StrBracketL,
            symbol("x"),
            runtime::Object::StrBracketL,
            symbol("y"),
            symbol("z"),
            runtime::Object::StrBracketR,
            runtime::Object::StrBracketR,
            symbol("x"),
            runtime::Object::StrBracketL,
            symbol("y"),
            symbol("z"),
            runtime::Object::StrBracketR,
            runtime::Object::StrBracketL,
            symbol("x"),
            runtime::Object::StrBracketL,
            symbol("y"),
            symbol("z"),
            runtime::Object::StrBracketR,
            runtime::Object::StrBracketR,
        ])
    );
}
