use refal::lexer::InnerToken;

#[test]
fn test_curly_l() {
    let mut lex = InnerToken::lexer(" { ");
    assert_eq!(lex.next(), Some(InnerToken::CurlyL));
    assert_eq!(lex.slice(), "{");
    assert_eq!(lex.next(), None);
}

#[test]
fn test_id() {
    let mut lex = InnerToken::lexer(" my_id ");
    assert_eq!(lex.next(), Some(InnerToken::Id("my_id".to_string())));
    assert_eq!(lex.next(), None);
}

#[test]
fn test_ws() {
    let input = "
    /* Contains basic simple tests form turchin book */
    $MODULE Test;
    ";
    let mut lex = InnerToken::lexer(input);
    assert_eq!(lex.next(), Some(InnerToken::Module));
    assert_eq!(lex.next(), Some(InnerToken::Id("Test".to_string())));
    assert_eq!(lex.next(), Some(InnerToken::Semi));
    assert_eq!(lex.next(), None);
}

#[test]
fn test_q_symbols() {
    let mut lex = InnerToken::lexer(" 'a' '////^^^$$$'");
    assert_eq!(lex.next(), Some(InnerToken::QSymbol("a".to_string())));
    assert_eq!(
        lex.next(),
        Some(InnerToken::QSymbol("////^^^$$$".to_string()))
    );
    assert_eq!(lex.next(), None);
}

#[test]
fn test_vars() {
    let mut lex = InnerToken::lexer(" $e.1 $t.T_VAR $s.s");
    assert_eq!(lex.next(), Some(InnerToken::EVar("$e.1".to_string())));
    assert_eq!(lex.next(), Some(InnerToken::TVar("$t.T_VAR".to_string())));
    assert_eq!(lex.next(), Some(InnerToken::SVar("$s.s".to_string())));
    assert_eq!(lex.next(), None);
}

#[test]
fn test_comments() {
    let mut lex = InnerToken::lexer(" /* 123 */ Symbol");
    assert_eq!(lex.next(), Some(InnerToken::Id("Symbol".to_string())));
    assert_eq!(lex.slice(), "Symbol");
}

#[test]
fn test_error_1() {
    let mut lex = InnerToken::lexer(" ! ");
    assert_eq!(lex.next(), Some(InnerToken::Error));
    assert_eq!(lex.slice(), "!");
    assert_eq!(lex.span(), 1..2);
    assert_eq!(lex.next(), None);
}

#[test]
fn test_error_2() {
    let mut lex = InnerToken::lexer(" !! ");
    assert_eq!(lex.next(), Some(InnerToken::Error));
    assert_eq!(lex.slice(), "!");
    assert_eq!(lex.span(), 1..2);
    assert_eq!(lex.next(), Some(InnerToken::Error));
    assert_eq!(lex.span(), 2..3);
    assert_eq!(lex.slice(), "!");
    assert_eq!(lex.next(), None);
}

#[test]
fn places_are_counted_in_characters() {
    let mut lex = InnerToken::lexer("'\u{e9}\u{e9}' x");
    assert_eq!(lex.next(), Some(InnerToken::QSymbol("\u{e9}\u{e9}".to_string())));
    assert_eq!(lex.span(), 0..4);
    assert_eq!(lex.slice(), "'\u{e9}\u{e9}'");
    assert_eq!(lex.next(), Some(InnerToken::Id("x".to_string())));
    assert_eq!(lex.span(), 5..6);
}
