use radia::parse::{token_to_kind, tokenize, try_tokenize, Token, TokenKind};

fn kinds(tokens: &[Token]) -> Vec<TokenKind> {
    tokens.iter().map(|t| t.token.clone()).collect()
}

#[test]
fn keywords_and_operators() {
    assert_eq!(token_to_kind("set"), TokenKind::SetField);
    assert_eq!(token_to_kind("get"), TokenKind::Get);
    assert_eq!(token_to_kind("let"), TokenKind::Let);
    assert_eq!(token_to_kind("impl"), TokenKind::Implement);
    assert_eq!(token_to_kind("for"), TokenKind::For);
    assert_eq!(token_to_kind("type"), TokenKind::Type);
    assert_eq!(token_to_kind("{"), TokenKind::Block);
    assert_eq!(token_to_kind("}"), TokenKind::EndBlock);
    assert_eq!(token_to_kind("["), TokenKind::Message);
    assert_eq!(token_to_kind("]"), TokenKind::EndMessage);
    assert_eq!(token_to_kind("("), TokenKind::List);
    assert_eq!(token_to_kind(")"), TokenKind::EndList);
    assert_eq!(token_to_kind("<"), TokenKind::Operation);
    assert_eq!(token_to_kind(">"), TokenKind::EndOperation);
    assert_eq!(token_to_kind(";"), TokenKind::Semicolon);
    assert_eq!(token_to_kind("yield"), TokenKind::Yield);
    assert_eq!(token_to_kind("def"), TokenKind::Define);
    for w in ["lambda", "λ", "func", "fn", "function", "\\"] {
        assert_eq!(token_to_kind(w), TokenKind::Lambda);
    }
    assert_eq!(token_to_kind("new"), TokenKind::New);
    assert_eq!(token_to_kind("unit"), TokenKind::Unit);
    assert_eq!(token_to_kind("self"), TokenKind::Self_);
}

#[test]
fn literals_and_names() {
    assert_eq!(token_to_kind("42"), TokenKind::Number(String::from("42")));
    assert_eq!(token_to_kind("3.5x"), TokenKind::Number(String::from("3.5x")));
    assert_eq!(token_to_kind("'a'"), TokenKind::Character('a'));
    assert_eq!(token_to_kind("'bc"), TokenKind::Character('b'));
    assert_eq!(token_to_kind("\"hi there\""), TokenKind::String(String::from("hi there")));
    assert_eq!(token_to_kind("\"\""), TokenKind::String(String::new()));
    assert_eq!(token_to_kind("setter"), TokenKind::Identifier(String::from("setter")));
    assert_eq!(token_to_kind("!"), TokenKind::Identifier(String::from("!")));
}

#[test]
fn splits_words_and_operators() {
    let tokens = tokenize(String::from("impl add for Int{yield <Add.Int self x>;}"));
    assert_eq!(
        kinds(&tokens),
        vec![
            TokenKind::Implement,
            TokenKind::Identifier(String::from("add")),
            TokenKind::For,
            TokenKind::Identifier(String::from("Int")),
            TokenKind::Block,
            TokenKind::Yield,
            TokenKind::Operation,
            TokenKind::Identifier(String::from("Add.Int")),
            TokenKind::Self_,
            TokenKind::Identifier(String::from("x")),
            TokenKind::EndOperation,
            TokenKind::Semicolon,
            TokenKind::EndBlock,
        ]
    );
}

#[test]
fn lines_are_counted() {
    let tokens = tokenize(String::from("yield\n\n x\ny "));
    let lines: Vec<usize> = tokens.iter().map(|t| t.line).collect();
    assert_eq!(lines, vec![1, 3, 4]);
}

#[test]
fn comments_are_skipped() {
    let tokens = tokenize(String::from("a # b c\n d # e f"));
    assert_eq!(
        kinds(&tokens),
        vec![TokenKind::Identifier(String::from("a")), TokenKind::Identifier(String::from("e"))]
    );
    assert_eq!(tokens[1].line, 2);
}

#[test]
fn strings_keep_their_text() {
    let tokens = tokenize(String::from("x\"a # b\" y\"c\"z "));
    assert_eq!(
        kinds(&tokens),
        vec![
            TokenKind::Identifier(String::from("x")),
            TokenKind::String(String::from("a # b")),
            TokenKind::Identifier(String::from("y")),
            TokenKind::String(String::from("c")),
            TokenKind::Identifier(String::from("z")),
        ]
    );
}

#[test]
fn last_word_without_end_is_dropped() {
    let tokens = tokenize(String::from("a b"));
    assert_eq!(kinds(&tokens), vec![TokenKind::Identifier(String::from("a"))]);
    let tokens = tokenize(String::from("a \"open"));
    assert_eq!(kinds(&tokens), vec![TokenKind::Identifier(String::from("a"))]);
}

#[test]
fn unicode_whitespace_ends_words() {
    let tokens = tokenize(String::from("a\u{3000}b\u{a0}c\u{2028}"));
    assert_eq!(
        kinds(&tokens),
        vec![
            TokenKind::Identifier(String::from("a")),
            TokenKind::Identifier(String::from("b")),
            TokenKind::Identifier(String::from("c")),
        ]
    );
}

#[test]
fn lone_quote_has_no_token() {
    assert!(try_tokenize(String::from("x ' y")).is_none());
    let tokens = try_tokenize(String::from("x 'q' y ")).unwrap();
    assert_eq!(
        kinds(&tokens),
        vec![
            TokenKind::Identifier(String::from("x")),
            TokenKind::Character('q'),
            TokenKind::Identifier(String::from("y")),
        ]
    );
}

#[test]
fn tokens_never_root_and_lines_ordered() {
    let tokens = tokenize(String::from("type T { a }\nimpl m for T {\n yield get a; }\n"));
    let mut last = 1;
    for t in &tokens {
        assert_ne!(t.token, TokenKind::Root);
        assert!(t.line >= last);
        last = t.line;
    }
    assert_eq!(last, 3);
}

#[test]
fn tokenizing_splits_at_whitespace() {
    let p = "impl m for T {\n # note # let x 1;\n";
    let q = "yield \"a b\";\n}\n";
    let whole = tokenize(format!("{}{}", p, q));
    let mut expected = tokenize(String::from(p));
    let shift = p.matches('\n').count();
    for t in tokenize(String::from(q)) {
        expected.push(Token { token: t.token, line: t.line + shift });
    }
    assert_eq!(whole, expected);
}

#[test]
fn token_lines_stay_within_the_program() {
    let program = "let a 1;\n\n# c\n# yield a;\n\n";
    let tokens = tokenize(String::from(program));
    let bound = 1 + program.matches('\n').count();
    assert!(tokens.iter().all(|t| 1 <= t.line && t.line <= bound));
    assert_eq!(tokens.last().unwrap().line, 4);
}
