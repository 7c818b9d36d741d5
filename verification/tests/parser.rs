use radia::error::Error;
use radia::parse::{
    kind_to_string, parse, parse_abstract, parse_concrete, tokenize, try_parse, try_parse_abstract, AToken,
    AbstractKind, MutTree, Token, TokenKind,
};
use radia::tree::FlatTree;

fn tok(token: TokenKind, line: usize) -> Token {
    Token { token, line }
}

fn ident(s: &str) -> TokenKind {
    TokenKind::Identifier(String::from(s))
}

fn shape(t: &FlatTree<Token>) -> String {
    let mut s = format!("{:?}", t.data.token);
    if !t.children.is_empty() {
        s.push('[');
        let parts: Vec<String> = t.children.iter().map(shape).collect();
        s.push_str(&parts.join(" "));
        s.push(']');
    }
    s
}

fn ashape(t: &FlatTree<AToken>) -> String {
    let mut s = format!("{:?}", t.data.token);
    if !t.children.is_empty() {
        s.push('[');
        let parts: Vec<String> = t.children.iter().map(ashape).collect();
        s.push_str(&parts.join(" "));
        s.push(']');
    }
    s
}

fn concrete(program: &str) -> Result<FlatTree<Token>, Error> {
    parse_concrete(tokenize(String::from(program)))
}

#[test]
fn mut_tree_builds_nodes() {
    let mut node = MutTree::new(tok(TokenKind::Block, 3));
    node.add_child(FlatTree::new(tok(ident("a"), 3), Vec::new()));
    let tree = node.flatten();
    assert_eq!(tree.data, tok(TokenKind::Block, 3));
    assert_eq!(tree.children.len(), 1);
    assert_eq!(tree.children[0].data, tok(ident("a"), 3));
    let root = MutTree::root().flatten();
    assert_eq!(root.data, tok(TokenKind::Root, 0));
    assert!(root.children.is_empty());
}

#[test]
fn nests_blocks_and_impls() {
    let t = concrete("type Point { x y }\nimpl getx for Point { yield get x; }\n").unwrap();
    assert_eq!(
        shape(&t),
        "Root[Type[Identifier(\"Point\") Block[Identifier(\"x\") Identifier(\"y\")]] \
         Implement[Identifier(\"getx\") For Identifier(\"Point\") Block[Yield[Get[Identifier(\"x\")]]]]]"
    );
}

#[test]
fn def_closes_after_two_children() {
    let t = concrete("def a b c ").unwrap();
    assert_eq!(shape(&t), "Root[Define[Identifier(\"a\") Identifier(\"b\")] Identifier(\"c\")]");
}

#[test]
fn unclosed_node_is_the_result() {
    let t = concrete("impl m for T { yield 1 ").unwrap();
    assert_eq!(shape(&t), "Yield[Number(\"1\")]");
    let t = concrete("impl m for T { yield 1 ; ").unwrap();
    assert_eq!(shape(&t), "Block[Yield[Number(\"1\")]]");
}

#[test]
fn unmatched_closers_are_errors() {
    assert_eq!(concrete(") "), Err(Error::ParseError(1, String::from("Unmatched `)` symbol."))));
    assert_eq!(concrete("\n} "), Err(Error::ParseError(2, String::from("Unmatched `}` or `end` symbol."))));
    assert_eq!(concrete("] "), Err(Error::ParseError(1, String::from("Unmatched `]` or `end` symbol."))));
    assert_eq!(concrete("> "), Err(Error::ParseError(1, String::from("Unmatched `>` symbol."))));
    assert_eq!(concrete("a ; "), Err(Error::ParseError(1, String::from("Unexpected semicolon"))));
}

#[test]
fn root_token_is_rejected() {
    let r = parse_concrete(vec![tok(ident("a"), 1), tok(TokenKind::Root, 7)]);
    assert_eq!(
        r,
        Err(Error::ParseError(7, String::from("Unexpected `Root` token found in program. Likely an internal error.")))
    );
}

#[test]
fn closing_brace_leaves_lambda() {
    let t = concrete("yield fn y { y } ").unwrap();
    assert_eq!(shape(&t), "Yield[Lambda[Identifier(\"y\") Block[Identifier(\"y\")]]]");
}

#[test]
fn abstract_tree_of_a_program() {
    let ast = parse(String::from("type Point { x y }\nimpl getx for Point { yield get x; }\n")).unwrap();
    assert_eq!(
        ashape(&ast),
        "Root[Type(\"Point\", [\"x\", \"y\"]) Implement(\"getx\", [], \"Point\")[Block[Yield[Get(\"x\")]]]]"
    );
    assert_eq!(ast.children[1].data.line, 2);
}

#[test]
fn impl_with_parameters() {
    let ast = parse(String::from("impl add a \"b\" for Int { yield a; }")).unwrap();
    assert_eq!(
        ashape(&ast),
        "Root[Implement(\"add\", [\"a\", \"b\"], \"Int\")[Block[Yield[Identifier(\"a\")]]]]"
    );
}

#[test]
fn impl_without_type_keeps_all_children() {
    let ast = parse(String::from("impl m a \"b\" "));
    assert_eq!(
        ast.map(|a| ashape(&a)),
        Ok(String::from("Implement(\"m\", [\"a\", \"b\"], \"\")[Identifier(\"m\") Identifier(\"a\") String(\"b\")]"))
    );
    let ast = parse(String::from("impl m for "));
    assert_eq!(ast, Err(Error::ParseError(1, String::from("Unexpected keyword `for`."))));
    let ast = parse(String::from("impl m x { y } "));
    assert_eq!(
        ast,
        Err(Error::ParseError(
            1,
            String::from(
                "Expected identifier, string, or `for` keyword in impl-definition in the form of a parameter or type name."
            )
        ))
    );
}

#[test]
fn numbers() {
    let ast = parse(String::from("(12 0.5 2. 2.e3 .5 007) ")).unwrap();
    assert_eq!(
        ashape(&ast),
        "Root[List[Integer(12) Number(\"0.5\") Number(\"2.\") Number(\"2.e3\") Identifier(\".5\") Integer(7)]]"
    );
}

#[test]
fn float_and_integer_errors() {
    assert_eq!(
        parse(String::from("(1.2.3) ")),
        Err(Error::ParseError(1, String::from("Failed to parse float.")))
    );
    assert_eq!(
        parse(String::from("(2147483648) ")),
        Err(Error::ParseError(1, String::from("Failed to parse integer.")))
    );
    assert_eq!(parse(String::from("(2147483647) ")).map(|a| ashape(&a)), Ok(String::from("Root[List[Integer(2147483647)]]")));
    assert_eq!(
        parse(String::from("(1x) ")),
        Err(Error::ParseError(1, String::from("Failed to parse integer.")))
    );
}

#[test]
fn keyword_errors() {
    assert_eq!(
        parse(String::from("get 5 ")),
        Err(Error::ParseError(1, String::from("Expected identifier after keyword `get`.")))
    );
    assert_eq!(
        parse(String::from("set \"s\" ")),
        Err(Error::ParseError(1, String::from("Expected identifier after keyword `set`.")))
    );
    assert_eq!(
        parse(String::from("let ")),
        Err(Error::ParseError(1, String::from("Expected identifier after keyword `let`.")))
    );
    assert_eq!(
        parse(String::from("type T ")),
        Err(Error::ParseError(1, String::from("Expected block after keyword `type`")))
    );
    assert_eq!(
        parse(String::from("type T { \"a\" } ")),
        Err(Error::ParseError(1, String::from("Invalid field name.")))
    );
    assert_eq!(
        parse(String::from("impl 3 ")),
        Err(Error::ParseError(1, String::from("Expected identifier or string after keyword `impl`.")))
    );
    assert_eq!(
        parse(String::from("impl m 3 ")),
        Err(Error::ParseError(
            1,
            String::from(
                "Expected identifier, string, or `for` keyword in impl-definition in the form of a parameter or type name."
            )
        ))
    );
    assert_eq!(
        parse(String::from("def 1 ")),
        Err(Error::ParseError(1, String::from("`def` block missing identifier or string as expansion name")))
    );
    assert_eq!(
        parse(String::from("def a 1 ")),
        Err(Error::ParseError(
            1,
            String::from("`def` block missing identifier or string as expansion value after expansion name")
        ))
    );
    assert_eq!(
        parse(String::from("fn 1 x ")),
        Err(Error::ParseError(
            1,
            String::from(
                "Expected identifier or string after lambda definition (`λ`, `lambda`, `fn`, `func`, `function`, or `\\` keywords/operators) in the form of a parameter, the same as an `impl` parameter definition."
            )
        ))
    );
}

#[test]
fn stray_closing_token() {
    let cst = FlatTree::new(tok(TokenKind::Semicolon, 4), Vec::new());
    assert_eq!(
        parse_abstract(&cst),
        Err(Error::ParseError(
            4,
            String::from(
                "Unexpected token. This is likely an internal error with the compiler.Tokens internally reffered to as `Semicolon`, `EndList`, `EndBlock`, `EndOperation`, or `EndMessage`have snuck through the cracks and made it to the wrong stage of parsing."
            )
        ))
    );
}

#[test]
fn define_unescapes() {
    let ast = parse(String::from("def nl \"a\\nb\\tc\\\\n\" ")).unwrap();
    assert_eq!(
        ast.children[0].data.token,
        AbstractKind::Define(String::from("nl"), String::from("a\nb\tc\\\n"))
    );
}

#[test]
fn leaves_and_lists() {
    let ast = parse(String::from("[self 'c' \"s\" new unit] ")).unwrap();
    assert_eq!(ashape(&ast), "Root[Message[Self_ Character('c') String(\"s\") New Unit]]");
    let ast = parse(String::from("<x> ")).unwrap();
    assert_eq!(ashape(&ast), "Root[Expansion[Identifier(\"x\")]]");
}

#[test]
fn lambda_without_children_has_no_tree() {
    assert!(try_parse(String::from("fn ")).is_none());
    let cst = FlatTree::new(tok(TokenKind::Lambda, 1), Vec::new());
    assert!(try_parse_abstract(&cst).is_none());
    assert!(try_parse(String::from("' ")).is_none());
    assert_eq!(
        try_parse(String::from("(get 1 fn) ")),
        Some(Err(Error::ParseError(1, String::from("Expected identifier after keyword `get`."))))
    );
}

#[test]
fn tree_text() {
    let ast = parse(String::from("(1 x) ")).unwrap();
    assert_eq!(
        ast.to_string(),
        "0 : Root (\n\t1 : List (\n\t\t1 : Integer(1)\n\t\t1 : Identifier(\"x\")\n\t)\n)"
    );
    assert_eq!(ast.children[0].children[1].data.to_string(), "1 : Identifier(\"x\")");
}

fn strings(v: &[&str]) -> Vec<String> {
    v.iter().map(|s| String::from(*s)).collect()
}

#[test]
fn kind_texts() {
    let cases = vec![
        (AbstractKind::Root, "Root"),
        (AbstractKind::SetField(String::from("x")), "Set(\"x\")"),
        (AbstractKind::Get(String::from("x")), "Get(\"x\")"),
        (AbstractKind::Let(String::from("y")), "Let(\"y\")"),
        (AbstractKind::Number(String::from("2.5")), "Number(2.5)"),
        (AbstractKind::Integer(-3), "Integer(-3)"),
        (AbstractKind::Integer(5), "Integer(5)"),
        (AbstractKind::Identifier(String::from("x")), "Identifier(\"x\")"),
        (AbstractKind::String(String::from("a\"b")), "String(\"a\\\"b\")"),
        (AbstractKind::Character('c'), "Character('c')"),
        (AbstractKind::Character('\n'), "Character('\\n')"),
        (AbstractKind::Type(String::from("P"), Vec::new()), "Type(\"P\", [])"),
        (AbstractKind::Type(String::from("P"), strings(&["x", "y"])), "Type(\"P\", [\"x\", \"y\"])"),
        (
            AbstractKind::Implement(String::from("m"), strings(&["a"]), String::from("T")),
            "Implement(\"m\", [\"a\"], \"T\")",
        ),
        (AbstractKind::Block, "Block"),
        (AbstractKind::Message, "Message"),
        (AbstractKind::List, "List"),
        (AbstractKind::Expansion, "Expansion"),
        (AbstractKind::Yield, "Yield"),
        (AbstractKind::Define(String::from("a"), String::from("b")), "Define(\"a\", \"b\")"),
        (AbstractKind::Lambda(strings(&["x", "y"])), "Lambda([\"x\", \"y\"])"),
        (AbstractKind::New, "New"),
        (AbstractKind::Self_, "Self_"),
        (AbstractKind::Unit, "Unit"),
    ];
    for (kind, text) in cases {
        assert_eq!(kind_to_string(&kind), text);
    }
}

#[test]
fn flat_tree_text() {
    let f = |d: AToken, c: Vec<FlatTree<AToken>>| FlatTree::new(d, c);
    let t = f(
        AToken::new(0, AbstractKind::Root),
        vec![
            f(AToken::new(1, AbstractKind::List), vec![f(AToken::new(2, AbstractKind::Unit), vec![])]),
            f(AToken::new(3, AbstractKind::Integer(5)), vec![]),
        ],
    );
    assert_eq!(t.to_string(), "0 : Root (\n\t1 : List (\n\t\t2 : Unit\n\t)\n\t3 : Integer(5)\n)");
    assert_eq!(AToken::new(7, AbstractKind::Identifier(String::from("x"))).to_string(), "7 : Identifier(\"x\")");
    assert_eq!(
        AToken::new(1, AbstractKind::Implement(String::from("m"), strings(&["a"]), String::from("T"))).to_string(),
        "1 : Implement(\"m\", [\"a\"], \"T\")"
    );
}

fn preorder(t: &FlatTree<Token>, out: &mut Vec<Token>) {
    out.push(t.data.clone());
    for c in &t.children {
        preorder(c, out);
    }
}

#[test]
fn concrete_tree_keeps_tokens_in_order() {
    let program = "type P { x }\nimpl m for P { let y [self get x]; yield (y 'c' \"s\"); }\n";
    let tokens = tokenize(String::from(program));
    let tree = parse_concrete(tokens.clone()).unwrap();
    assert_eq!(tree.data.token, TokenKind::Root);
    let mut seen = Vec::new();
    preorder(&tree, &mut seen);
    let mut expected = vec![tok(TokenKind::Root, 0)];
    for t in tokens {
        match t.token {
            TokenKind::Semicolon
            | TokenKind::EndBlock
            | TokenKind::EndMessage
            | TokenKind::EndList
            | TokenKind::EndOperation => {},
            _ => expected.push(t),
        }
    }
    assert_eq!(seen, expected);
}

#[test]
fn bracket_node_maps_children_in_order() {
    let cst = FlatTree::new(
        tok(TokenKind::List, 4),
        vec![
            FlatTree::new(tok(ident("a"), 4), vec![]),
            FlatTree::new(tok(TokenKind::Number(String::from("7")), 5), vec![]),
            FlatTree::new(tok(ident("b"), 5), vec![]),
        ],
    );
    let ast = parse_abstract(&cst).unwrap();
    assert_eq!(ast.data, AToken::new(4, AbstractKind::List));
    assert_eq!(ashape(&ast), "List[Identifier(\"a\") Integer(7) Identifier(\"b\")]");
    let cst = FlatTree::new(
        tok(TokenKind::Operation, 2),
        vec![
            FlatTree::new(tok(ident("a"), 2), vec![]),
            FlatTree::new(tok(TokenKind::Number(String::from("x1")), 3), vec![]),
            FlatTree::new(tok(TokenKind::Number(String::from("1.x")), 3), vec![]),
        ],
    );
    assert_eq!(
        parse_abstract(&cst),
        Err(Error::ParseError(3, String::from("Failed to parse integer.")))
    );
}

#[test]
fn leaves_keep_line_and_text() {
    let cst = FlatTree::new(
        tok(ident("x"), 9),
        vec![FlatTree::new(tok(TokenKind::Number(String::from("oops")), 9), vec![])],
    );
    let ast = parse_abstract(&cst).unwrap();
    assert_eq!(ast, FlatTree::new(AToken::new(9, AbstractKind::Identifier(String::from("x"))), vec![]));
    let cst = FlatTree::new(tok(TokenKind::Self_, 2), vec![]);
    assert_eq!(parse_abstract(&cst).unwrap().data, AToken::new(2, AbstractKind::Self_));
}
