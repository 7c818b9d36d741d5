use radia::compile::{compile_program, try_compile_program};
use radia::error::Error;
use radia::parse::{parse, AToken, AbstractKind};
use radia::tree::FlatTree;

fn prelude(text: &str) -> Result<FlatTree<AToken>, Error> {
    parse(String::from(text))
}

fn build(program: &str, pre: &str) -> Result<Vec<(String, String)>, Error> {
    compile_program(parse(String::from(program)).unwrap(), String::from("main.rad"), prelude(pre))
}

fn pair(path: &str, contents: &str) -> (String, String) {
    (String::from(path), String::from(contents))
}

fn cerr(line: usize, file: &str, msg: &str) -> Error {
    Error::CompileError(line, String::from(file), String::from(msg))
}

#[test]
fn type_with_getter() {
    let files = build("type Point { x y }\nimpl getx for Point { yield get x; }\n", "");
    assert_eq!(
        files,
        Ok(vec![pair(
            "Radia.main.rad.ns.Point.oovmt",
            "type object \"::Point\" 2 #\n\nmethod \"getx\" 0 {\n\tget 0\n\tret\n\tret\n}\n\n",
        )])
    );
}

#[test]
fn setter_with_parameter() {
    let files = build("type P { x y }\nimpl sety v for P { set y v; }\n", "");
    assert_eq!(
        files,
        Ok(vec![pair(
            "Radia.main.rad.ns.P.oovmt",
            "type object \"::P\" 2 #\n\nmethod \"sety\" 1 {\n\tload 0 ref\n\tset 1\n\tret\n}\n\n",
        )])
    );
}

#[test]
fn expansion_and_local() {
    let files = build("impl main for Main { let a 1; yield <Add a 2.5>; }\n", "def Add \"$0$1\\tadd\\n\" ");
    assert_eq!(
        files,
        Ok(vec![pair(
            "Radia.main.rad.Main.oovmm",
            "mod object \"Main\" 0 #\n\nmethod \"main\" 0 {\n\tmint 1\n\tlocal 0\n\tload 0 ref\n\tmint 2.5\n\tadd\n\tret\n\tret\n}\n\n",
        )])
    );
}

#[test]
fn labels_count_up_in_a_method() {
    let files = build("impl m for T { yield <L 1>; yield <L 2>; }\n", "def L \"l$label $0;\" ");
    assert_eq!(
        files,
        Ok(vec![pair(
            "Radia.main.rad.T.oovmm",
            "mod object \"T\" 0 #\n\nmethod \"m\" 0 {\nl0 \tmint 1\n;\tret\nl1 \tmint 2\n;\tret\n\tret\n}\n\n",
        )])
    );
}

#[test]
fn lambda_captures_outer_locals() {
    let files = build("impl run for Main { let x 5; yield fn y { <Add x y> }; }\n", "def Add \"$0$1\\tadd\\n\" ");
    let lambda = "method \"main.rad @ run $ 0\" 3 {\n\tload 1 ref\n\tload 2 ref\n\tadd\n\tret\n}\n";
    let method = "method \"run\" 0 {\n\tmint 5\n\tlocal 0\n\tthis ref\n\tlstr \"main.rad @ run $ 0\"\n\tload 0 ref\n\tmarr 1\n\tnew \"Function\"\n\tsend \"Function\"\n\tret\n\tret\n}\n";
    let contents = format!("mod object \"Main\" 0 #\n\n{lambda}\n{method}\n");
    assert_eq!(files, Ok(vec![pair("Radia.main.rad.Main.oovmm", &contents)]));
}

#[test]
fn message_sends() {
    let files = build("type Foo { a }\nimpl make for Foo { yield [new Foo 1 2]; yield [self size]; }\n", "");
    let method = "method \"make\" 0 {\n\tmint 1\n\tmint 2\n\tnew \"::Foo\"\n\tsend \"Foo\"\n\tret\n\tthis\n\tsend \"size\"\n\tret\n\tret\n}\n";
    let contents = format!("type object \"::Foo\" 1 #\n\n{method}\n");
    assert_eq!(files, Ok(vec![pair("Radia.main.rad.ns.Foo.oovmt", &contents)]));
}

#[test]
fn string_literals_are_escaped() {
    let files = build("impl s for T { yield \"a\\nb\\\\c\"; }\n", "");
    assert_eq!(
        files,
        Ok(vec![pair(
            "Radia.main.rad.T.oovmm",
            "mod object \"T\" 0 #\n\nmethod \"s\" 0 {\n\tlstr \"a\\0ab\\5cc\"\n\tret\n\tret\n}\n\n",
        )])
    );
}

#[test]
fn lists_and_characters() {
    let files = build("impl l for T { yield ('A' 7 unit); }\n", "");
    assert_eq!(
        files,
        Ok(vec![pair(
            "Radia.main.rad.T.oovmm",
            "mod object \"T\" 0 #\n\nmethod \"l\" 0 {\n\tmint 65\n\tmint 7\n\tmain\n\tmarr 3\n\tret\n\tret\n}\n\n",
        )])
    );
}

#[test]
fn prelude_methods_come_first() {
    let files = build("impl b for T { yield unit; }\nimpl c for U { yield unit; }\n", "impl a for U { yield unit; } ");
    assert_eq!(
        files,
        Ok(vec![
            pair(
                "Radia.main.rad.U.oovmm",
                "mod object \"U\" 0 #\n\nmethod \"a\" 0 {\n\tmain\n\tret\n\tret\n}\n\nmethod \"c\" 0 {\n\tmain\n\tret\n\tret\n}\n\n",
            ),
            pair("Radia.main.rad.T.oovmm", "mod object \"T\" 0 #\n\nmethod \"b\" 0 {\n\tmain\n\tret\n\tret\n}\n\n"),
        ])
    );
}

#[test]
fn paths_spell_out_brackets() {
    let files = build("impl m for \"List<Int>\" { yield unit; }\n", "");
    assert_eq!(files.unwrap()[0].0, "Radia.main.rad.List.oovm.Int.magic.oovmm");
}

#[test]
fn cerrs() {
    assert_eq!(
        build("impl m for T { yield z; }\n", ""),
        Err(cerr(1, "main.rad", "Unknown local variable `z`"))
    );
    assert_eq!(
        build("(1) ", ""),
        Err(cerr(
            1,
            "main.rad",
            "Only `impl` blocks, expansion definitions (`def` statements), `namespace` declarations, and `type` definitions may be top-level: List"
        ))
    );
    assert_eq!(
        build("impl m for T { def a b }\n", ""),
        Err(Error::NotImplemented(String::from("Define(\"a\", \"b\")")))
    );
    assert_eq!(
        build("impl m for T { yield get x; }\n", ""),
        Err(cerr(1, "main.rad", "Cannot `get` field for external or unknown types"))
    );
    assert_eq!(
        build("type P { x }\nimpl m for P { yield get z; }\n", ""),
        Err(cerr(2, "main.rad", "Unknown field `z` for type `::P`"))
    );
    assert_eq!(
        build("impl m for T { yield <Nope>; }\n", ""),
        Err(cerr(
            1,
            "main.rad",
            "Unknown expansion `Nope`. If this is unexpected, make sure the intended expansion is defined *before* being used."
        ))
    );
    assert_eq!(
        build("impl m for T { yield <>; }\n", ""),
        Err(cerr(
            1,
            "main.rad",
            "Empty angled brackets are disallowed. For the type `<>` of `unit`, use \"<>\" with the double quotes included. A correct example of angled brackets would be: `<Add.Int 3 5>`, which would add the integers three and five."
        ))
    );
    assert_eq!(
        build("impl m for T { yield <1>; }\n", ""),
        Err(cerr(
            1,
            "main.rad",
            "Invalid expansion name. Correct expansion syntax is of the form: `<expansion-name arg1 arg2 argN>` or `<\"quoted expansion name\" arg1 arg2 argN>`"
        ))
    );
    assert_eq!(
        build("impl m for T { yield [self 1]; }\n", ""),
        Err(cerr(
            1,
            "main.rad",
            "Invalid message (must be in form of string literal or identifier literal)."
        ))
    );
    assert_eq!(
        build("impl m for T { yield; }\n", ""),
        Err(cerr(1, "main.rad", "Keyword `yield` missing value"))
    );
    assert_eq!(
        build("type P { x }\nimpl m for P { set x; }\n", ""),
        Err(cerr(2, "main.rad", "Keyword `set` missing value."))
    );
}

#[test]
fn roots_are_checked() {
    let root_msg = "Root missing for abstract syntax tree (Internal Error). This may be caused by improperly placed keywords as well as an internal bug. Check there aren't any keywords that aren't properly closed (like an `impl` block without braces after it)";
    let not_root = parse(String::from("yield 1 ")).unwrap();
    assert_eq!(
        compile_program(not_root, String::from("main.rad"), prelude("")),
        Err(cerr(0, "main.rad", root_msg))
    );
    let not_root = parse(String::from("yield 1 ")).unwrap();
    assert_eq!(
        compile_program(prelude("").unwrap(), String::from("main.rad"), Ok(not_root)),
        Err(cerr(0, "prelude.rad", root_msg))
    );
}

#[test]
fn impl_without_body() {
    let ast = FlatTree::new(
        AToken::new(1, AbstractKind::Root),
        vec![FlatTree::new(
            AToken::new(3, AbstractKind::Implement(String::from("m"), Vec::new(), String::from("T"))),
            Vec::new(),
        )],
    );
    assert_eq!(
        compile_program(ast, String::from("main.rad"), prelude("")),
        Err(cerr(3, "main.rad", "`impl` block missing implementation"))
    );
}

#[test]
fn short_message_send_has_no_code() {
    let ast = parse(String::from("impl m for T { yield [self]; }\n")).unwrap();
    assert!(try_compile_program(ast, String::from("main.rad"), prelude("")).is_none());
}

#[test]
fn block_restores_scope() {
    let files = build("impl m for T { { let a 1; } yield a; }\n", "");
    assert_eq!(files, Err(cerr(1, "main.rad", "Unknown local variable `a`")));
}

#[test]
fn error_texts() {
    assert_eq!(
        Error::ParseError(12, String::from("Unexpected semicolon")).to_string(),
        "Parse error at line 12: Unexpected semicolon"
    );
    assert_eq!(
        cerr(0, "main.rad", "boom").to_string(),
        "Compile error at line 0 of main.rad: boom"
    );
    assert_eq!(Error::NotImplemented(String::from("Root")).to_string(), "Root Not Implemented");
}

#[test]
fn lambdas_are_numbered_and_scope_comes_back() {
    let files = build("impl m for T { let x 1; yield fn y { y }; yield fn { x }; yield x; }\n", "").unwrap();
    let contents = &files[0].1;
    assert!(contents.contains("method \"main.rad @ m $ 0\" 2 {\n\tload 1 ref\n\tret\n}\n"));
    assert!(contents.contains("method \"main.rad @ m $ 1\" 2 {\n\tload 1 ref\n\tret\n}\n"));
    assert!(contents.ends_with("\tload 0 ref\n\tret\n\tret\n}\n\n"));
    assert_eq!(files.len(), 1);
}

#[test]
fn rebinding_a_local_keeps_one_slot() {
    let files = build("impl m for T { let a 1; let a 2; yield a; }\n", "");
    assert_eq!(
        files,
        Ok(vec![pair(
            "Radia.main.rad.T.oovmm",
            "mod object \"T\" 0 #\n\nmethod \"m\" 0 {\n\tmint 1\n\tlocal 0\n\tmint 2\n\tlocal 1\n\tload 1 ref\n\tret\n\tret\n}\n\n",
        )])
    );
}

#[test]
fn top_level_errors_name_the_kind() {
    let msg = "Only `impl` blocks, expansion definitions (`def` statements), `namespace` declarations, and `type` definitions may be top-level: ";
    let ast = FlatTree::new(
        AToken::new(0, AbstractKind::Root),
        vec![FlatTree::new(
            AToken::new(4, AbstractKind::SetField(String::from("x"))),
            vec![FlatTree::new(AToken::new(4, AbstractKind::Integer(1)), vec![])],
        )],
    );
    assert_eq!(
        compile_program(ast, String::from("main.rad"), prelude("")),
        Err(cerr(4, "main.rad", &format!("{}Set(\"x\")", msg)))
    );
    assert_eq!(build("2.5 ", ""), Err(cerr(1, "main.rad", &format!("{}Number(2.5)", msg))));
    assert_eq!(build("\n7 ", ""), Err(cerr(2, "main.rad", &format!("{}Integer(7)", msg))));
    assert_eq!(
        build("impl m for T { type P { x } }\n", ""),
        Err(Error::NotImplemented(String::from("Type(\"P\", [\"x\"])")))
    );
}

#[test]
fn prelude_errors_come_after_the_root_check() {
    let root_msg = "Root missing for abstract syntax tree (Internal Error). This may be caused by improperly placed keywords as well as an internal bug. Check there aren't any keywords that aren't properly closed (like an `impl` block without braces after it)";
    let broken = prelude("; ");
    assert_eq!(broken, Err(Error::ParseError(1, String::from("Unexpected semicolon"))));
    let not_root = parse(String::from("yield 1 ")).unwrap();
    assert_eq!(
        compile_program(not_root, String::from("main.rad"), prelude("; ")),
        Err(cerr(0, "main.rad", root_msg))
    );
    let ast = parse(String::from("type P { x }\n")).unwrap();
    assert_eq!(
        compile_program(ast, String::from("main.rad"), prelude("; ")),
        Err(Error::ParseError(1, String::from("Unexpected semicolon")))
    );
}
