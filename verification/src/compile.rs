//! The code generator: from the abstract syntax tree of a program to the text of
//! the OOVM files that hold its types and modules.
use vstd::prelude::*;
use vstd::string::StringExecFns;
use crate::assoc::{assign, distinct_keys, key_index, lemma_assign_distinct, lemma_key_index, lookup, StrMap};
use crate::error::{Error, SpecError};
use crate::parse::{kind_text, kind_to_string, strings_view, AToken, AbstractKind, SpecAToken, SpecAbstractKind};
use crate::text::{
    concat_str, contains, contains_exec, decimal, decimal_string, push_decimal, push_signed_decimal, push_str,
    replace, replace_all, signed_decimal,
};
use crate::tree::{lemma_view_children, FlatTree, STree};

verus! {

/// The state of the code generator: the local variables in scope with their
/// slots, the file and the type and message being compiled, the number of
/// lambdas and labels made in the current method, the fields of each type, the
/// aliases of type names, the methods compiled for each type, the expansions
/// defined, the namespace that type names are qualified with, and the number of
/// local slots in use.
pub struct CompileState {
    pub scope: Seq<(Seq<char>, u32)>,
    pub file: Seq<char>,
    pub class: Seq<char>,
    pub message: Seq<char>,
    pub lambdas: usize,
    pub types: Seq<(Seq<char>, Seq<(Seq<char>, u32)>)>,
    pub aliases: Seq<(Seq<char>, Seq<char>)>,
    pub implementations: Seq<(Seq<char>, Seq<Seq<char>>)>,
    pub expansions: Seq<(Seq<char>, Seq<char>)>,
    pub labels: usize,
    pub namespace: Seq<char>,
    pub locals: u32,
}

/// The outcome of compiling a node: `None` where the code generator cannot go on
/// (a message send with fewer than two children, or a counter at its limit),
/// else the error with the state the code generator was in when it stopped, or
/// the text and the state after it.
pub type CompileOutcome = Option<Result<(Seq<char>, CompileState), (SpecError, CompileState)>>;

/// The outcome of compiling a sequence of nodes: their texts, in order.
pub type SeqOutcome = Option<Result<(Seq<Seq<char>>, CompileState), (SpecError, CompileState)>>;

/// The outcome of compiling top-level nodes: the state after them, or the error
/// with the state the code generator was in when it stopped.
pub type TopOutcome = Option<Result<CompileState, (SpecError, CompileState)>>;

/// The texts one after another.
pub open spec fn concat_all(texts: Seq<Seq<char>>) -> Seq<char>
    decreases texts.len(),
{
    if texts.len() == 0 {
        Seq::empty()
    } else {
        concat_all(texts.drop_last()) + texts.last()
    }
}

/// The compile error `msg` at `line` of the file being compiled, in state `st`.
pub open spec fn fail_at(line: nat, st: CompileState, msg: Seq<char>) -> CompileOutcome {
    Some(Err((SpecError::CompileError(line, st.file, msg), st)))
}

/// The name a node stands for: the text of an identifier or a string.
pub open spec fn name_in(k: SpecAbstractKind) -> Option<Seq<char>> {
    match k {
        SpecAbstractKind::Identifier(s) => Some(s),
        SpecAbstractKind::String(s) => Some(s),
        _ => None,
    }
}

/// The methods of `class` with `text` added after them.
pub open spec fn add_method(st: CompileState, class: Seq<char>, text: Seq<char>) -> CompileState {
    let methods = match lookup(st.implementations, class) {
        Some(m) => m,
        None => Seq::empty(),
    };
    CompileState { implementations: assign(st.implementations, class, methods.push(text)), ..st }
}

/// A string literal as the virtual machine reads it: `\n`, `\t` and `\\` written
/// as hexadecimal escapes.
pub open spec fn escape_literal(s: Seq<char>) -> Seq<char> {
    replace_all(replace_all(replace_all(s, "\\n"@, "\\0a"@), "\\t"@, "\\09"@), "\\\\"@, "\\5c"@)
}

/// The names that a lambda takes from the scope around it: the identifiers in
/// `t` bound in `scope`, in the order they first occur, after those in `acc`.
pub open spec fn reserve_of(t: STree<SpecAToken>, scope: Seq<(Seq<char>, u32)>, acc: Seq<Seq<char>>) -> Seq<Seq<char>>
    decreases t, t.children.len() + 1,
{
    match t.data.kind {
        SpecAbstractKind::Identifier(id) => if lookup(scope, id) is Some && !acc.contains(id) {
            acc.push(id)
        } else {
            acc
        },
        _ => reserve_seg(t, 0, scope, acc),
    }
}

/// `reserve_of` over the children of `t` from the `j`-th on.
pub open spec fn reserve_seg(t: STree<SpecAToken>, j: int, scope: Seq<(Seq<char>, u32)>, acc: Seq<Seq<char>>) -> Seq<Seq<char>>
    decreases t, t.children.len() - j,
{
    if j < 0 || j >= t.children.len() {
        acc
    } else {
        reserve_seg(t, j + 1, scope, reserve_of(t.children[j], scope, acc))
    }
}

/// The scope of a lambda's body after `f` in slot 0: the names it takes from
/// around it in the slots after, from the `i`-th on. `None` where a slot number
/// passes the largest `u32`.
pub open spec fn reserved_scope(scope: Seq<(Seq<char>, u32)>, res: Seq<Seq<char>>, i: int) -> Option<Seq<(Seq<char>, u32)>>
    decreases res.len() - i,
{
    if i < 0 || i >= res.len() {
        Some(scope)
    } else if (i as u32) == u32::MAX {
        None
    } else {
        reserved_scope(assign(scope, res[i], ((i as u32) + 1) as u32), res, i + 1)
    }
}

/// The scope with each parameter, from the `i`-th on, bound to the number of
/// entries before it.
pub open spec fn param_scope(scope: Seq<(Seq<char>, u32)>, args: Seq<Seq<char>>, i: int) -> Seq<(Seq<char>, u32)>
    decreases args.len() - i,
{
    if i < 0 || i >= args.len() {
        scope
    } else {
        param_scope(assign(scope, args[i], scope.len() as u32), args, i + 1)
    }
}

/// The text that loads each of the names a lambda takes from the scope around it.
pub open spec fn load_all(res: Seq<Seq<char>>, scope: Seq<(Seq<char>, u32)>) -> Seq<char>
    decreases res.len(),
{
    if res.len() == 0 {
        Seq::empty()
    } else {
        load_all(res.drop_last(), scope) + "\tload "@ + decimal(lookup(scope, res.last()).unwrap() as nat) + " ref\n"@
    }
}

/// The expansion with `$i` replaced by the `i`-th argument's text, from the `i`-th
/// on, one after the other.
pub open spec fn substitute(exp: Seq<char>, comps: Seq<Seq<char>>, i: int) -> Seq<char>
    decreases comps.len() - i,
{
    if i < 0 || i >= comps.len() {
        exp
    } else {
        substitute(replace_all(exp, "$"@ + decimal(i as nat), comps[i]), comps, i + 1)
    }
}

/// The message for angle brackets with nothing in them.
pub open spec fn empty_expansion_msg() -> Seq<char> {
    "Empty angled brackets are disallowed. \
    For the type `<>` of `unit`, use \"<>\" with the double quotes included. \
    A correct example of angled brackets would be: `<Add.Int 3 5>`, \
    which would add the integers three and five."@
}

/// The message for angle brackets that do not start with a name.
pub open spec fn expansion_name_msg() -> Seq<char> {
    "Invalid expansion name. \
    Correct expansion syntax is of the form: `<expansion-name arg1 arg2 argN>` \
    or `<\"quoted expansion name\" arg1 arg2 argN>`"@
}

/// The message for a tree without a root.
pub open spec fn root_missing_msg() -> Seq<char> {
    "Root missing for abstract syntax tree (Internal Error). \
    This may be caused by improperly placed keywords as well as an internal bug. \
    Check there aren't any keywords that aren't properly closed \
    (like an `impl` block without braces after it)"@
}

/// The message for a node that cannot stand at the top level.
pub open spec fn top_level_msg() -> Seq<char> {
    "Only `impl` blocks, expansion definitions (`def` statements), \
    `namespace` declarations, and `type` definitions may be top-level: "@
}

/// The code for a node of a method body, and the state after it.
pub open spec fn compile_node(t: STree<SpecAToken>, st: CompileState) -> CompileOutcome
    decreases t, t.children.len() + 1,
{
    let line = t.data.line;
    let cs = t.children;
    match t.data.kind {
        SpecAbstractKind::Get(field) => match lookup(st.types, st.class) {
            None => fail_at(line, st, "Cannot `get` field for external or unknown types"@),
            Some(fields) => match lookup(fields, field) {
                None => fail_at(line, st, "Unknown field `"@ + field + "` for type `"@ + st.class + "`"@),
                Some(offset) => Some(Ok(("\tget "@ + decimal(offset as nat) + "\n"@, st))),
            },
        },
        SpecAbstractKind::SetField(field) => match lookup(st.types, st.class) {
            None => fail_at(line, st, "Cannot `get` field for external or unknown types"@),
            Some(fields) => match lookup(fields, field) {
                None => fail_at(line, st, "Unknown field `"@ + field + "` for type `"@ + st.class + "`"@),
                Some(offset) => if cs.len() == 0 {
                    fail_at(line, st, "Keyword `set` missing value."@)
                } else {
                    match compile_node(cs[0], st) {
                        None => None,
                        Some(Err(e)) => Some(Err(e)),
                        Some(Ok((val, st1))) => Some(Ok((val + "\tset "@ + decimal(offset as nat) + "\n"@, st1))),
                    }
                },
            },
        },
        SpecAbstractKind::Yield => if cs.len() == 0 {
            fail_at(line, st, "Keyword `yield` missing value"@)
        } else {
            match compile_node(cs[0], st) {
                None => None,
                Some(Err(e)) => Some(Err(e)),
                Some(Ok((val, st1))) => Some(Ok((val + "\tret\n"@, st1))),
            }
        },
        SpecAbstractKind::Message => if cs.len() < 2 {
            None
        } else {
            match compile_seg(t, 2, st) {
                None => None,
                Some(Err(e)) => Some(Err(e)),
                Some(Ok((comps, st1))) => {
                    let output = concat_all(comps);
                    match name_in(cs[1].data.kind) {
                        None => fail_at(
                            line,
                            st1,
                            "Invalid message (must be in form of string literal or identifier literal)."@,
                        ),
                        Some(msg) => if cs[0].data.kind is New {
                            let obj_type = match lookup(st1.aliases, msg) {
                                Some(a) => a,
                                None => msg,
                            };
                            Some(Ok((output + "\tnew \""@ + obj_type + "\"\n\tsend \""@ + msg + "\"\n"@, st1)))
                        } else {
                            match compile_node(cs[0], st1) {
                                None => None,
                                Some(Err(e)) => Some(Err(e)),
                                Some(Ok((obj, st2))) => Some(Ok((output + obj + "\tsend \""@ + msg + "\"\n"@, st2))),
                            }
                        },
                    }
                },
            }
        },
        SpecAbstractKind::Unit => Some(Ok(("\tmain\n"@, st))),
        SpecAbstractKind::Self_ => Some(Ok(("\tthis\n"@, st))),
        SpecAbstractKind::Identifier(ident) => match lookup(st.scope, ident) {
            None => fail_at(line, st, "Unknown local variable `"@ + ident + "`"@),
            Some(local) => Some(Ok(("\tload "@ + decimal(local as nat) + " ref\n"@, st))),
        },
        SpecAbstractKind::Let(ident) => if cs.len() == 0 {
            fail_at(line, st, "Keyword `let` missing value"@)
        } else {
            match compile_node(cs[0], st) {
                None => None,
                Some(Err(e)) => Some(Err(e)),
                Some(Ok((val, st1))) => if st1.locals == u32::MAX {
                    None
                } else {
                    let local = st1.locals;
                    Some(Ok((
                        val + "\tlocal "@ + decimal(local as nat) + "\n"@,
                        CompileState { locals: (local + 1) as u32, scope: assign(st1.scope, ident, local), ..st1 },
                    )))
                },
            }
        },
        SpecAbstractKind::Number(text) => Some(Ok(("\tmint "@ + text + "\n"@, st))),
        SpecAbstractKind::Integer(n) => Some(Ok(("\tmint "@ + signed_decimal(n as int) + "\n"@, st))),
        SpecAbstractKind::Character(c) => Some(Ok(("\tmint "@ + decimal(c as nat) + "\n"@, st))),
        SpecAbstractKind::List => match compile_seg(t, 0, st) {
            None => None,
            Some(Err(e)) => Some(Err(e)),
            Some(Ok((outs, st1))) => Some(Ok((concat_all(outs) + "\tmarr "@ + decimal(cs.len()) + "\n"@, st1))),
        },
        SpecAbstractKind::String(s) => Some(Ok(("\tlstr \""@ + escape_literal(s) + "\"\n"@, st))),
        SpecAbstractKind::Block => match compile_seg(t, 0, st) {
            None => None,
            Some(Err(e)) => Some(Err(e)),
            Some(Ok((outs, st1))) => Some(Ok((concat_all(outs), CompileState { scope: st.scope, ..st1 }))),
        },
        SpecAbstractKind::Lambda(args) => {
            let res = reserve_of(t, st.scope, Seq::empty());
            match reserved_scope(seq![("f"@, 0u32)], res, 0) {
                None => None,
                Some(with_res) => {
                    let scope = param_scope(with_res, args, 0);
                    if st.lambdas == usize::MAX || res.len() + args.len() + 1 > usize::MAX {
                        None
                    } else {
                        let name = st.file + " @ "@ + st.message + " $ "@ + decimal(st.lambdas as nat);
                        let output = "\tthis ref\n\tlstr \""@ + name + "\"\n"@ + load_all(res, st.scope) + "\tmarr "@
                            + decimal(res.len()) + "\n"@ + "\tnew \"Function\"\n\tsend \"Function\"\n"@;
                        let header = "method \""@ + name + "\" "@ + decimal(res.len() + args.len() + 1) + " {\n"@;
                        let inner = CompileState {
                            scope,
                            locals: scope.len() as u32,
                            lambdas: (st.lambdas + 1) as usize,
                            ..st
                        };
                        match compile_seg(t, 0, inner) {
                            None => None,
                            Some(Err(e)) => Some(Err(e)),
                            Some(Ok((outs, st1))) => {
                                let st2 = add_method(st1, st1.class, header + concat_all(outs) + "\tret\n}\n"@);
                                Some(Ok((output, CompileState { scope: st.scope, ..st2 })))
                            },
                        }
                    }
                },
            }
        },
        SpecAbstractKind::Expansion => if cs.len() == 0 {
            fail_at(line, st, empty_expansion_msg())
        } else {
            match name_in(cs[0].data.kind) {
                None => fail_at(line, st, expansion_name_msg()),
                Some(name) => match lookup(st.expansions, name) {
                    None => fail_at(
                        line,
                        st,
                        "Unknown expansion `"@ + name + "`. \
                        If this is unexpected, make sure the \
                        intended expansion is defined *before* being used."@,
                    ),
                    Some(exp) => {
                        let labelled = contains(exp, "$label"@);
                        if labelled && st.labels == usize::MAX {
                            None
                        } else {
                            let exp1 = if labelled { replace_all(exp, "$label"@, decimal(st.labels as nat)) } else { exp };
                            let st1 = if labelled { CompileState { labels: (st.labels + 1) as usize, ..st } } else { st };
                            match compile_seg(t, 1, st1) {
                                None => None,
                                Some(Err(e)) => Some(Err(e)),
                                Some(Ok((comps, st2))) => Some(Ok((substitute(exp1, comps, 0), st2))),
                            }
                        }
                    },
                },
            }
        },
        _ => Some(Err((SpecError::NotImplemented(kind_text(t.data.kind)), st))),
    }
}

/// The code for the children of `t` from the `j`-th on, one after the other, and
/// the state after them; or the first failure.
pub open spec fn compile_seg(t: STree<SpecAToken>, j: int, st: CompileState) -> SeqOutcome
    decreases t, t.children.len() - j,
{
    if j < 0 || j >= t.children.len() {
        Some(Ok((Seq::empty(), st)))
    } else {
        match compile_node(t.children[j], st) {
            None => None,
            Some(Err(e)) => Some(Err(e)),
            Some(Ok((out, st1))) => match compile_seg(t, j + 1, st1) {
                None => None,
                Some(Err(e)) => Some(Err(e)),
                Some(Ok((outs, st2))) => Some(Ok((seq![out] + outs, st2))),
            },
        }
    }
}

/// Each field bound to its position, from the `i`-th on.
pub open spec fn field_slots(m: Seq<(Seq<char>, u32)>, fields: Seq<Seq<char>>, i: int) -> Seq<(Seq<char>, u32)>
    decreases fields.len() - i,
{
    if i < 0 || i >= fields.len() {
        m
    } else {
        field_slots(assign(m, fields[i], i as u32), fields, i + 1)
    }
}

/// The state after a top-level node: a type records its fields under its name
/// qualified with the namespace (`namespace::name`), an `impl` compiles a method for its type, a `def` records an
/// expansion; anything else is an error. `None` where the code generator cannot
/// go on.
pub open spec fn compile_top_of(t: STree<SpecAToken>, st: CompileState) -> TopOutcome {
    let line = t.data.line;
    match t.data.kind {
        SpecAbstractKind::Type(name, fields) => {
            let qualified = st.namespace + "::"@ + name;
            Some(Ok(CompileState {
                aliases: assign(st.aliases, name, qualified),
                types: assign(st.types, qualified, field_slots(Seq::empty(), fields, 0)),
                ..st
            }))
        },
        SpecAbstractKind::Implement(msg, args, target) => {
            let class = match lookup(st.aliases, target) {
                Some(a) => a,
                None => target,
            };
            if args.len() > u32::MAX {
                None
            } else {
                let st1 = CompileState {
                    lambdas: 0,
                    message: msg,
                    scope: field_slots(Seq::empty(), args, 0),
                    class,
                    labels: 0,
                    locals: args.len() as u32,
                    ..st
                };
                if t.children.len() == 0 {
                    Some(Err((SpecError::CompileError(line, st.file, "`impl` block missing implementation"@), st1)))
                } else {
                    let header = "method \""@ + msg + "\" "@ + decimal(args.len()) + " {\n"@;
                    let body = if t.children[0].data.kind is Block {
                        compile_seg(t.children[0], 0, st1)
                    } else {
                        compile_seg(t, 0, st1)
                    };
                    match body {
                        None => None,
                        Some(Err(e)) => Some(Err(e)),
                        Some(Ok((outs, st2))) => Some(Ok(add_method(st2, class, header + concat_all(outs) + "\tret\n}\n"@))),
                    }
                }
            }
        },
        SpecAbstractKind::Define(name, expansion) => Some(Ok(CompileState {
            expansions: assign(st.expansions, name, expansion),
            ..st
        })),
        _ => Some(Err((SpecError::CompileError(line, st.file, top_level_msg() + kind_text(t.data.kind)), st))),
    }
}

/// The state after the top-level children of `t` from the `j`-th on.
pub open spec fn compile_tops(t: STree<SpecAToken>, j: int, st: CompileState) -> TopOutcome
    decreases t.children.len() - j,
{
    if j < 0 || j >= t.children.len() {
        Some(Ok(st))
    } else {
        match compile_top_of(t.children[j], st) {
            None => None,
            Some(Err(e)) => Some(Err(e)),
            Some(Ok(st1)) => compile_tops(t, j + 1, st1),
        }
    }
}

/// The state the code generator starts from.
pub open spec fn initial_state() -> CompileState {
    CompileState {
        scope: Seq::empty(),
        file: "prelude.rad"@,
        class: Seq::empty(),
        message: Seq::empty(),
        lambdas: 0,
        types: Seq::empty(),
        aliases: Seq::empty(),
        implementations: Seq::empty(),
        expansions: Seq::empty(),
        labels: 0,
        namespace: Seq::empty(),
        locals: 0,
    }
}

/// The path of the file for the methods of a type: native types (those with
/// fields) are `.oovmt` files, others `.oovmm` modules; `<`, `>`, `::` and `..`
/// are spelled out.
pub open spec fn file_path(file: Seq<char>, name: Seq<char>, native: bool) -> Seq<char> {
    let path = "Radia."@ + file + "."@ + name + (if native { ".oovmt"@ } else { ".oovmm"@ });
    replace_all(replace_all(replace_all(replace_all(path, "<"@, ".oovm."@), ">"@, ".magic."@), "::"@, ".ns."@), ".."@, "."@)
}

/// The methods, each followed by a newline.
pub open spec fn method_lines(methods: Seq<Seq<char>>) -> Seq<char>
    decreases methods.len(),
{
    if methods.len() == 0 {
        Seq::empty()
    } else {
        method_lines(methods.drop_last()) + methods.last() + "\n"@
    }
}

/// The header and methods of the file for a type.
pub open spec fn file_contents(st: CompileState, name: Seq<char>, methods: Seq<Seq<char>>) -> Seq<char> {
    let header = match lookup(st.types, name) {
        Some(fields) => "type object \""@ + name + "\" "@ + decimal(fields.len()) + " #\n\n"@,
        None => "mod object \""@ + name + "\" 0 #\n\n"@,
    };
    header + method_lines(methods)
}

/// The files of a compiled program: one for each type with methods, in the order
/// their first methods were compiled, as a path and its contents.
pub open spec fn program_files(st: CompileState, file: Seq<char>) -> Seq<(Seq<char>, Seq<char>)> {
    Seq::new(
        st.implementations.len(),
        |i: int| {
            let (name, methods) = st.implementations[i];
            (file_path(file, name, lookup(st.types, name) is Some), file_contents(st, name, methods))
        },
    )
}

/// The state after the top-level nodes of a tree whose root is `Root`; the
/// compile error at line 0 of `file` where it is not.
pub open spec fn compile_special_of(t: STree<SpecAToken>, file: Seq<char>, st: CompileState) -> TopOutcome {
    if !(t.data.kind is Root) {
        Some(Err((SpecError::CompileError(0, file, root_missing_msg()), st)))
    } else {
        compile_tops(t, 0, st)
    }
}

/// The files of a program, after the prelude's top-level nodes and then the
/// program's: where the program has a root, the error of parsing the prelude, or
/// of the first node that fails, or `None` where the code generator cannot go on.
pub open spec fn compile_program_of(
    ast: STree<SpecAToken>,
    file: Seq<char>,
    prelude: Result<STree<SpecAToken>, SpecError>,
) -> Option<Result<Seq<(Seq<char>, Seq<char>)>, SpecError>> {
    if !(ast.data.kind is Root) {
        Some(Err(SpecError::CompileError(0, file, root_missing_msg())))
    } else if prelude is Err {
        Some(Err(prelude->Err_0))
    } else {
        match compile_special_of(prelude->Ok_0, "prelude.rad"@, initial_state()) {
            None => None,
            Some(Err((e, _))) => Some(Err(e)),
            Some(Ok(st1)) => match compile_tops(ast, 0, CompileState { file, ..st1 }) {
                None => None,
                Some(Err((e, _))) => Some(Err(e)),
                Some(Ok(st2)) => Some(Ok(program_files(st2, file))),
            },
        }
    }
}

/// The parts of the state that compiling a method body leaves as they are, and
/// the counters of lambdas and labels, which only grow.
pub open spec fn keeps_context(a: CompileState, b: CompileState) -> bool {
    &&& b.file == a.file
    &&& b.class == a.class
    &&& b.message == a.message
    &&& b.types == a.types
    &&& b.aliases == a.aliases
    &&& b.expansions == a.expansions
    &&& b.namespace == a.namespace
    &&& a.lambdas <= b.lambdas
    &&& a.labels <= b.labels
}

/// Compiling a node of a method body changes neither the file, the type and
/// message being compiled, the fields of the types, the aliases, the expansions
/// nor the namespace, and never lowers the counters of lambdas and labels.
pub proof fn lemma_compile_keeps_context(t: STree<SpecAToken>, st: CompileState)
    ensures
        compile_node(t, st) matches Some(Ok((_, st2))) ==> keeps_context(st, st2),
    decreases t, t.children.len() + 1,
{
    let cs = t.children;
    match t.data.kind {
        SpecAbstractKind::SetField(_) | SpecAbstractKind::Yield | SpecAbstractKind::Let(_) => {
            if cs.len() > 0 {
                lemma_compile_keeps_context(cs[0], st);
            }
        },
        SpecAbstractKind::Message => {
            if cs.len() >= 2 {
                lemma_seg_keeps_context(t, 2, st);
                if let Some(Ok((_, st1))) = compile_seg(t, 2, st) {
                    lemma_compile_keeps_context(cs[0], st1);
                }
            }
        },
        SpecAbstractKind::List | SpecAbstractKind::Block => {
            lemma_seg_keeps_context(t, 0, st);
        },
        SpecAbstractKind::Lambda(args) => {
            let res = reserve_of(t, st.scope, Seq::empty());
            if let Some(with_res) = reserved_scope(seq![("f"@, 0u32)], res, 0) {
                let scope = param_scope(with_res, args, 0);
                if !(st.lambdas == usize::MAX || res.len() + args.len() + 1 > usize::MAX) {
                    let inner = CompileState {
                        scope,
                        locals: scope.len() as u32,
                        lambdas: (st.lambdas + 1) as usize,
                        ..st
                    };
                    lemma_seg_keeps_context(t, 0, inner);
                }
            }
        },
        SpecAbstractKind::Expansion => {
            if cs.len() > 0 {
                if let Some(name) = name_in(cs[0].data.kind) {
                    if let Some(exp) = lookup(st.expansions, name) {
                        let labelled = contains(exp, "$label"@);
                        if !(labelled && st.labels == usize::MAX) {
                            let st1 = if labelled { CompileState { labels: (st.labels + 1) as usize, ..st } } else { st };
                            lemma_seg_keeps_context(t, 1, st1);
                        }
                    }
                }
            }
        },
        _ => {},
    }
}

/// `lemma_compile_keeps_context` for the children of `t` from the `j`-th on.
pub proof fn lemma_seg_keeps_context(t: STree<SpecAToken>, j: int, st: CompileState)
    ensures
        compile_seg(t, j, st) matches Some(Ok((_, st2))) ==> keeps_context(st, st2),
    decreases t, t.children.len() - j,
{
    if 0 <= j < t.children.len() {
        lemma_compile_keeps_context(t.children[j], st);
        if let Some(Ok((_, st1))) = compile_node(t.children[j], st) {
            lemma_seg_keeps_context(t, j + 1, st1);
        }
    }
}

/// A block and a lambda leave the scope of local variables as they found it.
pub proof fn lemma_scope_restored(t: STree<SpecAToken>, st: CompileState)
    requires
        t.data.kind is Block || t.data.kind is Lambda,
    ensures
        compile_node(t, st) matches Some(Ok((_, st2))) ==> st2.scope == st.scope,
{
}

/// The maps of the state that compiling keeps free of repeated keys.
pub open spec fn maps_distinct(st: CompileState) -> bool {
    &&& distinct_keys(st.scope)
    &&& distinct_keys(st.implementations)
}

proof fn lemma_reserved_scope_distinct(scope: Seq<(Seq<char>, u32)>, res: Seq<Seq<char>>, i: int)
    requires
        distinct_keys(scope),
    ensures
        reserved_scope(scope, res, i) matches Some(s) ==> distinct_keys(s),
    decreases res.len() - i,
{
    if 0 <= i < res.len() && (i as u32) != u32::MAX {
        lemma_assign_distinct(scope, res[i], ((i as u32) + 1) as u32);
        lemma_reserved_scope_distinct(assign(scope, res[i], ((i as u32) + 1) as u32), res, i + 1);
    }
}

proof fn lemma_param_scope_distinct(scope: Seq<(Seq<char>, u32)>, args: Seq<Seq<char>>, i: int)
    requires
        distinct_keys(scope),
    ensures
        distinct_keys(param_scope(scope, args, i)),
    decreases args.len() - i,
{
    if 0 <= i < args.len() {
        lemma_assign_distinct(scope, args[i], scope.len() as u32);
        lemma_param_scope_distinct(assign(scope, args[i], scope.len() as u32), args, i + 1);
    }
}

/// Compiling a node of a method body keeps each local variable in one slot and
/// the methods of each type in one list.
pub proof fn lemma_compile_maps_distinct(t: STree<SpecAToken>, st: CompileState)
    requires
        maps_distinct(st),
    ensures
        compile_node(t, st) matches Some(Ok((_, st2))) ==> maps_distinct(st2),
    decreases t, t.children.len() + 1,
{
    let cs = t.children;
    match t.data.kind {
        SpecAbstractKind::SetField(_) | SpecAbstractKind::Yield => {
            if cs.len() > 0 {
                lemma_compile_maps_distinct(cs[0], st);
            }
        },
        SpecAbstractKind::Let(ident) => {
            if cs.len() > 0 {
                lemma_compile_maps_distinct(cs[0], st);
                if let Some(Ok((_, st1))) = compile_node(cs[0], st) {
                    lemma_assign_distinct(st1.scope, ident, st1.locals);
                }
            }
        },
        SpecAbstractKind::Message => {
            if cs.len() >= 2 {
                lemma_seg_maps_distinct(t, 2, st);
                if let Some(Ok((_, st1))) = compile_seg(t, 2, st) {
                    lemma_compile_maps_distinct(cs[0], st1);
                }
            }
        },
        SpecAbstractKind::List | SpecAbstractKind::Block => {
            lemma_seg_maps_distinct(t, 0, st);
        },
        SpecAbstractKind::Lambda(args) => {
            let res = reserve_of(t, st.scope, Seq::empty());
            let start = seq![("f"@, 0u32)];
            lemma_reserved_scope_distinct(start, res, 0);
            if let Some(with_res) = reserved_scope(start, res, 0) {
                let scope = param_scope(with_res, args, 0);
                lemma_param_scope_distinct(with_res, args, 0);
                if !(st.lambdas == usize::MAX || res.len() + args.len() + 1 > usize::MAX) {
                    let name = st.file + " @ "@ + st.message + " $ "@ + decimal(st.lambdas as nat);
                    let header = "method \""@ + name + "\" "@ + decimal(res.len() + args.len() + 1) + " {\n"@;
                    let inner = CompileState {
                        scope,
                        locals: scope.len() as u32,
                        lambdas: (st.lambdas + 1) as usize,
                        ..st
                    };
                    lemma_seg_maps_distinct(t, 0, inner);
                    if let Some(Ok((outs, st1))) = compile_seg(t, 0, inner) {
                        let methods = match lookup(st1.implementations, st1.class) {
                            Some(m) => m,
                            None => Seq::empty(),
                        };
                        lemma_assign_distinct(
                            st1.implementations,
                            st1.class,
                            methods.push(header + concat_all(outs) + "\tret\n}\n"@),
                        );
                    }
                }
            }
        },
        SpecAbstractKind::Expansion => {
            if cs.len() > 0 {
                if let Some(name) = name_in(cs[0].data.kind) {
                    if let Some(exp) = lookup(st.expansions, name) {
                        let labelled = contains(exp, "$label"@);
                        if !(labelled && st.labels == usize::MAX) {
                            let st1 = if labelled { CompileState { labels: (st.labels + 1) as usize, ..st } } else { st };
                            lemma_seg_maps_distinct(t, 1, st1);
                        }
                    }
                }
            }
        },
        _ => {},
    }
}

/// `lemma_compile_maps_distinct` for the children of `t` from the `j`-th on.
pub proof fn lemma_seg_maps_distinct(t: STree<SpecAToken>, j: int, st: CompileState)
    requires
        maps_distinct(st),
    ensures
        compile_seg(t, j, st) matches Some(Ok((_, st2))) ==> maps_distinct(st2),
    decreases t, t.children.len() - j,
{
    if 0 <= j < t.children.len() {
        lemma_compile_maps_distinct(t.children[j], st);
        if let Some(Ok((_, st1))) = compile_node(t.children[j], st) {
            lemma_seg_maps_distinct(t, j + 1, st1);
        }
    }
}

proof fn lemma_field_slots_distinct(m: Seq<(Seq<char>, u32)>, fields: Seq<Seq<char>>, i: int)
    requires
        distinct_keys(m),
    ensures
        distinct_keys(field_slots(m, fields, i)),
    decreases fields.len() - i,
{
    if 0 <= i < fields.len() {
        lemma_assign_distinct(m, fields[i], i as u32);
        lemma_field_slots_distinct(assign(m, fields[i], i as u32), fields, i + 1);
    }
}

/// Compiling top-level nodes keeps the methods of each type in one list, so that
/// each type gets one file, and keeps each local variable in one slot.
pub proof fn lemma_tops_maps_distinct(t: STree<SpecAToken>, j: int, st: CompileState)
    requires
        maps_distinct(st),
    ensures
        compile_tops(t, j, st) matches Some(Ok(st2)) ==> maps_distinct(st2),
    decreases t.children.len() - j,
{
    if 0 <= j < t.children.len() {
        let c = t.children[j];
        if let SpecAbstractKind::Implement(msg, args, target) = c.data.kind {
            let class = match lookup(st.aliases, target) {
                Some(a) => a,
                None => target,
            };
            if args.len() <= u32::MAX && c.children.len() > 0 {
                let st1 = CompileState {
                    lambdas: 0,
                    message: msg,
                    scope: field_slots(Seq::empty(), args, 0),
                    class,
                    labels: 0,
                    locals: args.len() as u32,
                    ..st
                };
                lemma_field_slots_distinct(Seq::empty(), args, 0);
                let header = "method \""@ + msg + "\" "@ + decimal(args.len()) + " {\n"@;
                if c.children[0].data.kind is Block {
                    lemma_seg_maps_distinct(c.children[0], 0, st1);
                } else {
                    lemma_seg_maps_distinct(c, 0, st1);
                }
                let body = if c.children[0].data.kind is Block {
                    compile_seg(c.children[0], 0, st1)
                } else {
                    compile_seg(c, 0, st1)
                };
                if let Some(Ok((outs, st2))) = body {
                    let methods = match lookup(st2.implementations, class) {
                        Some(m) => m,
                        None => Seq::empty(),
                    };
                    lemma_assign_distinct(st2.implementations, class, methods.push(header + concat_all(outs) + "\tret\n}\n"@));
                }
            }
        }
        if let Some(Ok(st1)) = compile_top_of(c, st) {
            lemma_tops_maps_distinct(t, j + 1, st1);
        }
    }
}

/// The files of a compiled program are those of a state in which each type has
/// one list of methods: one file for each type, in the order of the list, with the
/// path for the type and its header and methods; no type gets two files.
pub proof fn lemma_one_file_per_type(
    ast: STree<SpecAToken>,
    file: Seq<char>,
    prelude: Result<STree<SpecAToken>, SpecError>,
)
    ensures
        compile_program_of(ast, file, prelude) matches Some(Ok(files)) ==> exists|st: CompileState|
            #![trigger program_files(st, file)]
            {
                &&& distinct_keys(st.implementations)
                &&& files == program_files(st, file)
                &&& files.len() == st.implementations.len()
                &&& forall|i: int| 0 <= i < files.len() ==> {
                    let (name, methods) = #[trigger] st.implementations[i];
                    files[i] == (file_path(file, name, lookup(st.types, name) is Some), file_contents(st, name, methods))
                }
            },
{
    let st0 = initial_state();
    assert(maps_distinct(st0));
    if ast.data.kind is Root && prelude is Ok && prelude->Ok_0.data.kind is Root {
        lemma_tops_maps_distinct(prelude->Ok_0, 0, st0);
        if let Some(Ok(st1)) = compile_tops(prelude->Ok_0, 0, st0) {
            let st1f = CompileState { file, ..st1 };
            lemma_tops_maps_distinct(ast, 0, st1f);
            if let Some(Ok(st2)) = compile_tops(ast, 0, st1f) {
                assert(distinct_keys(st2.implementations) && program_files(st2, file) == program_files(st2, file));
            }
        }
    }
}

/// A message send to `new` pushes the arguments' code, in order, then makes an
/// object of the type the message names (through its alias, if it has one) and
/// sends it the message.
pub proof fn lemma_message_new(t: STree<SpecAToken>, st: CompileState)
    requires
        t.data.kind is Message,
        t.children.len() >= 2,
        t.children[0].data.kind is New,
    ensures
        compile_node(t, st) matches Some(Ok((out, st1))) ==> exists|args: Seq<Seq<char>>|
            #![trigger concat_all(args)]
            {
                let msg = name_in(t.children[1].data.kind)->Some_0;
                let obj_type = if lookup(st1.aliases, msg) is Some { lookup(st1.aliases, msg)->Some_0 } else { msg };
                &&& compile_seg(t, 2, st) == Some(Ok::<(Seq<Seq<char>>, CompileState), (SpecError, CompileState)>((args, st1)))
                &&& args.len() == t.children.len() - 2
                &&& out == concat_all(args) + "\tnew \""@ + obj_type + "\"\n\tsend \""@ + msg + "\"\n"@
            },
{
    lemma_seg_len(t, 2, st);
    if let Some(Ok((args, st1))) = compile_seg(t, 2, st) {
        assert(compile_seg(t, 2, st) == Some(Ok::<(Seq<Seq<char>>, CompileState), (SpecError, CompileState)>((args, st1))));
    }
}

/// A message send whose receiver is not `new` pushes the arguments' code, in
/// order, then the receiver's code, computed after the arguments, right before
/// the `send` of the message named by its second child.
pub proof fn lemma_message_order(t: STree<SpecAToken>, st: CompileState)
    requires
        t.data.kind is Message,
        t.children.len() >= 2,
        !(t.children[0].data.kind is New),
    ensures
        compile_node(t, st) matches Some(Ok((out, st3))) ==> exists|args: Seq<Seq<char>>, st1: CompileState, recv: Seq<char>|
            {
                &&& compile_seg(t, 2, st) == Some(Ok::<(Seq<Seq<char>>, CompileState), (SpecError, CompileState)>((args, st1)))
                &&& args.len() == t.children.len() - 2
                &&& compile_node(t.children[0], st1) == Some(Ok::<(Seq<char>, CompileState), (SpecError, CompileState)>((recv, st3)))
                &&& out == concat_all(args) + recv + "\tsend \""@ + name_in(t.children[1].data.kind)->Some_0 + "\"\n"@
            },
{
    lemma_seg_len(t, 2, st);
    if let Some(Ok((args, st1))) = compile_seg(t, 2, st) {
        if let Some(Ok((recv, st2))) = compile_node(t.children[0], st1) {
            if let Some(Ok((out, st3))) = compile_node(t, st) {
                assert(compile_seg(t, 2, st) == Some(Ok::<(Seq<Seq<char>>, CompileState), (SpecError, CompileState)>((args, st1))));
            }
        }
    }
}

/// `compile_seg` gives one text for each child it compiles.
pub proof fn lemma_seg_len(t: STree<SpecAToken>, j: int, st: CompileState)
    requires
        0 <= j <= t.children.len(),
    ensures
        compile_seg(t, j, st) matches Some(Ok((texts, _))) ==> texts.len() == t.children.len() - j,
    decreases t.children.len() - j,
{
    if j < t.children.len() {
        if let Some(Ok((_, st1))) = compile_node(t.children[j], st) {
            lemma_seg_len(t, j + 1, st1);
        }
    }
}

proof fn lemma_load_all_lines(res: Seq<Seq<char>>, scope: Seq<(Seq<char>, u32)>)
    ensures
        load_all(res, scope) == concat_all(
            Seq::new(res.len(), |i: int| "\tload "@ + decimal(lookup(scope, res[i]).unwrap() as nat) + " ref\n"@),
        ),
    decreases res.len(),
{
    let lines = Seq::new(res.len(), |i: int| "\tload "@ + decimal(lookup(scope, res[i]).unwrap() as nat) + " ref\n"@);
    if res.len() > 0 {
        lemma_load_all_lines(res.drop_last(), scope);
        let prev = Seq::new(
            res.drop_last().len(),
            |i: int| "\tload "@ + decimal(lookup(scope, res.drop_last()[i]).unwrap() as nat) + " ref\n"@,
        );
        assert(lines.drop_last() =~= prev);
    } else {
        assert(lines =~= Seq::<Seq<char>>::empty());
    }
}

proof fn lemma_reserve_distinct(t: STree<SpecAToken>, scope: Seq<(Seq<char>, u32)>, acc: Seq<Seq<char>>)
    requires
        acc.no_duplicates(),
    ensures
        reserve_of(t, scope, acc).no_duplicates(),
    decreases t, t.children.len() + 1,
{
    match t.data.kind {
        SpecAbstractKind::Identifier(id) => {
            if lookup(scope, id) is Some && !acc.contains(id) {
                assert forall|i: int, j: int| 0 <= i < j < acc.push(id).len() implies acc.push(id)[i] != acc.push(id)[j] by {
                    if j == acc.len() {
                        assert(acc.contains(acc[i]));
                    }
                }
            }
        },
        _ => lemma_reserve_seg_distinct(t, 0, scope, acc),
    }
}

proof fn lemma_reserve_seg_distinct(t: STree<SpecAToken>, j: int, scope: Seq<(Seq<char>, u32)>, acc: Seq<Seq<char>>)
    requires
        acc.no_duplicates(),
    ensures
        reserve_seg(t, j, scope, acc).no_duplicates(),
    decreases t, t.children.len() - j,
{
    if 0 <= j < t.children.len() {
        lemma_reserve_distinct(t.children[j], scope, acc);
        lemma_reserve_seg_distinct(t, j + 1, scope, reserve_of(t.children[j], scope, acc));
    }
}

/// The identifier `x` occurs in `t`.
pub open spec fn mentions(t: STree<SpecAToken>, x: Seq<char>) -> bool
    decreases t, t.children.len() + 1,
{
    match t.data.kind {
        SpecAbstractKind::Identifier(id) => id == x,
        _ => mentions_from(t, 0, x),
    }
}

/// The identifier `x` occurs in a child of `t` from the `j`-th on.
pub open spec fn mentions_from(t: STree<SpecAToken>, j: int, x: Seq<char>) -> bool
    decreases t, t.children.len() - j,
{
    if j < 0 || j >= t.children.len() {
        false
    } else {
        mentions(t.children[j], x) || mentions_from(t, j + 1, x)
    }
}

proof fn lemma_reserve_names(t: STree<SpecAToken>, scope: Seq<(Seq<char>, u32)>, acc: Seq<Seq<char>>)
    ensures
        forall|y: Seq<char>| acc.contains(y) ==> #[trigger] reserve_of(t, scope, acc).contains(y),
        forall|y: Seq<char>| mentions(t, y) && lookup(scope, y) is Some ==> #[trigger] reserve_of(t, scope, acc).contains(y),
        forall|y: Seq<char>| #[trigger] reserve_of(t, scope, acc).contains(y) ==> acc.contains(y) || (mentions(t, y)
            && lookup(scope, y) is Some),
    decreases t, t.children.len() + 1,
{
    match t.data.kind {
        SpecAbstractKind::Identifier(id) => {
            let r = reserve_of(t, scope, acc);
            if lookup(scope, id) is Some && !acc.contains(id) {
                assert(r == acc.push(id));
                assert(r[acc.len() as int] == id);
                assert forall|y: Seq<char>| acc.contains(y) implies #[trigger] r.contains(y) by {
                    let k = choose|k: int| 0 <= k < acc.len() && acc[k] == y;
                    assert(r[k] == y);
                }
                assert forall|y: Seq<char>| #[trigger] r.contains(y) implies acc.contains(y) || (mentions(t, y)
                    && lookup(scope, y) is Some) by {
                    let k = choose|k: int| 0 <= k < r.len() && r[k] == y;
                    if k < acc.len() {
                        assert(acc[k] == y);
                    }
                }
            }
        },
        _ => {
            lemma_reserve_seg_names(t, 0, scope, acc);
            let r = reserve_of(t, scope, acc);
            assert(r == reserve_seg(t, 0, scope, acc));
            assert forall|y: Seq<char>| acc.contains(y) implies #[trigger] r.contains(y) by {
                assert(reserve_seg(t, 0, scope, acc).contains(y));
            }
            assert forall|y: Seq<char>| mentions(t, y) && lookup(scope, y) is Some implies #[trigger] r.contains(y) by {
                assert(mentions_from(t, 0, y));
                assert(reserve_seg(t, 0, scope, acc).contains(y));
            }
            assert forall|y: Seq<char>| #[trigger] r.contains(y) implies acc.contains(y) || (mentions(t, y) && lookup(
                scope,
                y,
            ) is Some) by {
                assert(reserve_seg(t, 0, scope, acc).contains(y));
            }
        },
    }
}

proof fn lemma_reserve_seg_names(t: STree<SpecAToken>, j: int, scope: Seq<(Seq<char>, u32)>, acc: Seq<Seq<char>>)
    requires
        0 <= j,
    ensures
        forall|y: Seq<char>| acc.contains(y) ==> #[trigger] reserve_seg(t, j, scope, acc).contains(y),
        forall|y: Seq<char>| mentions_from(t, j, y) && lookup(scope, y) is Some ==> #[trigger] reserve_seg(
            t,
            j,
            scope,
            acc,
        ).contains(y),
        forall|y: Seq<char>| #[trigger] reserve_seg(t, j, scope, acc).contains(y) ==> acc.contains(y) || (
        mentions_from(t, j, y) && lookup(scope, y) is Some),
    decreases t, t.children.len() - j,
{
    if j < t.children.len() {
        let c = t.children[j];
        let a1 = reserve_of(c, scope, acc);
        lemma_reserve_names(c, scope, acc);
        lemma_reserve_seg_names(t, j + 1, scope, a1);
        let r = reserve_seg(t, j, scope, acc);
        assert(r == reserve_seg(t, j + 1, scope, a1));
        assert forall|y: Seq<char>| acc.contains(y) implies #[trigger] r.contains(y) by {
            assert(a1.contains(y));
            assert(reserve_seg(t, j + 1, scope, a1).contains(y));
        }
        assert forall|y: Seq<char>| mentions_from(t, j, y) && lookup(scope, y) is Some implies #[trigger] r.contains(y) by {
            if mentions(c, y) {
                assert(a1.contains(y));
            }
            assert(reserve_seg(t, j + 1, scope, a1).contains(y));
        }
        assert forall|y: Seq<char>| #[trigger] r.contains(y) implies acc.contains(y) || (mentions_from(t, j, y)
            && lookup(scope, y) is Some) by {
            assert(reserve_seg(t, j + 1, scope, a1).contains(y));
            if a1.contains(y) {
                assert(acc.contains(y) || (mentions(c, y) && lookup(scope, y) is Some));
            }
        }
    }
}

/// A lambda captures each name it uses that the scope around it binds, each
/// once: its code loads, for each captured name in turn, the slot the scope
/// around it binds that name to, then makes an array of them and a `Function`
/// over it.
pub proof fn lemma_lambda_captures(t: STree<SpecAToken>, st: CompileState)
    requires
        t.data.kind is Lambda,
    ensures
        compile_node(t, st) matches Some(Ok((out, _))) ==> {
            let res = reserve_of(t, st.scope, Seq::empty());
            let name = st.file + " @ "@ + st.message + " $ "@ + decimal(st.lambdas as nat);
            &&& res.no_duplicates()
            &&& forall|x: Seq<char>| #[trigger] res.contains(x) <==> mentions(t, x) && lookup(st.scope, x) is Some
            &&& out == "\tthis ref\n\tlstr \""@ + name + "\"\n"@ + concat_all(
                Seq::new(res.len(), |i: int| "\tload "@ + decimal(lookup(st.scope, res[i]).unwrap() as nat) + " ref\n"@),
            ) + "\tmarr "@ + decimal(res.len()) + "\n"@ + "\tnew \"Function\"\n\tsend \"Function\"\n"@
        },
{
    let res = reserve_of(t, st.scope, Seq::empty());
    lemma_reserve_distinct(t, st.scope, Seq::empty());
    lemma_reserve_names(t, st.scope, Seq::empty());
    lemma_load_all_lines(res, st.scope);
}

/// The slots of a scope are distinct and all below the local counter: the next
/// local gets a slot that no variable in scope holds.
pub open spec fn slots_fresh(scope: Seq<(Seq<char>, u32)>, locals: u32) -> bool {
    &&& forall|i: int| 0 <= i < scope.len() ==> #[trigger] scope[i].1 < locals
    &&& forall|i: int, j: int| 0 <= i < j < scope.len() ==> #[trigger] scope[i].1 != #[trigger] scope[j].1
}

/// A tree of a method body holds no lambda.
pub open spec fn lambda_free(t: STree<SpecAToken>) -> bool
    decreases t,
{
    !(t.data.kind is Lambda) && forest_lambda_free(t.children)
}

/// `lambda_free` of each tree of a sequence.
pub open spec fn forest_lambda_free(ts: Seq<STree<SpecAToken>>) -> bool
    decreases ts,
{
    ts.len() == 0 || (forest_lambda_free(ts.subrange(0, ts.len() - 1)) && lambda_free(ts[ts.len() - 1]))
}

proof fn lemma_forest_lambda_free(ts: Seq<STree<SpecAToken>>)
    requires
        forest_lambda_free(ts),
    ensures
        forall|i: int| 0 <= i < ts.len() ==> lambda_free(#[trigger] ts[i]),
    decreases ts.len(),
{
    if ts.len() > 0 {
        let pre = ts.subrange(0, ts.len() - 1);
        lemma_forest_lambda_free(pre);
        assert forall|i: int| 0 <= i < ts.len() implies lambda_free(#[trigger] ts[i]) by {
            if i < ts.len() - 1 {
                assert(pre[i] == ts[i]);
            }
        }
    }
}

proof fn lemma_assign_fresh(e: Seq<(Seq<char>, u32)>, k: Seq<char>, v: u32)
    requires
        forall|i: int| 0 <= i < e.len() ==> #[trigger] e[i].1 < v,
        forall|i: int, j: int| 0 <= i < j < e.len() ==> #[trigger] e[i].1 != #[trigger] e[j].1,
    ensures
        forall|i: int| 0 <= i < assign(e, k, v).len() ==> #[trigger] assign(e, k, v)[i].1 <= v,
        forall|i: int, j: int| 0 <= i < j < assign(e, k, v).len() ==> #[trigger] assign(e, k, v)[i].1 != #[trigger] assign(
            e,
            k,
            v,
        )[j].1,
{
    lemma_key_index(e, k);
    let a = assign(e, k, v);
    let x = key_index(e, k);
    assert forall|i: int| 0 <= i < a.len() implies #[trigger] a[i].1 <= v by {
        if i != x && i < e.len() {
            assert(a[i] == e[i]);
        }
    }
    assert forall|i: int, j: int| 0 <= i < j < a.len() implies #[trigger] a[i].1 != #[trigger] a[j].1 by {
        if i != x && i < e.len() {
            assert(a[i] == e[i]);
        }
        if j != x && j < e.len() {
            assert(a[j] == e[j]);
        }
    }
}

proof fn lemma_fresh_node(t: STree<SpecAToken>, st: CompileState)
    requires
        slots_fresh(st.scope, st.locals),
        lambda_free(t),
    ensures
        compile_node(t, st) matches Some(Ok((_, st2))) ==> slots_fresh(st2.scope, st2.locals) && st.locals <= st2.locals,
    decreases t, t.children.len() + 1,
{
    let cs = t.children;
    lemma_forest_lambda_free(cs);
    match t.data.kind {
        SpecAbstractKind::SetField(_) | SpecAbstractKind::Yield => {
            if cs.len() > 0 {
                lemma_fresh_node(cs[0], st);
            }
        },
        SpecAbstractKind::Let(ident) => {
            if cs.len() > 0 {
                lemma_fresh_node(cs[0], st);
                if let Some(Ok((_, st1))) = compile_node(cs[0], st) {
                    if st1.locals < u32::MAX {
                        lemma_assign_fresh(st1.scope, ident, st1.locals);
                    }
                }
            }
        },
        SpecAbstractKind::Message => {
            if cs.len() >= 2 {
                lemma_fresh_seg(t, 2, st);
                if let Some(Ok((_, st1))) = compile_seg(t, 2, st) {
                    lemma_fresh_node(cs[0], st1);
                }
            }
        },
        SpecAbstractKind::List | SpecAbstractKind::Block => {
            lemma_fresh_seg(t, 0, st);
        },
        SpecAbstractKind::Expansion => {
            if cs.len() > 0 {
                if let Some(name) = name_in(cs[0].data.kind) {
                    if let Some(exp) = lookup(st.expansions, name) {
                        let labelled = contains(exp, "$label"@);
                        if !(labelled && st.labels == usize::MAX) {
                            let st1 = if labelled { CompileState { labels: (st.labels + 1) as usize, ..st } } else { st };
                            lemma_fresh_seg(t, 1, st1);
                        }
                    }
                }
            }
        },
        _ => {},
    }
}

proof fn lemma_fresh_seg(t: STree<SpecAToken>, j: int, st: CompileState)
    requires
        slots_fresh(st.scope, st.locals),
        forest_lambda_free(t.children),
    ensures
        compile_seg(t, j, st) matches Some(Ok((_, st2))) ==> slots_fresh(st2.scope, st2.locals) && st.locals <= st2.locals,
    decreases t, t.children.len() - j,
{
    lemma_forest_lambda_free(t.children);
    if 0 <= j < t.children.len() {
        lemma_fresh_node(t.children[j], st);
        if let Some(Ok((_, st1))) = compile_node(t.children[j], st) {
            lemma_fresh_seg(t, j + 1, st1);
        }
    }
}

proof fn lemma_field_slots_fresh(m: Seq<(Seq<char>, u32)>, fields: Seq<Seq<char>>, i: int)
    requires
        0 <= i <= fields.len() <= u32::MAX,
        forall|k: int| 0 <= k < m.len() ==> #[trigger] m[k].1 < i,
        forall|a: int, b: int| 0 <= a < b < m.len() ==> #[trigger] m[a].1 != #[trigger] m[b].1,
    ensures
        slots_fresh(field_slots(m, fields, i), fields.len() as u32),
    decreases fields.len() - i,
{
    if i < fields.len() {
        lemma_assign_fresh(m, fields[i], i as u32);
        lemma_field_slots_fresh(assign(m, fields[i], i as u32), fields, i + 1);
    }
}

/// In a method without lambdas, the parameters hold the first slots and each
/// `let` takes a slot that no parameter or earlier local holds: after an `impl`
/// is compiled, the counter of locals is at least the number of its parameters,
/// and the variables in scope hold distinct slots, all below the counter.
pub proof fn lemma_impl_slots(t: STree<SpecAToken>, st: CompileState)
    requires
        t.data.kind is Implement,
        lambda_free(t),
    ensures
        compile_top_of(t, st) matches Some(Ok(st2)) ==> st2.locals >= t.data.kind->Implement_1.len() && slots_fresh(
            st2.scope,
            st2.locals,
        ),
{
    let args = t.data.kind->Implement_1;
    lemma_forest_lambda_free(t.children);
    if args.len() <= u32::MAX && t.children.len() > 0 {
        lemma_field_slots_fresh(Seq::empty(), args, 0);
        let msg = t.data.kind->Implement_0;
        let target = t.data.kind->Implement_2;
        let class = match lookup(st.aliases, target) {
            Some(a) => a,
            None => target,
        };
        let st1 = CompileState {
            lambdas: 0,
            message: msg,
            scope: field_slots(Seq::empty(), args, 0),
            class,
            labels: 0,
            locals: args.len() as u32,
            ..st
        };
        if t.children[0].data.kind is Block {
            lemma_fresh_seg(t.children[0], 0, st1);
        } else {
            lemma_fresh_seg(t, 0, st1);
        }
    }
}

/// The state of the code generator (see `CompileState`).
pub struct Info {
    pub scope: StrMap<u32>,
    pub file: String,
    pub class: String,
    pub message: String,
    pub lambdas: usize,
    pub types: StrMap<StrMap<u32>>,
    pub aliases: StrMap<String>,
    pub implementations: StrMap<Vec<String>>,
    pub expansions: StrMap<String>,
    pub labels: usize,
    pub namespace: String,
    pub locals: u32,
}

impl View for Info {
    type V = CompileState;

    open spec fn view(&self) -> CompileState {
        CompileState {
            scope: self.scope.deep_view(),
            file: self.file@,
            class: self.class@,
            message: self.message@,
            lambdas: self.lambdas,
            types: self.types.deep_view(),
            aliases: self.aliases.deep_view(),
            implementations: self.implementations.deep_view(),
            expansions: self.expansions.deep_view(),
            labels: self.labels,
            namespace: self.namespace@,
            locals: self.locals,
        }
    }
}

/// `r` is the outcome `s` describes, with `info` the state after it, or, after
/// an error, the state the code generator stopped in.
pub open spec fn compiled_as(r: Option<Result<String, Error>>, info: CompileState, s: CompileOutcome) -> bool {
    match s {
        None => r is None,
        Some(Ok((text, st))) => r matches Some(Ok(x)) && x@ == text && info == st,
        Some(Err((e, st))) => r matches Some(Err(x)) && x@ == e && info == st,
    }
}

/// `r` is the outcome `s` describes for a sequence of nodes, with `info` the state
/// after it, or, after an error, the state the code generator stopped in.
pub open spec fn compiled_seq_as(r: Option<Result<Vec<String>, Error>>, info: CompileState, s: SeqOutcome) -> bool {
    match s {
        None => r is None,
        Some(Ok((texts, st))) => r matches Some(Ok(x)) && strings_view(x@) == texts && info == st,
        Some(Err((e, st))) => r matches Some(Err(x)) && x@ == e && info == st,
    }
}

/// The outcome `r` with `prefix` before the texts it gives.
pub open spec fn after_texts(prefix: Seq<Seq<char>>, r: SeqOutcome) -> SeqOutcome {
    match r {
        Some(Ok((texts, st))) => Some(Ok((prefix + texts, st))),
        other => other,
    }
}

fn fail(line: usize, info: &Info, msg: String) -> (r: Option<Result<String, Error>>)
    ensures
        r matches Some(Err(x)) && x@ == SpecError::CompileError(line as nat, info.file@, msg@),
{
    Some(Err(Error::CompileError(line, info.file.clone(), msg)))
}

fn concat_strings(v: &Vec<String>) -> (s: String)
    ensures
        s@ == concat_all(strings_view(v@)),
{
    let ghost sv = strings_view(v@);
    let mut s = String::new();
    let mut i: usize = 0;
    assert(sv.take(0) =~= Seq::<Seq<char>>::empty());
    while i < v.len()
        invariant
            sv == strings_view(v@),
            i <= v@.len(),
            s@ == concat_all(sv.take(i as int)),
        decreases v@.len() - i,
    {
        assert(sv.take(i + 1).drop_last() =~= sv.take(i as int));
        push_str(&mut s, v[i].as_str());
        i += 1;
    }
    assert(sv.take(v@.len() as int) =~= sv);
    s
}

fn name_exec(k: &AbstractKind) -> (r: Option<String>)
    ensures
        match name_in(k@) {
            Some(s) => r matches Some(x) && x@ == s,
            None => r is None,
        },
{
    match k {
        AbstractKind::Identifier(s) => Some(s.clone()),
        AbstractKind::String(s) => Some(s.clone()),
        _ => None,
    }
}

fn add_method_exec(info: &mut Info, class: String, text: String)
    ensures
        final(info)@ == add_method(old(info)@, class@, text@),
{
    info.implementations.append_to(class, text);
}

fn contains_string(v: &Vec<String>, s: &String) -> (r: bool)
    ensures
        r == strings_view(v@).contains(s@),
{
    let mut i: usize = 0;
    while i < v.len()
        invariant
            i <= v@.len(),
            forall|k: int| 0 <= k < i ==> v@[k]@ != s@,
        decreases v@.len() - i,
    {
        if v[i] == *s {
            assert(strings_view(v@)[i as int] == s@);
            return true;
        }
        i += 1;
    }
    assert forall|k: int| 0 <= k < strings_view(v@).len() implies strings_view(v@)[k] != s@ by {}
    false
}

/// Every name `reserve_of` adds is bound in the scope.
proof fn lemma_reserve_bound(t: STree<SpecAToken>, scope: Seq<(Seq<char>, u32)>, acc: Seq<Seq<char>>)
    requires
        forall|i: int| 0 <= i < acc.len() ==> lookup(scope, #[trigger] acc[i]) is Some,
    ensures
        forall|i: int| 0 <= i < reserve_of(t, scope, acc).len() ==> lookup(scope, #[trigger] reserve_of(t, scope, acc)[i]) is Some,
    decreases t, t.children.len() + 1,
{
    match t.data.kind {
        SpecAbstractKind::Identifier(id) => {},
        _ => lemma_reserve_seg_bound(t, 0, scope, acc),
    }
}

proof fn lemma_reserve_seg_bound(t: STree<SpecAToken>, j: int, scope: Seq<(Seq<char>, u32)>, acc: Seq<Seq<char>>)
    requires
        forall|i: int| 0 <= i < acc.len() ==> lookup(scope, #[trigger] acc[i]) is Some,
    ensures
        forall|i: int| 0 <= i < reserve_seg(t, j, scope, acc).len() ==> lookup(scope, #[trigger] reserve_seg(t, j, scope, acc)[i]) is Some,
    decreases t, t.children.len() - j,
{
    if 0 <= j < t.children.len() {
        lemma_reserve_bound(t.children[j], scope, acc);
        lemma_reserve_seg_bound(t, j + 1, scope, reserve_of(t.children[j], scope, acc));
    }
}

/// The names a lambda takes from the scope around it (see `reserve_of`).
fn reserve(ast: &FlatTree<AToken>, scope: &StrMap<u32>, reservations: &mut Vec<String>)
    ensures
        strings_view(final(reservations)@) == reserve_of(ast@, scope.deep_view(), strings_view(old(reservations)@)),
    decreases ast,
{
    let ghost t = ast@;
    proof {
        lemma_view_children(*ast);
    }
    match &ast.data.token {
        AbstractKind::Identifier(ident) => {
            if scope.get(ident.as_str()).is_some() {
                if !contains_string(reservations, ident) {
                    let ghost before = strings_view(reservations@);
                    reservations.push(ident.clone());
                    assert(strings_view(reservations@) =~= before.push(ident@));
                }
            }
        },
        _ => {
            let ghost acc0 = strings_view(reservations@);
            let mut i: usize = 0;
            while i < ast.children.len()
                invariant
                    t == ast@,
                    !(t.data.kind is Identifier),
                    t.children.len() == ast.children@.len(),
                    forall|k: int| 0 <= k < t.children.len() ==> #[trigger] t.children[k] == ast.children@[k]@,
                    i <= ast.children@.len(),
                    reserve_seg(t, 0, scope.deep_view(), acc0)
                        == reserve_seg(t, i as int, scope.deep_view(), strings_view(reservations@)),
                decreases ast.children@.len() - i,
            {
                reserve(&ast.children[i], scope, reservations);
                i += 1;
            }
        },
    }
}

fn compile_children(ast: &FlatTree<AToken>, from: usize, info: &mut Info) -> (r: Option<Result<Vec<String>, Error>>)
    ensures
        compiled_seq_as(r, final(info)@, compile_seg(ast@, from as int, old(info)@)),
    decreases ast, ast.children@.len(),
{
    let ghost t = ast@;
    let ghost st0 = info@;
    proof {
        lemma_view_children(*ast);
    }
    let n = ast.children.len();
    let mut outs: Vec<String> = Vec::new();
    if from >= n {
        assert(strings_view(outs@) =~= Seq::<Seq<char>>::empty());
        return Some(Ok(outs));
    }
    let mut i: usize = from;
    assert(strings_view(outs@) =~= Seq::<Seq<char>>::empty());
    assert(after_texts(Seq::empty(), compile_seg(t, i as int, info@)) =~= compile_seg(t, from as int, st0)) by {
        match compile_seg(t, i as int, info@) {
            Some(Ok((texts, st))) => {
                assert(Seq::<Seq<char>>::empty() + texts =~= texts);
            },
            _ => {},
        }
    }
    while i < n
        invariant
            t == ast@,
            t.children.len() == n,
            n == ast.children@.len(),
            forall|k: int| 0 <= k < n ==> #[trigger] t.children[k] == ast.children@[k]@,
            from <= i <= n,
            st0 == old(info)@,
            compile_seg(t, from as int, st0) == after_texts(strings_view(outs@), compile_seg(t, i as int, info@)),
        decreases n - i,
    {
        let ghost st_i = info@;
        let ghost prefix = strings_view(outs@);
        let ghost child = t.children[i as int];
        assert(child == ast.children@[i as int]@);
        match compile(&ast.children[i], info) {
            None => {
                assert(compile_node(child, st_i) is None);
                assert(compile_seg(t, i as int, st_i) is None);
                return None;
            },
            Some(Err(e)) => {
                assert(compile_node(child, st_i) == Some(Err::<(Seq<char>, CompileState), (SpecError, CompileState)>((e@, info@))));
                assert(compile_seg(t, i as int, st_i) == Some(Err::<(Seq<Seq<char>>, CompileState), (SpecError, CompileState)>((e@, info@))));
                return Some(Err(e));
            },
            Some(Ok(out)) => {
                outs.push(out);
                proof {
                    assert(strings_view(outs@) =~= prefix.push(out@));
                    match compile_seg(t, i + 1, info@) {
                        Some(Ok((texts, st))) => {
                            assert(prefix + (seq![out@] + texts) =~= prefix.push(out@) + texts);
                        },
                        _ => {},
                    }
                }
            },
        }
        i += 1;
    }
    proof {
        assert(strings_view(outs@) + Seq::<Seq<char>>::empty() =~= strings_view(outs@));
    }
    Some(Ok(outs))
}


fn compile_message(ast: &FlatTree<AToken>, info: &mut Info) -> (r: Option<Result<String, Error>>)
    requires
        ast@.data.kind is Message,
    ensures
        compiled_as(r, final(info)@, compile_node(ast@, old(info)@)),
    decreases ast, ast.children@.len() + 1,
{
    let ghost t = ast@;
    proof {
        lemma_view_children(*ast);
    }
    let line = ast.data.line;
    if ast.children.len() < 2 {
        return None;
    }
    let comps = match compile_children(ast, 2, info) {
        None => return None,
        Some(Err(e)) => return Some(Err(e)),
        Some(Ok(comps)) => comps,
    };
    let mut output = concat_strings(&comps);
    proof {
        lemma_view_children(ast.children@[0]);
        lemma_view_children(ast.children@[1]);
    }
    let msg = match name_exec(&ast.children[1].data.token) {
        None => {
            return fail(
                line,
                info,
                String::from_str("Invalid message (must be in form of string literal or identifier literal)."),
            );
        },
        Some(msg) => msg,
    };
    match &ast.children[0].data.token {
        AbstractKind::New => {
            let obj_type = match info.aliases.get(msg.as_str()) {
                Some(a) => a.clone(),
                None => msg.clone(),
            };
            push_str(&mut output, "\tnew \"");
            push_str(&mut output, obj_type.as_str());
            push_str(&mut output, "\"\n\tsend \"");
            push_str(&mut output, msg.as_str());
            push_str(&mut output, "\"\n");
            Some(Ok(output))
        },
        _ => {
            let obj = match compile(&ast.children[0], info) {
                None => return None,
                Some(Err(e)) => return Some(Err(e)),
                Some(Ok(obj)) => obj,
            };
            push_str(&mut output, obj.as_str());
            push_str(&mut output, "\tsend \"");
            push_str(&mut output, msg.as_str());
            push_str(&mut output, "\"\n");
            Some(Ok(output))
        },
    }
}

fn compile_lambda(ast: &FlatTree<AToken>, args: &Vec<String>, info: &mut Info) -> (r: Option<Result<String, Error>>)
    requires
        ast@.data.kind == SpecAbstractKind::Lambda(strings_view(args@)),
    ensures
        compiled_as(r, final(info)@, compile_node(ast@, old(info)@)),
    decreases ast, ast.children@.len() + 1,
{
    let ghost t = ast@;
    let ghost st = info@;
    let ghost av = strings_view(args@);
    let mut res: Vec<String> = Vec::new();
    assert(strings_view(res@) =~= Seq::<Seq<char>>::empty());
    reserve(ast, &info.scope, &mut res);
    let ghost rv = strings_view(res@);
    proof {
        lemma_reserve_bound(t, st.scope, Seq::empty());
    }
    assert(rv == reserve_of(t, st.scope, Seq::empty()));
    let old_scope = info.scope.duplicate();
    let mut scope: StrMap<u32> = StrMap::new();
    scope.insert(String::from_str("f"), 0);
    assert(scope.deep_view() =~= seq![("f"@, 0u32)]);
    let mut i: usize = 0;
    while i < res.len()
        invariant
            rv == strings_view(res@),
            t == ast@,
            st == old(info)@,
            info@ == st,
            t.data.kind == SpecAbstractKind::Lambda(av),
            rv == reserve_of(t, st.scope, Seq::empty()),
            i <= res@.len(),
            reserved_scope(seq![("f"@, 0u32)], rv, 0) == reserved_scope(scope.deep_view(), rv, i as int),
        decreases res@.len() - i,
    {
        if (#[verifier::truncate] (i as u32)) == u32::MAX {
            return None;
        }
        scope.insert(res[i].clone(), (#[verifier::truncate] (i as u32)) + 1);
        i += 1;
    }
    let mut j: usize = 0;
    let ghost with_res = scope.deep_view();
    while j < args.len()
        invariant
            av == strings_view(args@),
            t == ast@,
            st == old(info)@,
            info@ == st,
            t.data.kind == SpecAbstractKind::Lambda(av),
            rv == strings_view(res@),
            rv == reserve_of(t, st.scope, Seq::empty()),
            reserved_scope(seq![("f"@, 0u32)], rv, 0) == Some(with_res),
            j <= args@.len(),
            param_scope(with_res, av, 0) == param_scope(scope.deep_view(), av, j as int),
        decreases args@.len() - j,
    {
        let n = #[verifier::truncate] (scope.len() as u32);
        scope.insert(args[j].clone(), n);
        j += 1;
    }
    if info.lambdas == usize::MAX || args.len() > usize::MAX - 1 || res.len() > (usize::MAX - 1) - args.len() {
        return None;
    }
    info.scope = scope;
    info.locals = #[verifier::truncate] (info.scope.len() as u32);
    let lambda = info.lambdas;
    info.lambdas = info.lambdas + 1;
    let mut name = info.file.clone();
    push_str(&mut name, " @ ");
    push_str(&mut name, info.message.as_str());
    push_str(&mut name, " $ ");
    push_decimal(&mut name, lambda as u64);
    let mut output = String::from_str("\tthis ref\n\tlstr \"");
    push_str(&mut output, name.as_str());
    push_str(&mut output, "\"\n");
    let mut k: usize = 0;
    let ghost start = output@;
    assert(rv.take(0) =~= Seq::<Seq<char>>::empty());
    while k < res.len()
        invariant
            rv == strings_view(res@),
            k <= res@.len(),
            forall|x: int| 0 <= x < rv.len() ==> lookup(st.scope, #[trigger] rv[x]) is Some,
            old_scope.deep_view() == st.scope,
            output@ == start + load_all(rv.take(k as int), st.scope),
        decreases res@.len() - k,
    {
        assert(rv.take(k + 1).drop_last() =~= rv.take(k as int));
        assert(rv[k as int] == res@[k as int]@);
        let slot = match old_scope.get(res[k].as_str()) {
            Some(v) => *v,
            None => {
                assert(false);
                0
            },
        };
        push_str(&mut output, "\tload ");
        push_decimal(&mut output, slot as u64);
        push_str(&mut output, " ref\n");
        k += 1;
    }
    assert(rv.take(res@.len() as int) =~= rv);
    push_str(&mut output, "\tmarr ");
    push_decimal(&mut output, res.len() as u64);
    push_str(&mut output, "\n");
    push_str(&mut output, "\tnew \"Function\"\n\tsend \"Function\"\n");
    let mut text = String::from_str("method \"");
    push_str(&mut text, name.as_str());
    push_str(&mut text, "\" ");
    push_decimal(&mut text, (res.len() + args.len() + 1) as u64);
    push_str(&mut text, " {\n");
    let body = match compile_children(ast, 0, info) {
        None => return None,
        Some(Err(e)) => return Some(Err(e)),
        Some(Ok(body)) => body,
    };
    let body_text = concat_strings(&body);
    push_str(&mut text, body_text.as_str());
    push_str(&mut text, "\tret\n}\n");
    let class = info.class.clone();
    add_method_exec(info, class, text);
    info.scope = old_scope;
    Some(Ok(output))
}

fn compile_expansion(ast: &FlatTree<AToken>, info: &mut Info) -> (r: Option<Result<String, Error>>)
    requires
        ast@.data.kind is Expansion,
    ensures
        compiled_as(r, final(info)@, compile_node(ast@, old(info)@)),
    decreases ast, ast.children@.len() + 1,
{
    let ghost t = ast@;
    proof {
        lemma_view_children(*ast);
    }
    let line = ast.data.line;
    if ast.children.len() == 0 {
        return fail(
            line,
            info,
            String::from_str(
                "Empty angled brackets are disallowed. \
    For the type `<>` of `unit`, use \"<>\" with the double quotes included. \
    A correct example of angled brackets would be: `<Add.Int 3 5>`, \
    which would add the integers three and five.",
            ),
        );
    }
    proof {
        lemma_view_children(ast.children@[0]);
    }
    let name = match name_exec(&ast.children[0].data.token) {
        None => {
            return fail(
                line,
                info,
                String::from_str(
                    "Invalid expansion name. \
    Correct expansion syntax is of the form: `<expansion-name arg1 arg2 argN>` \
    or `<\"quoted expansion name\" arg1 arg2 argN>`",
                ),
            );
        },
        Some(name) => name,
    };
    let mut expansion = match info.expansions.get(name.as_str()) {
        None => {
            let mut msg = String::from_str("Unknown expansion `");
            push_str(&mut msg, name.as_str());
            push_str(
                &mut msg,
                "`. \
                        If this is unexpected, make sure the \
                        intended expansion is defined *before* being used.",
            );
            return fail(line, info, msg);
        },
        Some(exp) => exp.clone(),
    };
    if contains_exec(expansion.as_str(), "$label") {
        if info.labels == usize::MAX {
            return None;
        }
        let label_id = info.labels;
        info.labels = info.labels + 1;
        let label_text = decimal_string(label_id as u64);
        proof {
            reveal_strlit("$label");
        }
        expansion = replace(expansion.as_str(), "$label", label_text.as_str());
    }
    let comps = match compile_children(ast, 1, info) {
        None => return None,
        Some(Err(e)) => return Some(Err(e)),
        Some(Ok(comps)) => comps,
    };
    let ghost cv = strings_view(comps@);
    let ghost exp1 = expansion@;
    let mut i: usize = 0;
    while i < comps.len()
        invariant
            cv == strings_view(comps@),
            i <= comps@.len(),
            substitute(exp1, cv, 0) == substitute(expansion@, cv, i as int),
        decreases comps@.len() - i,
    {
        let mut pattern = String::from_str("$");
        push_decimal(&mut pattern, i as u64);
        expansion = replace(expansion.as_str(), pattern.as_str(), comps[i].as_str());
        i += 1;
    }
    Some(Ok(expansion))
}

/// The code for a node of a method body (see `compile_node`).
fn compile(ast: &FlatTree<AToken>, info: &mut Info) -> (r: Option<Result<String, Error>>)
    ensures
        compiled_as(r, final(info)@, compile_node(ast@, old(info)@)),
    decreases ast, ast.children@.len() + 2,
{
    let ghost t = ast@;
    let ghost st = info@;
    proof {
        lemma_view_children(*ast);
    }
    let line = ast.data.line;
    match &ast.data.token {
        AbstractKind::Get(field) => {
            let fields = match info.types.get(info.class.as_str()) {
                None => return fail(line, info, String::from_str("Cannot `get` field for external or unknown types")),
                Some(fields) => fields,
            };
            let offset = match fields.get(field.as_str()) {
                None => {
                    let mut msg = String::from_str("Unknown field `");
                    push_str(&mut msg, field.as_str());
                    push_str(&mut msg, "` for type `");
                    push_str(&mut msg, info.class.as_str());
                    push_str(&mut msg, "`");
                    return fail(line, info, msg);
                },
                Some(offset) => *offset,
            };
            let mut out = String::from_str("\tget ");
            push_decimal(&mut out, offset as u64);
            push_str(&mut out, "\n");
            Some(Ok(out))
        },
        AbstractKind::SetField(field) => {
            let fields = match info.types.get(info.class.as_str()) {
                None => return fail(line, info, String::from_str("Cannot `get` field for external or unknown types")),
                Some(fields) => fields,
            };
            let offset = match fields.get(field.as_str()) {
                None => {
                    let mut msg = String::from_str("Unknown field `");
                    push_str(&mut msg, field.as_str());
                    push_str(&mut msg, "` for type `");
                    push_str(&mut msg, info.class.as_str());
                    push_str(&mut msg, "`");
                    return fail(line, info, msg);
                },
                Some(offset) => *offset,
            };
            if ast.children.len() == 0 {
                return fail(line, info, String::from_str("Keyword `set` missing value."));
            }
            let mut out = match compile(&ast.children[0], info) {
                None => return None,
                Some(Err(e)) => return Some(Err(e)),
                Some(Ok(val)) => val,
            };
            push_str(&mut out, "\tset ");
            push_decimal(&mut out, offset as u64);
            push_str(&mut out, "\n");
            Some(Ok(out))
        },
        AbstractKind::Yield => {
            if ast.children.len() == 0 {
                return fail(line, info, String::from_str("Keyword `yield` missing value"));
            }
            let mut out = match compile(&ast.children[0], info) {
                None => return None,
                Some(Err(e)) => return Some(Err(e)),
                Some(Ok(val)) => val,
            };
            push_str(&mut out, "\tret\n");
            Some(Ok(out))
        },
        AbstractKind::Message => compile_message(ast, info),
        AbstractKind::Unit => Some(Ok(String::from_str("\tmain\n"))),
        AbstractKind::Self_ => Some(Ok(String::from_str("\tthis\n"))),
        AbstractKind::Identifier(ident) => {
            match info.scope.get(ident.as_str()) {
                None => {
                    let mut msg = String::from_str("Unknown local variable `");
                    push_str(&mut msg, ident.as_str());
                    push_str(&mut msg, "`");
                    fail(line, info, msg)
                },
                Some(local) => {
                    let mut out = String::from_str("\tload ");
                    push_decimal(&mut out, *local as u64);
                    push_str(&mut out, " ref\n");
                    Some(Ok(out))
                },
            }
        },
        AbstractKind::Let(ident) => {
            if ast.children.len() == 0 {
                return fail(line, info, String::from_str("Keyword `let` missing value"));
            }
            let mut out = match compile(&ast.children[0], info) {
                None => return None,
                Some(Err(e)) => return Some(Err(e)),
                Some(Ok(val)) => val,
            };
            if info.locals == u32::MAX {
                return None;
            }
            let local = info.locals;
            info.locals = info.locals + 1;
            info.scope.insert(ident.clone(), local);
            push_str(&mut out, "\tlocal ");
            push_decimal(&mut out, local as u64);
            push_str(&mut out, "\n");
            Some(Ok(out))
        },
        AbstractKind::Number(text) => {
            let mut out = String::from_str("\tmint ");
            push_str(&mut out, text.as_str());
            push_str(&mut out, "\n");
            Some(Ok(out))
        },
        AbstractKind::Integer(n) => {
            let mut out = String::from_str("\tmint ");
            push_signed_decimal(&mut out, *n);
            push_str(&mut out, "\n");
            Some(Ok(out))
        },
        AbstractKind::Character(c) => {
            let mut out = String::from_str("\tmint ");
            push_decimal(&mut out, *c as u64);
            push_str(&mut out, "\n");
            Some(Ok(out))
        },
        AbstractKind::List => {
            let outs = match compile_children(ast, 0, info) {
                None => return None,
                Some(Err(e)) => return Some(Err(e)),
                Some(Ok(outs)) => outs,
            };
            let mut out = concat_strings(&outs);
            push_str(&mut out, "\tmarr ");
            push_decimal(&mut out, ast.children.len() as u64);
            push_str(&mut out, "\n");
            Some(Ok(out))
        },
        AbstractKind::String(text) => {
            proof {
                reveal_strlit("\\n");
                reveal_strlit("\\t");
                reveal_strlit("\\\\");
            }
            let a = replace(text.as_str(), "\\n", "\\0a");
            let b = replace(a.as_str(), "\\t", "\\09");
            let c = replace(b.as_str(), "\\\\", "\\5c");
            let mut out = String::from_str("\tlstr \"");
            push_str(&mut out, c.as_str());
            push_str(&mut out, "\"\n");
            Some(Ok(out))
        },
        AbstractKind::Block => {
            let old_scope = info.scope.duplicate();
            let outs = match compile_children(ast, 0, info) {
                None => return None,
                Some(Err(e)) => return Some(Err(e)),
                Some(Ok(outs)) => outs,
            };
            info.scope = old_scope;
            Some(Ok(concat_strings(&outs)))
        },
        AbstractKind::Lambda(args) => compile_lambda(ast, args, info),
        AbstractKind::Expansion => compile_expansion(ast, info),
        _ => Some(Err(Error::NotImplemented(kind_to_string(&ast.data.token)))),
    }
}


/// `r` is the outcome `s` describes for top-level nodes, with `info` the state
/// after them, or, after an error, the state the code generator stopped in.
pub open spec fn top_as(r: Option<Result<(), Error>>, info: CompileState, s: TopOutcome) -> bool {
    match s {
        None => r is None,
        Some(Ok(st)) => r matches Some(Ok(_)) && info == st,
        Some(Err((e, st))) => r matches Some(Err(x)) && x@ == e && info == st,
    }
}

fn slots_exec(names: &Vec<String>) -> (m: StrMap<u32>)
    ensures
        m.deep_view() == field_slots(Seq::empty(), strings_view(names@), 0),
{
    let ghost nv = strings_view(names@);
    let mut m: StrMap<u32> = StrMap::new();
    let mut i: usize = 0;
    while i < names.len()
        invariant
            nv == strings_view(names@),
            i <= names@.len(),
            field_slots(Seq::empty(), nv, 0) == field_slots(m.deep_view(), nv, i as int),
        decreases names@.len() - i,
    {
        m.insert(names[i].clone(), #[verifier::truncate] (i as u32));
        i += 1;
    }
    m
}

/// The state after a top-level node (see `compile_top_of`).
fn compile_top(ast: &FlatTree<AToken>, info: &mut Info) -> (r: Option<Result<(), Error>>)
    ensures
        top_as(r, final(info)@, compile_top_of(ast@, old(info)@)),
{
    let ghost t = ast@;
    proof {
        lemma_view_children(*ast);
    }
    let line = ast.data.line;
    match &ast.data.token {
        AbstractKind::Type(name, fields) => {
            let slots = slots_exec(fields);
            let mut qualified = concat_str(info.namespace.as_str(), "::");
            push_str(&mut qualified, name.as_str());
            info.aliases.insert(name.clone(), qualified.clone());
            info.types.insert(qualified, slots);
            Some(Ok(()))
        },
        AbstractKind::Implement(msg, args, target) => {
            let class = match info.aliases.get(target.as_str()) {
                Some(a) => a.clone(),
                None => target.clone(),
            };
            if args.len() > 4294967295 {
                return None;
            }
            let mut text = String::from_str("method \"");
            push_str(&mut text, msg.as_str());
            push_str(&mut text, "\" ");
            push_decimal(&mut text, args.len() as u64);
            push_str(&mut text, " {\n");
            info.lambdas = 0;
            info.message = msg.clone();
            info.scope = slots_exec(args);
            info.class = class.clone();
            info.labels = 0;
            info.locals = args.len() as u32;
            if ast.children.len() == 0 {
                return Some(Err(Error::CompileError(
                    line,
                    info.file.clone(),
                    String::from_str("`impl` block missing implementation"),
                )));
            }
            proof {
                lemma_view_children(ast.children@[0]);
            }
            let body = match &ast.children[0].data.token {
                AbstractKind::Block => compile_children(&ast.children[0], 0, info),
                _ => compile_children(ast, 0, info),
            };
            let body = match body {
                None => return None,
                Some(Err(e)) => return Some(Err(e)),
                Some(Ok(body)) => body,
            };
            let body_text = concat_strings(&body);
            push_str(&mut text, body_text.as_str());
            push_str(&mut text, "\tret\n}\n");
            add_method_exec(info, class, text);
            Some(Ok(()))
        },
        AbstractKind::Define(name, expansion) => {
            info.expansions.insert(name.clone(), expansion.clone());
            Some(Ok(()))
        },
        _ => {
            let mut msg = String::from_str(
                "Only `impl` blocks, expansion definitions (`def` statements), \
    `namespace` declarations, and `type` definitions may be top-level: ",
            );
            let kind = kind_to_string(&ast.data.token);
            push_str(&mut msg, kind.as_str());
            Some(Err(Error::CompileError(line, info.file.clone(), msg)))
        },
    }
}

/// The state after the top-level nodes of a tree with a root (see `compile_special_of`).
fn compile_special(ast: &FlatTree<AToken>, file: &String, info: &mut Info) -> (r: Option<Result<(), Error>>)
    ensures
        top_as(r, final(info)@, compile_special_of(ast@, file@, old(info)@)),
{
    let ghost t = ast@;
    let ghost st0 = info@;
    proof {
        lemma_view_children(*ast);
    }
    match &ast.data.token {
        AbstractKind::Root => {},
        _ => {
            return Some(Err(Error::CompileError(
                0,
                file.clone(),
                String::from_str(
                    "Root missing for abstract syntax tree (Internal Error). \
    This may be caused by improperly placed keywords as well as an internal bug. \
    Check there aren't any keywords that aren't properly closed \
    (like an `impl` block without braces after it)",
                ),
            )));
        },
    }
    let mut i: usize = 0;
    while i < ast.children.len()
        invariant
            t == ast@,
            t.children.len() == ast.children@.len(),
            forall|k: int| 0 <= k < t.children.len() ==> #[trigger] t.children[k] == ast.children@[k]@,
            i <= ast.children@.len(),
            st0 == old(info)@,
            t.data.kind is Root,
            compile_tops(t, 0, st0) == compile_tops(t, i as int, info@),
        decreases ast.children@.len() - i,
    {
        let ghost st_i = info@;
        assert(t.children[i as int] == ast.children@[i as int]@);
        match compile_top(&ast.children[i], info) {
            None => return None,
            Some(Err(e)) => return Some(Err(e)),
            Some(Ok(())) => {},
        }
        i += 1;
    }
    Some(Ok(()))
}

/// The value of the outcome of parsing a program.
pub open spec fn parsed_view(r: Result<FlatTree<AToken>, Error>) -> Result<STree<SpecAToken>, SpecError> {
    match r {
        Ok(t) => Ok(t@),
        Err(e) => Err(e@),
    }
}

/// The paths and contents of a sequence of files.
pub open spec fn files_view(v: Seq<(String, String)>) -> Seq<(Seq<char>, Seq<char>)> {
    Seq::new(v.len(), |i: int| (v[i].0@, v[i].1@))
}

fn program_files_exec(info: &Info, file: &String) -> (files: Vec<(String, String)>)
    ensures
        files_view(files@) == program_files(info@, file@),
{
    let ghost st = info@;
    let n = info.implementations.entries.len();
    let mut files: Vec<(String, String)> = Vec::new();
    let mut i: usize = 0;
    while i < n
        invariant
            st == info@,
            n == info.implementations.entries@.len(),
            i <= n,
            files@.len() == i,
            forall|k: int| 0 <= k < i ==> #[trigger] files_view(files@)[k] == program_files(st, file@)[k],
        decreases n - i,
    {
        let name = &info.implementations.entries[i].0;
        let methods = &info.implementations.entries[i].1;
        let ghost mv = strings_view(methods@);
        assert(st.implementations[i as int] == (name@, mv));
        let (mut contents, native) = match info.types.get(name.as_str()) {
            Some(fields) => {
                let mut c = String::from_str("type object \"");
                push_str(&mut c, name.as_str());
                push_str(&mut c, "\" ");
                push_decimal(&mut c, fields.len() as u64);
                push_str(&mut c, " #\n\n");
                (c, true)
            },
            None => {
                let mut c = String::from_str("mod object \"");
                push_str(&mut c, name.as_str());
                push_str(&mut c, "\" 0 #\n\n");
                (c, false)
            },
        };
        let ghost header = contents@;
        let mut j: usize = 0;
        assert(mv.take(0) =~= Seq::<Seq<char>>::empty());
        while j < methods.len()
            invariant
                mv == strings_view(methods@),
                j <= methods@.len(),
                contents@ == header + method_lines(mv.take(j as int)),
            decreases methods@.len() - j,
        {
            assert(mv.take(j + 1).drop_last() =~= mv.take(j as int));
            push_str(&mut contents, methods[j].as_str());
            push_str(&mut contents, "\n");
            j += 1;
        }
        assert(mv.take(methods@.len() as int) =~= mv);
        let mut path = String::from_str("Radia.");
        push_str(&mut path, file.as_str());
        push_str(&mut path, ".");
        push_str(&mut path, name.as_str());
        if native {
            push_str(&mut path, ".oovmt");
        } else {
            push_str(&mut path, ".oovmm");
        }
        proof {
            reveal_strlit("<");
            reveal_strlit(">");
            reveal_strlit("::");
            reveal_strlit("..");
        }
        let p1 = replace(path.as_str(), "<", ".oovm.");
        let p2 = replace(p1.as_str(), ">", ".magic.");
        let p3 = replace(p2.as_str(), "::", ".ns.");
        let p4 = replace(p3.as_str(), "..", ".");
        let ghost before = files@;
        files.push((p4, contents));
        proof {
            assert forall|k: int| 0 <= k < i + 1 implies #[trigger] files_view(files@)[k] == program_files(st, file@)[k] by {
                if k < i {
                    assert(files@[k] == before[k]);
                    assert(files_view(before)[k] == files_view(files@)[k]);
                }
            }
        }
        i += 1;
    }
    assert(files_view(files@) =~= program_files(st, file@));
    files
}

fn compile_program_core(ast: FlatTree<AToken>, file: String, prelude: Result<FlatTree<AToken>, Error>)
    -> (files: Option<Result<Vec<(String, String)>, Error>>)
    ensures
        match compile_program_of(ast@, file@, parsed_view(prelude)) {
            None => files is None,
            Some(Ok(v)) => files matches Some(Ok(x)) && files_view(x@) == v,
            Some(Err(e)) => files matches Some(Err(x)) && x@ == e,
        },
{
    let mut info = Info {
        scope: StrMap::new(),
        file: String::from_str("prelude.rad"),
        class: String::new(),
        message: String::new(),
        lambdas: 0,
        types: StrMap::new(),
        aliases: StrMap::new(),
        implementations: StrMap::new(),
        expansions: StrMap::new(),
        labels: 0,
        namespace: String::new(),
        locals: 0,
    };
    assert(info@ == initial_state());
    match &ast.data.token {
        AbstractKind::Root => {},
        _ => {
            return Some(Err(Error::CompileError(
                0,
                file,
                String::from_str(
                    "Root missing for abstract syntax tree (Internal Error). \
    This may be caused by improperly placed keywords as well as an internal bug. \
    Check there aren't any keywords that aren't properly closed \
    (like an `impl` block without braces after it)",
                ),
            )));
        },
    }
    let prelude = match prelude {
        Err(e) => return Some(Err(e)),
        Ok(p) => p,
    };
    let prelude_name = String::from_str("prelude.rad");
    match compile_special(&prelude, &prelude_name, &mut info) {
        None => return None,
        Some(Err(e)) => return Some(Err(e)),
        Some(Ok(())) => {},
    }
    let file_name = file.clone();
    info.file = file;
    match compile_special(&ast, &file_name, &mut info) {
        None => return None,
        Some(Err(e)) => return Some(Err(e)),
        Some(Ok(())) => {},
    }
    Some(Ok(program_files_exec(&info, &file_name)))
}

/// The files of a program compiled after the prelude (see `compile_program_of`).
pub fn compile_program(ast: FlatTree<AToken>, file: String, prelude: Result<FlatTree<AToken>, Error>)
    -> (files: Result<Vec<(String, String)>, Error>)
    requires
        compile_program_of(ast@, file@, parsed_view(prelude)) is Some,
    ensures
        match compile_program_of(ast@, file@, parsed_view(prelude)) {
            Some(Ok(v)) => files matches Ok(x) && files_view(x@) == v,
            Some(Err(e)) => files matches Err(x) && x@ == e,
            None => false,
        },
{
    compile_program_core(ast, file, prelude).unwrap()
}

/// The files of a program compiled after the prelude, or `None` where
/// `compile_program` has no result to give (see `compile_program_of`).
pub fn try_compile_program(ast: FlatTree<AToken>, file: String, prelude: Result<FlatTree<AToken>, Error>)
    -> (files: Option<Result<Vec<(String, String)>, Error>>)
    ensures
        match compile_program_of(ast@, file@, parsed_view(prelude)) {
            None => files is None,
            Some(Ok(v)) => files matches Some(Ok(x)) && files_view(x@) == v,
            Some(Err(e)) => files matches Some(Err(x)) && x@ == e,
        },
{
    compile_program_core(ast, file, prelude)
}

}
