//! From program text to an abstract syntax tree: the lexer (`tokenize`), the
//! concrete parser that nests tokens by their brackets and keywords
//! (`parse_concrete`), and the abstract parser that gives each node its meaning
//! (`parse_abstract`).
use vstd::prelude::*;
use vstd::string::StringExecFns;
use crate::error::{Error, SpecError};
use crate::text::{
    chars_of, contains, contains_exec, decimal, float_literal, float_literal_exec, is_digit, is_whitespace,
    is_whitespace_exec, parse_i32, parse_i32_exec, push_decimal, push_signed_decimal, push_str, replace, replace_all,
    signed_decimal, string_of,
};
use crate::tree::{lemma_trees_view, lemma_view_children, trees_view, FlatTree, STree};

verus! {

/// A token of the program, with the line it stands on.
#[derive(Debug, Clone, PartialEq)]
pub struct Token {
    pub token: TokenKind,
    pub line: usize,
}

/// The kinds of tokens.
#[derive(Debug, Clone, PartialEq)]
pub enum TokenKind {
    Root,
    SetField,
    Get,
    Let,
    Number(String),
    Identifier(String),
    String(String),
    Character(char),
    Type,
    For,
    Implement,
    Block,
    EndBlock,
    Message,
    EndMessage,
    List,
    EndList,
    Operation,
    EndOperation,
    Semicolon,
    Yield,
    Define,
    Lambda,
    New,
    Unit,
    Self_,
}

/// The mathematical value of a `TokenKind`: its text as a sequence of characters.
pub enum SpecTokenKind {
    Root,
    SetField,
    Get,
    Let,
    Number(Seq<char>),
    Identifier(Seq<char>),
    String(Seq<char>),
    Character(char),
    Type,
    For,
    Implement,
    Block,
    EndBlock,
    Message,
    EndMessage,
    List,
    EndList,
    Operation,
    EndOperation,
    Semicolon,
    Yield,
    Define,
    Lambda,
    New,
    Unit,
    Self_,
}

/// The mathematical value of a `Token`.
pub struct SpecToken {
    pub kind: SpecTokenKind,
    pub line: nat,
}

impl View for TokenKind {
    type V = SpecTokenKind;

    open spec fn view(&self) -> SpecTokenKind {
        match self {
            TokenKind::Root => SpecTokenKind::Root,
            TokenKind::SetField => SpecTokenKind::SetField,
            TokenKind::Get => SpecTokenKind::Get,
            TokenKind::Let => SpecTokenKind::Let,
            TokenKind::Number(s) => SpecTokenKind::Number(s@),
            TokenKind::Identifier(s) => SpecTokenKind::Identifier(s@),
            TokenKind::String(s) => SpecTokenKind::String(s@),
            TokenKind::Character(c) => SpecTokenKind::Character(*c),
            TokenKind::Type => SpecTokenKind::Type,
            TokenKind::For => SpecTokenKind::For,
            TokenKind::Implement => SpecTokenKind::Implement,
            TokenKind::Block => SpecTokenKind::Block,
            TokenKind::EndBlock => SpecTokenKind::EndBlock,
            TokenKind::Message => SpecTokenKind::Message,
            TokenKind::EndMessage => SpecTokenKind::EndMessage,
            TokenKind::List => SpecTokenKind::List,
            TokenKind::EndList => SpecTokenKind::EndList,
            TokenKind::Operation => SpecTokenKind::Operation,
            TokenKind::EndOperation => SpecTokenKind::EndOperation,
            TokenKind::Semicolon => SpecTokenKind::Semicolon,
            TokenKind::Yield => SpecTokenKind::Yield,
            TokenKind::Define => SpecTokenKind::Define,
            TokenKind::Lambda => SpecTokenKind::Lambda,
            TokenKind::New => SpecTokenKind::New,
            TokenKind::Unit => SpecTokenKind::Unit,
            TokenKind::Self_ => SpecTokenKind::Self_,
        }
    }
}

impl View for Token {
    type V = SpecToken;

    open spec fn view(&self) -> SpecToken {
        SpecToken { kind: self.token@, line: self.line as nat }
    }
}

/// The reserved words and single-character operators, with the kind of token each one is.
pub open spec fn keyword(w: Seq<char>) -> Option<SpecTokenKind> {
    if w == seq!['s', 'e', 't'] { Some(SpecTokenKind::SetField) }
    else if w == seq!['g', 'e', 't'] { Some(SpecTokenKind::Get) }
    else if w == seq!['l', 'e', 't'] { Some(SpecTokenKind::Let) }
    else if w == seq!['i', 'm', 'p', 'l'] { Some(SpecTokenKind::Implement) }
    else if w == seq!['f', 'o', 'r'] { Some(SpecTokenKind::For) }
    else if w == seq!['t', 'y', 'p', 'e'] { Some(SpecTokenKind::Type) }
    else if w == seq!['{'] { Some(SpecTokenKind::Block) }
    else if w == seq!['}'] { Some(SpecTokenKind::EndBlock) }
    else if w == seq!['['] { Some(SpecTokenKind::Message) }
    else if w == seq![']'] { Some(SpecTokenKind::EndMessage) }
    else if w == seq!['('] { Some(SpecTokenKind::List) }
    else if w == seq![')'] { Some(SpecTokenKind::EndList) }
    else if w == seq!['<'] { Some(SpecTokenKind::Operation) }
    else if w == seq!['>'] { Some(SpecTokenKind::EndOperation) }
    else if w == seq![';'] { Some(SpecTokenKind::Semicolon) }
    else if w == seq!['y', 'i', 'e', 'l', 'd'] { Some(SpecTokenKind::Yield) }
    else if w == seq!['d', 'e', 'f'] { Some(SpecTokenKind::Define) }
    else if w == seq!['l', 'a', 'm', 'b', 'd', 'a'] { Some(SpecTokenKind::Lambda) }
    else if w == seq!['λ'] { Some(SpecTokenKind::Lambda) }
    else if w == seq!['f', 'u', 'n', 'c'] { Some(SpecTokenKind::Lambda) }
    else if w == seq!['f', 'n'] { Some(SpecTokenKind::Lambda) }
    else if w == seq!['f', 'u', 'n', 'c', 't', 'i', 'o', 'n'] { Some(SpecTokenKind::Lambda) }
    else if w == seq!['\\'] { Some(SpecTokenKind::Lambda) }
    else if w == seq!['n', 'e', 'w'] { Some(SpecTokenKind::New) }
    else if w == seq!['u', 'n', 'i', 't'] { Some(SpecTokenKind::Unit) }
    else if w == seq!['s', 'e', 'l', 'f'] { Some(SpecTokenKind::Self_) }
    else { None }
}

/// The words that `token_to_kind` accepts: not empty, a word that starts with a
/// double quote ends with one after it, and one that starts with a single quote
/// has a character after it.
pub open spec fn token_ok(w: Seq<char>) -> bool {
    &&& w.len() > 0
    &&& w[0] == '"' ==> w.len() >= 2 && w.last() == '"'
    &&& w[0] == '\'' ==> w.len() >= 2
}

/// The kind of token a word is: a reserved word or operator, a number (it starts
/// with a digit), a character (its second character), a string (the text between
/// its quotes) or an identifier.
pub open spec fn kind_of(w: Seq<char>) -> SpecTokenKind {
    match keyword(w) {
        Some(k) => k,
        None => {
            if is_digit(w[0]) {
                SpecTokenKind::Number(w)
            } else if w[0] == '\'' {
                SpecTokenKind::Character(w[1])
            } else if w[0] == '"' {
                SpecTokenKind::String(w.subrange(1, w.len() - 1))
            } else {
                SpecTokenKind::Identifier(w)
            }
        }
    }
}

fn same_chars(v: &Vec<char>, lit: &[char]) -> (r: bool)
    ensures
        r == (v@ == lit@),
{
    if v.len() != lit.len() {
        return false;
    }
    let mut i: usize = 0;
    while i < v.len()
        invariant
            v@.len() == lit@.len(),
            i <= v@.len(),
            forall|j: int| 0 <= j < i ==> v@[j] == lit@[j],
        decreases v@.len() - i,
    {
        if v[i] != lit[i] {
            return false;
        }
        i += 1;
    }
    assert(v@ =~= lit@);
    true
}

fn keyword_exec(v: &Vec<char>) -> (r: Option<TokenKind>)
    ensures
        match r {
            Some(k) => keyword(v@) == Some(k@),
            None => keyword(v@) is None,
        },
{
    proof {
        assert(['s', 'e', 't']@ =~= seq!['s', 'e', 't']);
        assert(['g', 'e', 't']@ =~= seq!['g', 'e', 't']);
        assert(['l', 'e', 't']@ =~= seq!['l', 'e', 't']);
        assert(['i', 'm', 'p', 'l']@ =~= seq!['i', 'm', 'p', 'l']);
        assert(['f', 'o', 'r']@ =~= seq!['f', 'o', 'r']);
        assert(['t', 'y', 'p', 'e']@ =~= seq!['t', 'y', 'p', 'e']);
        assert(['{']@ =~= seq!['{']);
        assert(['}']@ =~= seq!['}']);
        assert(['[']@ =~= seq!['[']);
        assert([']']@ =~= seq![']']);
        assert(['(']@ =~= seq!['(']);
        assert([')']@ =~= seq![')']);
        assert(['<']@ =~= seq!['<']);
        assert(['>']@ =~= seq!['>']);
        assert([';']@ =~= seq![';']);
        assert(['y', 'i', 'e', 'l', 'd']@ =~= seq!['y', 'i', 'e', 'l', 'd']);
        assert(['d', 'e', 'f']@ =~= seq!['d', 'e', 'f']);
        assert(['l', 'a', 'm', 'b', 'd', 'a']@ =~= seq!['l', 'a', 'm', 'b', 'd', 'a']);
        assert(['λ']@ =~= seq!['λ']);
        assert(['f', 'u', 'n', 'c']@ =~= seq!['f', 'u', 'n', 'c']);
        assert(['f', 'n']@ =~= seq!['f', 'n']);
        assert(['f', 'u', 'n', 'c', 't', 'i', 'o', 'n']@ =~= seq!['f', 'u', 'n', 'c', 't', 'i', 'o', 'n']);
        assert(['\\']@ =~= seq!['\\']);
        assert(['n', 'e', 'w']@ =~= seq!['n', 'e', 'w']);
        assert(['u', 'n', 'i', 't']@ =~= seq!['u', 'n', 'i', 't']);
        assert(['s', 'e', 'l', 'f']@ =~= seq!['s', 'e', 'l', 'f']);
    }
    if same_chars(v, &['s', 'e', 't']) { Some(TokenKind::SetField) }
    else if same_chars(v, &['g', 'e', 't']) { Some(TokenKind::Get) }
    else if same_chars(v, &['l', 'e', 't']) { Some(TokenKind::Let) }
    else if same_chars(v, &['i', 'm', 'p', 'l']) { Some(TokenKind::Implement) }
    else if same_chars(v, &['f', 'o', 'r']) { Some(TokenKind::For) }
    else if same_chars(v, &['t', 'y', 'p', 'e']) { Some(TokenKind::Type) }
    else if same_chars(v, &['{']) { Some(TokenKind::Block) }
    else if same_chars(v, &['}']) { Some(TokenKind::EndBlock) }
    else if same_chars(v, &['[']) { Some(TokenKind::Message) }
    else if same_chars(v, &[']']) { Some(TokenKind::EndMessage) }
    else if same_chars(v, &['(']) { Some(TokenKind::List) }
    else if same_chars(v, &[')']) { Some(TokenKind::EndList) }
    else if same_chars(v, &['<']) { Some(TokenKind::Operation) }
    else if same_chars(v, &['>']) { Some(TokenKind::EndOperation) }
    else if same_chars(v, &[';']) { Some(TokenKind::Semicolon) }
    else if same_chars(v, &['y', 'i', 'e', 'l', 'd']) { Some(TokenKind::Yield) }
    else if same_chars(v, &['d', 'e', 'f']) { Some(TokenKind::Define) }
    else if same_chars(v, &['l', 'a', 'm', 'b', 'd', 'a']) { Some(TokenKind::Lambda) }
    else if same_chars(v, &['λ']) { Some(TokenKind::Lambda) }
    else if same_chars(v, &['f', 'u', 'n', 'c']) { Some(TokenKind::Lambda) }
    else if same_chars(v, &['f', 'n']) { Some(TokenKind::Lambda) }
    else if same_chars(v, &['f', 'u', 'n', 'c', 't', 'i', 'o', 'n']) { Some(TokenKind::Lambda) }
    else if same_chars(v, &['\\']) { Some(TokenKind::Lambda) }
    else if same_chars(v, &['n', 'e', 'w']) { Some(TokenKind::New) }
    else if same_chars(v, &['u', 'n', 'i', 't']) { Some(TokenKind::Unit) }
    else if same_chars(v, &['s', 'e', 'l', 'f']) { Some(TokenKind::Self_) }
    else { None }
}

/// The kind of token a word is (see `kind_of`).
pub fn token_to_kind(token: &str) -> (kind: TokenKind)
    requires
        token_ok(token@),
    ensures
        kind@ == kind_of(token@),
{
    let v = chars_of(token);
    assert(v@.subrange(0, v@.len() as int) =~= v@);
    match keyword_exec(&v) {
        Some(k) => k,
        None => {
            let first = v[0];
            if '0' <= first && first <= '9' {
                TokenKind::Number(string_of(&v, 0, v.len()))
            } else if first == '\'' {
                TokenKind::Character(v[1])
            } else if first == '"' {
                TokenKind::String(string_of(&v, 1, v.len() - 1))
            } else {
                TokenKind::Identifier(string_of(&v, 0, v.len()))
            }
        }
    }
}

/// The characters that are tokens of their own and end the word before them.
pub open spec fn is_operator(c: char) -> bool {
    ||| c == '\\'
    ||| c == 'λ'
    ||| c == '{'
    ||| c == '}'
    ||| c == ';'
    ||| c == '['
    ||| c == ']'
    ||| c == '('
    ||| c == ')'
    ||| c == '<'
    ||| c == '>'
    ||| c == '!'
    ||| c == '?'
}

fn is_operator_exec(c: char) -> (r: bool)
    ensures
        r == is_operator(c),
{
    c == '\\' || c == 'λ' || c == '{' || c == '}' || c == ';' || c == '[' || c == ']'
        || c == '(' || c == ')' || c == '<' || c == '>' || c == '!' || c == '?'
}

/// The state of the lexer between two characters: the words found so far with
/// their lines, the current line, the word being read, and whether it is inside a
/// comment or a string.
pub struct LexState {
    pub words: Seq<(Seq<char>, nat)>,
    pub line: nat,
    pub word: Seq<char>,
    pub comment: bool,
    pub in_string: bool,
}

/// `words` with `word` added at `line`, unless `word` is empty.
pub open spec fn flush(words: Seq<(Seq<char>, nat)>, word: Seq<char>, line: nat) -> Seq<(Seq<char>, nat)> {
    if word.len() > 0 {
        words.push((word, line))
    } else {
        words
    }
}

/// One character read by the lexer. A `#` opens a comment and the next `#`
/// closes it; a `"` opens a string that the next `"` closes and makes one word;
/// whitespace ends a word; an operator ends a word and is a word of its own; any
/// other character is added to the word. A newline moves on to the next line.
pub open spec fn lex_step(st: LexState, c: char) -> LexState {
    let next = if st.comment {
        LexState { comment: c != '#', ..st }
    } else if st.in_string {
        if c == '"' {
            LexState {
                words: st.words.push((st.word.push(c), st.line)),
                word: Seq::empty(),
                in_string: false,
                ..st
            }
        } else {
            LexState { word: st.word.push(c), ..st }
        }
    } else if c == '#' {
        LexState { words: flush(st.words, st.word, st.line), word: Seq::empty(), comment: true, ..st }
    } else if is_whitespace(c) {
        LexState { words: flush(st.words, st.word, st.line), word: Seq::empty(), ..st }
    } else if is_operator(c) {
        LexState {
            words: flush(st.words, st.word, st.line).push((seq![c], st.line)),
            word: Seq::empty(),
            ..st
        }
    } else if c == '"' {
        LexState {
            words: flush(st.words, st.word, st.line),
            word: seq!['"'],
            in_string: true,
            ..st
        }
    } else {
        LexState { word: st.word.push(c), ..st }
    };
    if c == '\n' {
        LexState { line: next.line + 1, ..next }
    } else {
        next
    }
}

/// The state of the lexer after reading `s` from the start, on line 1.
pub open spec fn lex(s: Seq<char>) -> LexState
    decreases s.len(),
{
    if s.len() == 0 {
        LexState { words: Seq::empty(), line: 1, word: Seq::empty(), comment: false, in_string: false }
    } else {
        lex_step(lex(s.drop_last()), s.last())
    }
}

/// The words of a program with their lines. A word still being read when the
/// program ends is not among them.
pub open spec fn words_of(program: Seq<char>) -> Seq<(Seq<char>, nat)> {
    lex(program).words
}

/// The programs that `tokenize` takes: no word of it is a lone single quote.
pub open spec fn lexable(program: Seq<char>) -> bool {
    forall|i: int| 0 <= i < words_of(program).len() ==> #[trigger] words_of(program)[i].0 != seq!['\'']
}

/// The tokens of a program: each of its words, by `kind_of`, with its line.
pub open spec fn tokens_of(program: Seq<char>) -> Seq<SpecToken> {
    words_of(program).map_values(|p: (Seq<char>, nat)| SpecToken { kind: kind_of(p.0), line: p.1 })
}

/// The words the lexer finds are never empty, a string word ends with its closing
/// quote, and a word outside a string holds no quote.
pub open spec fn lex_wf(st: LexState) -> bool {
    &&& forall|i: int| 0 <= i < st.words.len() ==> {
        let w = #[trigger] st.words[i].0;
        &&& w.len() > 0
        &&& w[0] == '"' ==> w.len() >= 2 && w.last() == '"'
    }
    &&& st.in_string ==> st.word.len() >= 1 && st.word[0] == '"'
    &&& !st.in_string ==> forall|j: int| 0 <= j < st.word.len() ==> st.word[j] != '"'
}

proof fn lemma_lex_step_wf(st: LexState, c: char)
    requires
        lex_wf(st),
    ensures
        lex_wf(lex_step(st, c)),
        lex_step(st, c).line <= st.line + 1,
        lex_step(st, c).words.len() >= st.words.len(),
        forall|i: int| 0 <= i < st.words.len() ==> lex_step(st, c).words[i] == st.words[i],
{
    let n = lex_step(st, c);
    if !st.comment && !st.in_string && st.word.len() > 0 {
        assert(st.word[0] != '"');
    }
    if !st.comment && st.in_string && c == '"' {
        assert(st.word.push(c).last() == '"');
        assert(st.word.push(c)[0] == '"');
    }
    if !st.comment && !st.in_string && !(c == '#') && !is_whitespace(c) && !is_operator(c) && c != '"' {
        assert forall|j: int| 0 <= j < n.word.len() implies n.word[j] != '"' by {
            if j < st.word.len() {
                assert(n.word[j] == st.word[j]);
            }
        }
    }
    if !st.comment && st.in_string && c != '"' {
        assert(n.word[0] == st.word[0]);
    }
}

/// The lexer's state after any program is well formed, and its line is at most
/// one more than the number of characters read.
pub proof fn lemma_lex_wf(s: Seq<char>)
    ensures
        lex_wf(lex(s)),
        lex(s).line <= s.len() + 1,
    decreases s.len(),
{
    if s.len() > 0 {
        lemma_lex_wf(s.drop_last());
        lemma_lex_step_wf(lex(s.drop_last()), s.last());
    }
}

/// The words found so far stand on lines from 1 up to the current line, in order.
spec fn lines_ordered(st: LexState) -> bool {
    &&& st.line >= 1
    &&& forall|i: int| 0 <= i < st.words.len() ==> 1 <= #[trigger] st.words[i].1 <= st.line
    &&& forall|i: int, j: int| 0 <= i <= j < st.words.len() ==> st.words[i].1 <= st.words[j].1
}

proof fn lemma_lines_ordered(s: Seq<char>)
    ensures
        lines_ordered(lex(s)),
    decreases s.len(),
{
    if s.len() > 0 {
        lemma_lines_ordered(s.drop_last());
    }
}

/// No token of a program is `Root`, and the tokens stand on lines from 1 up to
/// one more than the newlines of the program, in the order of the program.
pub proof fn lemma_token_lines(program: Seq<char>)
    ensures
        forall|i: int| 0 <= i < tokens_of(program).len() ==> !(#[trigger] tokens_of(program)[i].kind is Root),
        forall|i: int| 0 <= i < tokens_of(program).len() ==>
            1 <= #[trigger] tokens_of(program)[i].line <= 1 + newlines(program),
        forall|i: int, j: int| 0 <= i <= j < tokens_of(program).len() ==>
            #[trigger] tokens_of(program)[i].line <= #[trigger] tokens_of(program)[j].line,
{
    lemma_lines_ordered(program);
    let ws = words_of(program);
    assert forall|i: int| 0 <= i < tokens_of(program).len() implies !(#[trigger] tokens_of(program)[i].kind is Root) by {
        assert(tokens_of(program)[i].kind == kind_of(ws[i].0));
    }
    lemma_lex_line(program);
    assert forall|i: int| 0 <= i < tokens_of(program).len() implies
        1 <= #[trigger] tokens_of(program)[i].line <= 1 + newlines(program) by {
        assert(tokens_of(program)[i].line == ws[i].1);
    }
    assert forall|i: int, j: int| 0 <= i <= j < tokens_of(program).len() implies
        #[trigger] tokens_of(program)[i].line <= #[trigger] tokens_of(program)[j].line by {
        assert(tokens_of(program)[i].line == ws[i].1);
        assert(tokens_of(program)[j].line == ws[j].1);
    }
}

/// The number of newlines in `s`.
pub open spec fn newlines(s: Seq<char>) -> nat
    decreases s.len(),
{
    if s.len() == 0 {
        0
    } else {
        newlines(s.drop_last()) + if s.last() == '\n' { 1nat } else { 0nat }
    }
}

/// The lexer's line after reading `s` is one more than the newlines in `s`.
pub proof fn lemma_lex_line(s: Seq<char>)
    ensures
        lex(s).line == 1 + newlines(s),
    decreases s.len(),
{
    if s.len() > 0 {
        lemma_lex_line(s.drop_last());
    }
}

/// The state of the lexer after reading `s` from state `st`.
pub open spec fn lex_from(st: LexState, s: Seq<char>) -> LexState
    decreases s.len(),
{
    if s.len() == 0 {
        st
    } else {
        lex_step(lex_from(st, s.drop_last()), s.last())
    }
}

proof fn lemma_lex_append(p: Seq<char>, q: Seq<char>)
    ensures
        lex(p + q) == lex_from(lex(p), q),
    decreases q.len(),
{
    if q.len() == 0 {
        assert(p + q =~= p);
    } else {
        assert((p + q).drop_last() =~= p + q.drop_last());
        assert((p + q).last() == q.last());
        lemma_lex_append(p, q.drop_last());
    }
}

/// Words with their lines moved down by `d`.
pub open spec fn shift_words(ws: Seq<(Seq<char>, nat)>, d: nat) -> Seq<(Seq<char>, nat)> {
    ws.map_values(|p: (Seq<char>, nat)| (p.0, p.1 + d))
}

/// Tokens with their lines moved down by `d`.
pub open spec fn shift_tokens(ts: Seq<SpecToken>, d: nat) -> Seq<SpecToken> {
    ts.map_values(|t: SpecToken| SpecToken { kind: t.kind, line: t.line + d })
}

proof fn lemma_shift_push(base: Seq<(Seq<char>, nat)>, ws: Seq<(Seq<char>, nat)>, d: nat, w: Seq<char>, line: nat)
    ensures
        (base + shift_words(ws, d)).push((w, line + d)) == base + shift_words(ws.push((w, line)), d),
        flush(base + shift_words(ws, d), w, line + d) == base + shift_words(flush(ws, w, line), d),
{
    assert((base + shift_words(ws, d)).push((w, line + d)) =~= base + shift_words(ws.push((w, line)), d));
}

/// Reading `q` from a state between words, outside comments and strings, finds
/// the words that reading `q` from the start finds, after the words already
/// found and with their lines moved down by the lines already read.
proof fn lemma_lex_from_boundary(st: LexState, q: Seq<char>)
    requires
        st.word.len() == 0,
        !st.comment,
        !st.in_string,
        st.line >= 1,
    ensures
        lex_from(st, q).words == st.words + shift_words(lex(q).words, (st.line - 1) as nat),
        lex_from(st, q).line == lex(q).line + (st.line - 1),
        lex_from(st, q).word == lex(q).word,
        lex_from(st, q).comment == lex(q).comment,
        lex_from(st, q).in_string == lex(q).in_string,
    decreases q.len(),
{
    let d = (st.line - 1) as nat;
    if q.len() == 0 {
        assert(st.words + shift_words(Seq::empty(), d) =~= st.words);
    } else {
        lemma_lex_from_boundary(st, q.drop_last());
        let a = lex_from(st, q.drop_last());
        let b = lex(q.drop_last());
        let c = q.last();
        lemma_shift_push(st.words, b.words, d, b.word, b.line);
        lemma_shift_push(st.words, b.words, d, b.word.push(c), b.line);
        lemma_shift_push(st.words, flush(b.words, b.word, b.line), d, seq![c], b.line);
    }
}

/// Tokenizing a program `p` followed by `q`, where `p` ends with whitespace
/// outside any comment or string, gives the tokens of `p` and then those of `q`,
/// their lines moved down by the newlines of `p`; and the program can be
/// tokenized exactly when both parts can.
pub proof fn lemma_tokens_concat(p: Seq<char>, q: Seq<char>)
    requires
        p.len() > 0,
        is_whitespace(p.last()),
        !lex(p).comment,
        !lex(p).in_string,
    ensures
        tokens_of(p + q) == tokens_of(p) + shift_tokens(tokens_of(q), newlines(p)),
        lexable(p + q) <==> lexable(p) && lexable(q),
{
    let lp = lex(p);
    let prev = lex(p.drop_last());
    assert(lp == lex_step(prev, p.last()));
    assert(lp.word.len() == 0);
    lemma_lex_line(p);
    lemma_lex_append(p, q);
    lemma_lex_from_boundary(lp, q);
    let d = newlines(p);
    let wp = words_of(p);
    let wq = words_of(q);
    assert(words_of(p + q) == wp + shift_words(wq, d));
    assert(tokens_of(p + q) =~= tokens_of(p) + shift_tokens(tokens_of(q), d));
    if lexable(p + q) {
        assert forall|i: int| 0 <= i < wp.len() implies #[trigger] wp[i].0 != seq!['\''] by {
            assert(words_of(p + q)[i] == wp[i]);
        }
        assert forall|i: int| 0 <= i < wq.len() implies #[trigger] wq[i].0 != seq!['\''] by {
            assert(words_of(p + q)[wp.len() + i].0 == wq[i].0);
        }
    }
    if lexable(p) && lexable(q) {
        assert forall|i: int| 0 <= i < words_of(p + q).len() implies #[trigger] words_of(p + q)[i].0 != seq!['\''] by {
            if i < wp.len() {
                assert(words_of(p + q)[i] == wp[i]);
            } else {
                assert(words_of(p + q)[i].0 == wq[i - wp.len()].0);
            }
        }
    }
}

/// An operator character read outside any comment or string ends the word being
/// read and is a token of its own, whatever stands around it: the tokens of
/// `w`, an operator `c` and then `v` are those of `w` with its last word ended
/// (as a space would end it), then `c` alone on the line where it stands, then
/// the tokens of `v` with their lines moved down by the newlines of `w`.
pub proof fn lemma_operator_splits(w: Seq<char>, c: char, v: Seq<char>)
    requires
        is_operator(c),
        !lex(w).comment,
        !lex(w).in_string,
    ensures
        tokens_of(w + seq![c] + v) == tokens_of(w.push(' ')) + seq![
            SpecToken { kind: kind_of(seq![c]), line: 1 + newlines(w) },
        ] + shift_tokens(tokens_of(v), newlines(w)),
{
    let lw = lex(w);
    assert(w.push(c).drop_last() =~= w);
    assert(w.push(' ').drop_last() =~= w);
    let lc = lex(w.push(c));
    let ls = lex(w.push(' '));
    assert(lc == lex_step(lw, c));
    assert(ls == lex_step(lw, ' '));
    assert(is_whitespace(' '));
    assert(lc.words == ls.words.push((seq![c], lw.line)));
    lemma_lex_line(w);
    lemma_lex_wf(w);
    assert(w + seq![c] + v =~= w.push(c) + v);
    lemma_lex_append(w.push(c), v);
    lemma_lex_from_boundary(lc, v);
    assert(lc.line == lw.line);
    let d = newlines(w);
    assert(words_of(w + seq![c] + v) == ls.words.push((seq![c], 1 + d)) + shift_words(words_of(v), d));
    assert(tokens_of(w + seq![c] + v) =~= tokens_of(w.push(' ')) + seq![
        SpecToken { kind: kind_of(seq![c]), line: 1 + newlines(w) },
    ] + shift_tokens(tokens_of(v), newlines(w)));
}

/// The words of a program with their lines (see `words_of`).
fn lex_words(program: &str) -> (words: Vec<(String, usize)>)
    requires
        program@.len() < usize::MAX,
    ensures
        words@.len() == words_of(program@).len(),
        forall|i: int| 0 <= i < words@.len() ==>
            (#[trigger] words@[i]).0@ == words_of(program@)[i].0 && words@[i].1 as nat == words_of(program@)[i].1,
{
    let chars = chars_of(program);
    let mut words: Vec<(String, usize)> = Vec::new();
    let mut line: usize = 1;
    let mut word = String::new();
    let mut comment = false;
    let mut in_string = false;
    let mut i: usize = 0;
    assert(program@.take(0) =~= Seq::<char>::empty());
    while i < chars.len()
        invariant
            chars@ == program@,
            program@.len() < usize::MAX,
            i <= chars@.len(),
            ({
                let st = lex(program@.take(i as int));
                &&& st.line == line as nat
                &&& st.word == word@
                &&& st.comment == comment
                &&& st.in_string == in_string
                &&& st.words.len() == words@.len()
                &&& forall|k: int| 0 <= k < words@.len() ==>
                    (#[trigger] words@[k]).0@ == st.words[k].0 && words@[k].1 as nat == st.words[k].1
            }),
            line <= i + 1,
        decreases chars@.len() - i,
    {
        let c = chars[i];
        let ghost prev = lex(program@.take(i as int));
        assert(program@.take(i + 1).drop_last() =~= program@.take(i as int));
        proof {
            lemma_lex_wf(program@.take(i as int));
        }
        if comment {
            if c == '#' {
                comment = false;
            }
        } else if in_string {
            if c == '"' {
                in_string = false;
                word.push(c);
                words.push((word, line));
                word = String::new();
            } else {
                word.push(c);
            }
        } else if c == '#' {
            comment = true;
            if !word.as_str().is_empty() {
                words.push((word, line));
            }
            word = String::new();
        } else if is_whitespace_exec(c) {
            if !word.as_str().is_empty() {
                words.push((word, line));
            }
            word = String::new();
        } else if is_operator_exec(c) {
            if !word.as_str().is_empty() {
                words.push((word, line));
            }
            word = String::new();
            let mut op = String::new();
            op.push(c);
            words.push((op, line));
        } else if c == '"' {
            in_string = true;
            if !word.as_str().is_empty() {
                words.push((word, line));
            }
            word = String::new();
            word.push('"');
        } else {
            word.push(c);
        }
        if c == '\n' {
            line += 1;
        }
        i += 1;
        proof {
            let st = lex(program@.take(i as int));
            assert(st == lex_step(prev, c));
            assert(word@ =~= st.word);
            assert(st.words.len() == words@.len());
        }
    }
    assert(program@.take(chars@.len() as int) =~= program@);
    words
}


fn tokens_from_words(words: &Vec<(String, usize)>, Ghost(program): Ghost<Seq<char>>) -> (tokens: Vec<Token>)
    requires
        lexable(program),
        words@.len() == words_of(program).len(),
        forall|i: int| 0 <= i < words@.len() ==>
            (#[trigger] words@[i]).0@ == words_of(program)[i].0 && words@[i].1 as nat == words_of(program)[i].1,
    ensures
        tokens@.len() == tokens_of(program).len(),
        forall|i: int| 0 <= i < tokens@.len() ==> (#[trigger] tokens@[i])@ == tokens_of(program)[i],
{
    proof {
        lemma_lex_wf(program);
    }
    let mut tokens: Vec<Token> = Vec::new();
    let mut i: usize = 0;
    while i < words.len()
        invariant
            lexable(program),
            lex_wf(lex(program)),
            words@.len() == words_of(program).len(),
            forall|k: int| 0 <= k < words@.len() ==>
                (#[trigger] words@[k]).0@ == words_of(program)[k].0 && words@[k].1 as nat == words_of(program)[k].1,
            i <= words@.len(),
            tokens@.len() == i,
            forall|k: int| 0 <= k < i ==> (#[trigger] tokens@[k])@ == tokens_of(program)[k],
        decreases words@.len() - i,
    {
        let ghost w = words_of(program)[i as int].0;
        assert(w == lex(program).words[i as int].0);
        assert(w != seq!['\'']);
        assert(w.len() > 0);
        proof {
            if w[0] == '\'' && w.len() == 1 {
                assert(w =~= seq!['\'']);
            }
        }
        let kind = token_to_kind(words[i].0.as_str());
        tokens.push(Token { token: kind, line: words[i].1 });
        i += 1;
    }
    tokens
}

/// The tokens of a program (see `tokens_of`).
pub fn tokenize(program: String) -> (tokens: Vec<Token>)
    requires
        program@.len() < usize::MAX,
        lexable(program@),
    ensures
        tokens@.len() == tokens_of(program@).len(),
        forall|i: int| 0 <= i < tokens@.len() ==> (#[trigger] tokens@[i])@ == tokens_of(program@)[i],
{
    let words = lex_words(program.as_str());
    tokens_from_words(&words, Ghost(program@))
}

/// The tokens of a program, or `None` where a word is a lone single quote, on
/// which `tokenize` has no token to give.
pub fn try_tokenize(program: String) -> (tokens: Option<Vec<Token>>)
    requires
        program@.len() < usize::MAX,
    ensures
        tokens is Some <==> lexable(program@),
        tokens matches Some(t) ==> t@.len() == tokens_of(program@).len()
            && forall|i: int| 0 <= i < t@.len() ==> (#[trigger] t@[i])@ == tokens_of(program@)[i],
{
    let words = lex_words(program.as_str());
    let mut i: usize = 0;
    while i < words.len()
        invariant
            words@.len() == words_of(program@).len(),
            forall|k: int| 0 <= k < words@.len() ==>
                (#[trigger] words@[k]).0@ == words_of(program@)[k].0 && words@[k].1 as nat == words_of(program@)[k].1,
            i <= words@.len(),
            forall|k: int| 0 <= k < i ==> #[trigger] words_of(program@)[k].0 != seq!['\''],
        decreases words@.len() - i,
    {
        let v = chars_of(words[i].0.as_str());
        if v.len() == 1 && v[0] == '\'' {
            assert(v@ =~= seq!['\'']);
            assert(!lexable(program@));
            return None;
        }
        assert(words_of(program@)[i as int].0 != seq!['\'']) by {
            if words_of(program@)[i as int].0 == seq!['\''] {
                assert(v@.len() == 1 && v@[0] == '\'');
            }
        }
        i += 1;
    }
    Some(tokens_from_words(&words, Ghost(program@)))
}


/// A node of the tree under construction whose children are not all read yet:
/// its token and the subtrees read so far.
pub struct OpenNode {
    pub data: SpecToken,
    pub children: Seq<STree<SpecToken>>,
}

/// The finished tree of an open node.
pub open spec fn close(n: OpenNode) -> STree<SpecToken> {
    STree { data: n.data, children: n.children }
}

/// The node the concrete parser starts from.
pub open spec fn root_node() -> OpenNode {
    OpenNode { data: SpecToken { kind: SpecTokenKind::Root, line: 0 }, children: Seq::empty() }
}

/// Moving from the innermost open node to its parent: the innermost node is
/// finished and becomes the last child of the node around it.
pub open spec fn pop_node(st: Seq<OpenNode>) -> Seq<OpenNode> {
    let parent = st[st.len() - 2];
    st.take(st.len() - 2).push(OpenNode { data: parent.data, children: parent.children.push(close(st.last())) })
}

/// Moving to the parent, or the parse error `msg` at `line` where the innermost
/// node is the outermost one.
pub open spec fn ascend(st: Seq<OpenNode>, line: nat, msg: Seq<char>) -> Result<Seq<OpenNode>, SpecError> {
    if st.len() >= 2 {
        Ok(pop_node(st))
    } else {
        Err(SpecError::ParseError(line, msg))
    }
}

/// Moving out until the innermost open node is of kind `k`, or the parse error
/// `msg` at `line` where no open node is.
pub open spec fn unwind_to(st: Seq<OpenNode>, k: SpecTokenKind, line: nat, msg: Seq<char>) -> Result<Seq<OpenNode>, SpecError>
    decreases st.len(),
{
    if st.len() > 0 && st.last().data.kind == k {
        Ok(st)
    } else if st.len() < 2 {
        Err(SpecError::ParseError(line, msg))
    } else {
        unwind_to(pop_node(st), k, line, msg)
    }
}

/// The tokens that open a node whose children are the tokens after it.
pub open spec fn opens_node(k: SpecTokenKind) -> bool {
    ||| k is SetField
    ||| k is Get
    ||| k is Let
    ||| k is Yield
    ||| k is Implement
    ||| k is Type
    ||| k is Block
    ||| k is Message
    ||| k is List
    ||| k is Operation
    ||| k is Define
    ||| k is Lambda
}

/// The tokens that are leaves of the tree.
pub open spec fn is_leaf(k: SpecTokenKind) -> bool {
    ||| k is Number
    ||| k is Character
    ||| k is String
    ||| k is Identifier
    ||| k is New
    ||| k is Self_
    ||| k is Unit
    ||| k is For
}

/// The innermost open node with `leaf` added as its last child.
pub open spec fn add_leaf(st: Seq<OpenNode>, leaf: SpecToken) -> Seq<OpenNode> {
    let top = st.last();
    st.update(
        st.len() - 1,
        OpenNode { data: top.data, children: top.children.push(STree { data: leaf, children: Seq::empty() }) },
    )
}

/// One token read by the concrete parser, from the stack of open nodes, the
/// outermost first. An opening token opens a node below the innermost one; a leaf
/// is added to the innermost node, and closes it where that is a `def` with two
/// children; `;` moves out to the innermost block; a closing bracket moves out of
/// the innermost node it closes, and `}` then also out of an `impl`, `type` or
/// lambda the block belonged to.
pub open spec fn concrete_step(st: Seq<OpenNode>, tok: SpecToken) -> Result<Seq<OpenNode>, SpecError> {
    let line = tok.line;
    if tok.kind is Root {
        Err(SpecError::ParseError(line, "Unexpected `Root` token found in program. Likely an internal error."@))
    } else if opens_node(tok.kind) {
        Ok(st.push(OpenNode { data: tok, children: Seq::empty() }))
    } else if is_leaf(tok.kind) {
        let added = add_leaf(st, tok);
        if added.last().data.kind is Define && added.last().children.len() >= 2 {
            ascend(added, line, "Internal error: `def` block escaped root."@)
        } else {
            Ok(added)
        }
    } else if tok.kind is Semicolon {
        unwind_to(st, SpecTokenKind::Block, line, "Unexpected semicolon"@)
    } else if tok.kind is EndBlock {
        match unwind_to(st, SpecTokenKind::Block, line, "Unmatched `}` or `end` symbol."@) {
            Err(e) => Err(e),
            Ok(s1) => match ascend(s1, line, "Unmatched `}` or `end` symbol."@) {
                Err(e) => Err(e),
                Ok(s2) => {
                    if s2.last().data.kind is Implement || s2.last().data.kind is Type {
                        ascend(s2, line, "Internal Error: `impl` or `type` block escaped root."@)
                    } else if s2.last().data.kind is Lambda {
                        ascend(s2, line, "Internal Error: `lambda` block escaped root."@)
                    } else {
                        Ok(s2)
                    }
                },
            },
        }
    } else if tok.kind is EndMessage {
        match unwind_to(st, SpecTokenKind::Message, line, "Unmatched `]` or `end` symbol."@) {
            Err(e) => Err(e),
            Ok(s1) => ascend(s1, line, "Unmatched `]` symbol."@),
        }
    } else if tok.kind is EndList {
        match unwind_to(st, SpecTokenKind::List, line, "Unmatched `)` symbol."@) {
            Err(e) => Err(e),
            Ok(s1) => ascend(s1, line, "Unmatched `)` symbol."@),
        }
    } else {
        match unwind_to(st, SpecTokenKind::Operation, line, "Unmatched `>` symbol."@) {
            Err(e) => Err(e),
            Ok(s1) => ascend(s1, line, "Unmatched `>` symbol."@),
        }
    }
}

/// The open nodes after reading `tokens`, or the first error.
pub open spec fn concrete_run(tokens: Seq<SpecToken>) -> Result<Seq<OpenNode>, SpecError>
    decreases tokens.len(),
{
    if tokens.len() == 0 {
        Ok(seq![root_node()])
    } else {
        match concrete_run(tokens.drop_last()) {
            Ok(st) => concrete_step(st, tokens.last()),
            Err(e) => Err(e),
        }
    }
}

/// The concrete syntax tree of `tokens`: the innermost node open after the last
/// token, finished, or the first error.
pub open spec fn concrete_of(tokens: Seq<SpecToken>) -> Result<STree<SpecToken>, SpecError> {
    match concrete_run(tokens) {
        Ok(st) => Ok(close(st.last())),
        Err(e) => Err(e),
    }
}

/// The values of a sequence of tokens.
pub open spec fn tokens_view(ts: Seq<Token>) -> Seq<SpecToken> {
    Seq::new(ts.len(), |i: int| ts[i]@)
}

/// A node of the tree under construction, with the children read so far.
#[derive(Debug, PartialEq)]
pub struct MutTree {
    pub data: Token,
    pub children: Vec<FlatTree<Token>>,
}

impl View for MutTree {
    type V = OpenNode;

    open spec fn view(&self) -> OpenNode {
        OpenNode { data: self.data@, children: trees_view(self.children@) }
    }
}

/// The values of a stack of nodes.
pub open spec fn stack_view(s: Seq<MutTree>) -> Seq<OpenNode> {
    Seq::new(s.len(), |i: int| s[i]@)
}

impl MutTree {
    /// A node of `data` with no children yet.
    pub fn new(data: Token) -> (node: MutTree)
        ensures
            node@ == (OpenNode { data: data@, children: Seq::empty() }),
    {
        let node = MutTree { data, children: Vec::new() };
        assert(node@.children =~= Seq::<STree<SpecToken>>::empty());
        node
    }

    /// The node the concrete parser starts from.
    pub fn root() -> (node: MutTree)
        ensures
            node@ == root_node(),
    {
        MutTree::new(Token { token: TokenKind::Root, line: 0 })
    }

    /// The finished tree of this node.
    pub fn flatten(self) -> (tree: FlatTree<Token>)
        ensures
            tree@ == close(self@),
    {
        FlatTree::new(self.data, self.children)
    }

    /// Adds `child` after the children read so far.
    pub fn add_child(&mut self, child: FlatTree<Token>)
        ensures
            final(self)@ == (OpenNode { data: old(self)@.data, children: old(self)@.children.push(child@) }),
    {
        let ghost before = self.children@;
        self.children.push(child);
        assert(self.children@.drop_last() =~= before);
    }
}

fn pop_exec(stack: &mut Vec<MutTree>)
    requires
        old(stack)@.len() >= 2,
    ensures
        stack_view(final(stack)@) == pop_node(stack_view(old(stack)@)),
        final(stack)@.len() == old(stack)@.len() - 1,
{
    let ghost before = stack_view(stack@);
    let top = stack.pop().unwrap();
    let mut parent = stack.pop().unwrap();
    parent.add_child(top.flatten());
    stack.push(parent);
    assert(stack_view(stack@) =~= pop_node(before));
}

fn ascend_exec(stack: &mut Vec<MutTree>, line: usize, msg: &str) -> (r: Result<(), Error>)
    requires
        old(stack)@.len() >= 1,
    ensures
        match ascend(stack_view(old(stack)@), line as nat, msg@) {
            Ok(s) => r is Ok && stack_view(final(stack)@) == s && final(stack)@.len() >= 1,
            Err(e) => r matches Err(x) && x@ == e,
        },
{
    if stack.len() >= 2 {
        pop_exec(stack);
        Ok(())
    } else {
        Err(Error::ParseError(line, String::from_str(msg)))
    }
}

/// The brackets that the concrete parser moves out to.
enum Bracket {
    Block,
    Message,
    List,
    Operation,
}

spec fn bracket_kind(b: Bracket) -> SpecTokenKind {
    match b {
        Bracket::Block => SpecTokenKind::Block,
        Bracket::Message => SpecTokenKind::Message,
        Bracket::List => SpecTokenKind::List,
        Bracket::Operation => SpecTokenKind::Operation,
    }
}

fn is_bracket(k: &TokenKind, b: &Bracket) -> (r: bool)
    ensures
        r == (k@ == bracket_kind(*b)),
{
    match (k, b) {
        (TokenKind::Block, Bracket::Block) => true,
        (TokenKind::Message, Bracket::Message) => true,
        (TokenKind::List, Bracket::List) => true,
        (TokenKind::Operation, Bracket::Operation) => true,
        _ => false,
    }
}

fn unwind_exec(stack: &mut Vec<MutTree>, b: Bracket, line: usize, msg: &str) -> (r: Result<(), Error>)
    requires
        old(stack)@.len() >= 1,
    ensures
        match unwind_to(stack_view(old(stack)@), bracket_kind(b), line as nat, msg@) {
            Ok(s) => r is Ok && stack_view(final(stack)@) == s && final(stack)@.len() >= 1,
            Err(e) => r matches Err(x) && x@ == e,
        },
{
    loop
        invariant
            stack@.len() >= 1,
            unwind_to(stack_view(old(stack)@), bracket_kind(b), line as nat, msg@)
                == unwind_to(stack_view(stack@), bracket_kind(b), line as nat, msg@),
        decreases stack@.len(),
    {
        let n = stack.len();
        assert(stack_view(stack@).last() == stack@[n - 1]@);
        if is_bracket(&stack[n - 1].data.token, &b) {
            return Ok(());
        }
        if n < 2 {
            return Err(Error::ParseError(line, String::from_str(msg)));
        }
        pop_exec(stack);
    }
}

/// What the concrete parser does with a token, by its kind.
enum Action {
    Reject,
    Open,
    Leaf,
    Semicolon,
    CloseBlock,
    CloseMessage,
    CloseList,
    CloseOperation,
}

fn action_of(k: &TokenKind) -> (a: Action)
    ensures
        a is Reject <==> k@ is Root,
        a is Open <==> opens_node(k@),
        a is Leaf <==> is_leaf(k@),
        a is Semicolon <==> k@ is Semicolon,
        a is CloseBlock <==> k@ is EndBlock,
        a is CloseMessage <==> k@ is EndMessage,
        a is CloseList <==> k@ is EndList,
        a is CloseOperation <==> k@ is EndOperation,
{
    match k {
        TokenKind::Root => Action::Reject,
        TokenKind::SetField | TokenKind::Get | TokenKind::Let | TokenKind::Yield | TokenKind::Implement
        | TokenKind::Type | TokenKind::Block | TokenKind::Message | TokenKind::List | TokenKind::Operation
        | TokenKind::Define | TokenKind::Lambda => Action::Open,
        TokenKind::Number(_) | TokenKind::Character(_) | TokenKind::String(_) | TokenKind::Identifier(_)
        | TokenKind::New | TokenKind::Self_ | TokenKind::Unit | TokenKind::For => Action::Leaf,
        TokenKind::Semicolon => Action::Semicolon,
        TokenKind::EndBlock => Action::CloseBlock,
        TokenKind::EndMessage => Action::CloseMessage,
        TokenKind::EndList => Action::CloseList,
        TokenKind::EndOperation => Action::CloseOperation,
    }
}

fn concrete_step_exec(stack: &mut Vec<MutTree>, token: Token) -> (r: Result<(), Error>)
    requires
        old(stack)@.len() >= 1,
    ensures
        match concrete_step(stack_view(old(stack)@), token@) {
            Ok(s) => r is Ok && stack_view(final(stack)@) == s && final(stack)@.len() >= 1,
            Err(e) => r matches Err(x) && x@ == e,
        },
{
    let ghost st = stack_view(stack@);
    let ghost tok = token@;
    let line = token.line;
    match action_of(&token.token) {
        Action::Reject => Err(Error::ParseError(
            line,
            String::from_str("Unexpected `Root` token found in program. Likely an internal error."),
        )),
        Action::Open => {
            stack.push(MutTree::new(token));
            assert(stack_view(stack@) =~= st.push(OpenNode { data: tok, children: Seq::empty() }));
            Ok(())
        },
        Action::Leaf => {
            let mut top = stack.pop().unwrap();
            let leaf = FlatTree::new(token, Vec::new());
            assert(leaf@.children =~= Seq::<STree<SpecToken>>::empty());
            top.add_child(leaf);
            let closes = match top.data.token {
                TokenKind::Define => top.children.len() >= 2,
                _ => false,
            };
            stack.push(top);
            proof {
                lemma_trees_view(top.children@);
                assert(stack_view(stack@) =~= add_leaf(st, tok));
            }
            if closes {
                ascend_exec(stack, line, "Internal error: `def` block escaped root.")
            } else {
                Ok(())
            }
        },
        Action::Semicolon => unwind_exec(stack, Bracket::Block, line, "Unexpected semicolon"),
        Action::CloseBlock => {
            match unwind_exec(stack, Bracket::Block, line, "Unmatched `}` or `end` symbol.") {
                Err(e) => return Err(e),
                Ok(()) => {},
            }
            match ascend_exec(stack, line, "Unmatched `}` or `end` symbol.") {
                Err(e) => return Err(e),
                Ok(()) => {},
            }
            let n = stack.len();
            assert(stack_view(stack@).last() == stack@[n - 1]@);
            match stack[n - 1].data.token {
                TokenKind::Implement | TokenKind::Type => ascend_exec(
                    stack,
                    line,
                    "Internal Error: `impl` or `type` block escaped root.",
                ),
                TokenKind::Lambda => ascend_exec(stack, line, "Internal Error: `lambda` block escaped root."),
                _ => Ok(()),
            }
        },
        Action::CloseMessage => {
            match unwind_exec(stack, Bracket::Message, line, "Unmatched `]` or `end` symbol.") {
                Err(e) => return Err(e),
                Ok(()) => {},
            }
            ascend_exec(stack, line, "Unmatched `]` symbol.")
        },
        Action::CloseList => {
            match unwind_exec(stack, Bracket::List, line, "Unmatched `)` symbol.") {
                Err(e) => return Err(e),
                Ok(()) => {},
            }
            ascend_exec(stack, line, "Unmatched `)` symbol.")
        },
        Action::CloseOperation => {
            match unwind_exec(stack, Bracket::Operation, line, "Unmatched `>` symbol.") {
                Err(e) => return Err(e),
                Ok(()) => {},
            }
            ascend_exec(stack, line, "Unmatched `>` symbol.")
        },
    }
}

/// The concrete syntax tree of a token sequence (see `concrete_of`).
pub fn parse_concrete(tokens: Vec<Token>) -> (tree: Result<FlatTree<Token>, Error>)
    ensures
        match concrete_of(tokens_view(tokens@)) {
            Ok(t) => tree matches Ok(x) && x@ == t,
            Err(e) => tree matches Err(x) && x@ == e,
        },
{
    let ghost tv = tokens_view(tokens@);
    let mut stack: Vec<MutTree> = Vec::new();
    stack.push(MutTree::root());
    assert(stack_view(stack@) =~= seq![root_node()]);
    assert(tv.take(0) =~= Seq::<SpecToken>::empty());
    for token in it: tokens.into_iter()
        invariant
            it.seq() == tokens@,
            tv == tokens_view(tokens@),
            stack@.len() >= 1,
            concrete_run(tv.take(it.index() as int)) == Ok::<Seq<OpenNode>, SpecError>(stack_view(stack@)),
    {
        let ghost i = it.index() as int;
        assert(tv.take(i + 1).drop_last() =~= tv.take(i));
        assert(tv.take(i + 1).last() == token@);
        match concrete_step_exec(&mut stack, token) {
            Err(e) => {
                proof {
                    lemma_concrete_run_stops(tv, i + 1);
                }
                return Err(e);
            },
            Ok(()) => {},
        }
    }
    assert(tv.take(tv.len() as int) =~= tv);
    let n = stack.len();
    assert(stack_view(stack@).last() == stack@[n - 1]@);
    let top = stack.pop().unwrap();
    Ok(top.flatten())
}

/// Once reading a prefix of the tokens fails, reading all of them fails the same way.
pub proof fn lemma_concrete_run_stops(tv: Seq<SpecToken>, k: int)
    requires
        0 <= k <= tv.len(),
        concrete_run(tv.take(k)) is Err,
    ensures
        concrete_run(tv) == concrete_run(tv.take(k)),
    decreases tv.len() - k,
{
    if k < tv.len() {
        assert(tv.take(k + 1).drop_last() =~= tv.take(k));
        lemma_concrete_run_stops(tv, k + 1);
    } else {
        assert(tv.take(k) =~= tv);
    }
}


/// The tokens of a tree in preorder: its root's, then those of each child in turn.
pub open spec fn preorder(t: STree<SpecToken>) -> Seq<SpecToken>
    decreases t,
{
    seq![t.data] + forest_pre(t.children)
}

/// The tokens of a sequence of trees in preorder, one tree after the other.
pub open spec fn forest_pre(ts: Seq<STree<SpecToken>>) -> Seq<SpecToken>
    decreases ts,
{
    if ts.len() == 0 {
        Seq::empty()
    } else {
        forest_pre(ts.subrange(0, ts.len() - 1)) + preorder(ts[ts.len() - 1])
    }
}

/// Every leaf token of the tree stands on a node without children.
pub open spec fn leaves_bare(t: STree<SpecToken>) -> bool
    decreases t,
{
    (is_leaf(t.data.kind) ==> t.children.len() == 0) && forest_bare(t.children)
}

/// `leaves_bare` of each tree of a sequence.
pub open spec fn forest_bare(ts: Seq<STree<SpecToken>>) -> bool
    decreases ts,
{
    ts.len() == 0 || (forest_bare(ts.subrange(0, ts.len() - 1)) && leaves_bare(ts[ts.len() - 1]))
}

/// The tokens that close a node: `;`, `}`, `]`, `)` and `>`.
pub open spec fn is_closing(k: SpecTokenKind) -> bool {
    ||| k is Semicolon
    ||| k is EndBlock
    ||| k is EndMessage
    ||| k is EndList
    ||| k is EndOperation
}

/// The tokens that are not closing ones, in order.
pub open spec fn kept_tokens(ts: Seq<SpecToken>) -> Seq<SpecToken>
    decreases ts.len(),
{
    if ts.len() == 0 {
        Seq::empty()
    } else if is_closing(ts.last().kind) {
        kept_tokens(ts.drop_last())
    } else {
        kept_tokens(ts.drop_last()).push(ts.last())
    }
}

/// The tokens of the open nodes in preorder: each node's token, then its
/// finished children, the outermost node first.
spec fn stack_pre(st: Seq<OpenNode>) -> Seq<SpecToken>
    decreases st.len(),
{
    if st.len() == 0 {
        Seq::empty()
    } else {
        stack_pre(st.drop_last()) + seq![st.last().data] + forest_pre(st.last().children)
    }
}

/// The stack of open nodes starts with the root, holds no other `Root`, and no
/// open node is a leaf; leaves among the finished children have no children.
spec fn stack_inv(st: Seq<OpenNode>) -> bool {
    &&& st.len() >= 1
    &&& st[0].data == root_node().data
    &&& forall|k: int| 1 <= k < st.len() ==> !(#[trigger] st[k].data.kind is Root)
    &&& forall|k: int| 0 <= k < st.len() ==> !is_leaf(#[trigger] st[k].data.kind) && forest_bare(st[k].children)
}

proof fn lemma_forest_push(ts: Seq<STree<SpecToken>>, t: STree<SpecToken>)
    ensures
        forest_pre(ts.push(t)) == forest_pre(ts) + preorder(t),
        forest_bare(ts.push(t)) == (forest_bare(ts) && leaves_bare(t)),
{
    assert(ts.push(t).subrange(0, ts.len() as int) =~= ts);
}

proof fn lemma_pop_inv(st: Seq<OpenNode>)
    requires
        stack_inv(st),
        st.len() >= 2,
    ensures
        stack_inv(pop_node(st)),
        stack_pre(pop_node(st)) == stack_pre(st),
{
    let n = st.len();
    let parent = st[n - 2];
    let last = st.last();
    let p = pop_node(st);
    lemma_forest_push(parent.children, close(last));
    assert(p == st.take(n - 2).push(OpenNode { data: parent.data, children: parent.children.push(close(last)) }));
    assert(p.drop_last() =~= st.take(n - 2));
    assert(st.drop_last().drop_last() =~= st.take(n - 2));
    assert(st.drop_last().last() == parent);
    let base = stack_pre(st.take(n - 2));
    assert(stack_pre(st.drop_last()) == base + seq![parent.data] + forest_pre(parent.children));
    assert(stack_pre(st) == stack_pre(st.drop_last()) + seq![last.data] + forest_pre(last.children));
    assert(p.last() == OpenNode { data: parent.data, children: parent.children.push(close(last)) });
    assert(stack_pre(p) == base + seq![parent.data] + forest_pre(parent.children.push(close(last))));
    assert(preorder(close(last)) == seq![last.data] + forest_pre(last.children));
    assert(stack_pre(p) =~= stack_pre(st));
    assert forall|k: int| 0 <= k < p.len() implies !is_leaf(#[trigger] p[k].data.kind) && forest_bare(p[k].children) by {
        if k < n - 2 {
            assert(p[k] == st[k]);
        }
    }
    assert forall|k: int| 1 <= k < p.len() implies !(#[trigger] p[k].data.kind is Root) by {
        if k < n - 2 {
            assert(p[k] == st[k]);
        }
    }
}

proof fn lemma_unwind_inv(st: Seq<OpenNode>, k: SpecTokenKind, line: nat, msg: Seq<char>)
    requires
        stack_inv(st),
    ensures
        unwind_to(st, k, line, msg) matches Ok(s2) ==> stack_inv(s2) && stack_pre(s2) == stack_pre(st),
    decreases st.len(),
{
    if !(st.len() > 0 && st.last().data.kind == k) && st.len() >= 2 {
        lemma_pop_inv(st);
        lemma_unwind_inv(pop_node(st), k, line, msg);
    }
}

proof fn lemma_ascend_inv(st: Seq<OpenNode>, line: nat, msg: Seq<char>)
    requires
        stack_inv(st),
    ensures
        ascend(st, line, msg) matches Ok(s2) ==> stack_inv(s2) && stack_pre(s2) == stack_pre(st),
{
    if st.len() >= 2 {
        lemma_pop_inv(st);
    }
}

proof fn lemma_step_inv(st: Seq<OpenNode>, tok: SpecToken)
    requires
        stack_inv(st),
    ensures
        concrete_step(st, tok) matches Ok(s2) ==> stack_inv(s2) && stack_pre(s2) == stack_pre(st) + (if is_closing(
            tok.kind,
        ) {
            Seq::<SpecToken>::empty()
        } else {
            seq![tok]
        }),
{
    let line = tok.line;
    if tok.kind is Root {
    } else if opens_node(tok.kind) {
        let s2 = st.push(OpenNode { data: tok, children: Seq::empty() });
        assert(s2.drop_last() =~= st);
        assert(stack_pre(s2) =~= stack_pre(st) + seq![tok]);
        assert forall|k: int| 0 <= k < s2.len() implies !is_leaf(#[trigger] s2[k].data.kind) && forest_bare(s2[k].children) by {
            if k < st.len() {
                assert(s2[k] == st[k]);
            }
        }
        assert forall|k: int| 1 <= k < s2.len() implies !(#[trigger] s2[k].data.kind is Root) by {
            if k < st.len() {
                assert(s2[k] == st[k]);
            }
        }
    } else if is_leaf(tok.kind) {
        let top = st.last();
        let leaf = STree { data: tok, children: Seq::<STree<SpecToken>>::empty() };
        let added = add_leaf(st, tok);
        lemma_forest_push(top.children, leaf);
        assert(forest_pre(leaf.children) =~= Seq::<SpecToken>::empty());
        assert(added.drop_last() =~= st.drop_last());
        assert(stack_pre(added) =~= stack_pre(st) + seq![tok]);
        assert forall|k: int| 0 <= k < added.len() implies !is_leaf(#[trigger] added[k].data.kind) && forest_bare(added[k].children) by {
            if k < st.len() - 1 {
                assert(added[k] == st[k]);
            }
        }
        assert forall|k: int| 1 <= k < added.len() implies !(#[trigger] added[k].data.kind is Root) by {
            if k < st.len() - 1 {
                assert(added[k] == st[k]);
            }
        }
        lemma_ascend_inv(added, line, "Internal error: `def` block escaped root."@);
    } else if tok.kind is Semicolon {
        lemma_unwind_inv(st, SpecTokenKind::Block, line, "Unexpected semicolon"@);
        assert(stack_pre(st) + Seq::<SpecToken>::empty() =~= stack_pre(st));
    } else {
        assert(stack_pre(st) + Seq::<SpecToken>::empty() =~= stack_pre(st));
        if tok.kind is EndBlock {
            let m = "Unmatched `}` or `end` symbol."@;
            lemma_unwind_inv(st, SpecTokenKind::Block, line, m);
            if let Ok(s1) = unwind_to(st, SpecTokenKind::Block, line, m) {
                lemma_ascend_inv(s1, line, m);
                if let Ok(s2) = ascend(s1, line, m) {
                    lemma_ascend_inv(s2, line, "Internal Error: `impl` or `type` block escaped root."@);
                    lemma_ascend_inv(s2, line, "Internal Error: `lambda` block escaped root."@);
                }
            }
        } else if tok.kind is EndMessage {
            lemma_unwind_inv(st, SpecTokenKind::Message, line, "Unmatched `]` or `end` symbol."@);
            if let Ok(s1) = unwind_to(st, SpecTokenKind::Message, line, "Unmatched `]` or `end` symbol."@) {
                lemma_ascend_inv(s1, line, "Unmatched `]` symbol."@);
            }
        } else if tok.kind is EndList {
            lemma_unwind_inv(st, SpecTokenKind::List, line, "Unmatched `)` symbol."@);
            if let Ok(s1) = unwind_to(st, SpecTokenKind::List, line, "Unmatched `)` symbol."@) {
                lemma_ascend_inv(s1, line, "Unmatched `)` symbol."@);
            }
        } else {
            lemma_unwind_inv(st, SpecTokenKind::Operation, line, "Unmatched `>` symbol."@);
            if let Ok(s1) = unwind_to(st, SpecTokenKind::Operation, line, "Unmatched `>` symbol."@) {
                lemma_ascend_inv(s1, line, "Unmatched `>` symbol."@);
            }
        }
    }
}

proof fn lemma_run_inv(tokens: Seq<SpecToken>)
    ensures
        concrete_run(tokens) matches Ok(st) ==> stack_inv(st) && stack_pre(st) == seq![root_node().data]
            + kept_tokens(tokens),
    decreases tokens.len(),
{
    if tokens.len() == 0 {
        let st = seq![root_node()];
        assert(st.drop_last() =~= Seq::<OpenNode>::empty());
        assert(forest_pre(Seq::<STree<SpecToken>>::empty()) =~= Seq::<SpecToken>::empty());
        assert(stack_pre(Seq::<OpenNode>::empty()) =~= Seq::<SpecToken>::empty());
        assert(stack_pre(st) =~= seq![root_node().data] + kept_tokens(tokens));
    } else {
        lemma_run_inv(tokens.drop_last());
        if let Ok(st) = concrete_run(tokens.drop_last()) {
            lemma_step_inv(st, tokens.last());
            let k = kept_tokens(tokens.drop_last());
            assert(seq![root_node().data] + k + seq![tokens.last()] =~= seq![root_node().data] + k.push(
                tokens.last(),
            ));
        }
    }
}

/// The concrete parser keeps every token but the closing ones, in order: the
/// tree of a token sequence, where its root is `Root`, holds in preorder the
/// `Root` token at line 0 and then the tokens that are not `;`, `}`, `]`, `)` or
/// `>`, in the order they came. And a leaf token is always a node without
/// children.
pub proof fn lemma_concrete_preorder(tokens: Seq<SpecToken>)
    ensures
        concrete_of(tokens) matches Ok(t) ==> leaves_bare(t),
        concrete_of(tokens) matches Ok(t) ==> (t.data.kind is Root ==> preorder(t) == seq![
            SpecToken { kind: SpecTokenKind::Root, line: 0 },
        ] + kept_tokens(tokens)),
{
    lemma_run_inv(tokens);
    if let Ok(st) = concrete_run(tokens) {
        let t = close(st.last());
        if st.len() >= 2 {
            assert(st[st.len() - 1] == st.last());
        }
        if t.data.kind is Root {
            assert(st[st.len() - 1] == st.last());
            assert(st.len() == 1);
            assert(st.drop_last() =~= Seq::<OpenNode>::empty());
            assert(stack_pre(Seq::<OpenNode>::empty()) =~= Seq::<SpecToken>::empty());
            assert(stack_pre(st) =~= preorder(t));
        }
    }
}

/// A node of the abstract syntax tree, with the line it stands on.
#[derive(Debug, Clone, PartialEq)]
pub struct AbstractToken {
    pub line: usize,
    pub token: AbstractKind,
}

/// A shorter name for `AbstractToken`.
pub type AToken = AbstractToken;

/// The kinds of nodes of the abstract syntax tree.
#[derive(Debug, Clone, PartialEq)]
pub enum AbstractKind {
    Root,
    SetField(String),
    Get(String),
    Let(String),
    /// A decimal literal with a `.`, as it is written; its value is a 32-bit float.
    Number(String),
    Integer(i32),
    Identifier(String),
    String(String),
    Character(char),
    Type(String, Vec<String>),
    Implement(String, Vec<String>, String),
    Block,
    Message,
    List,
    Expansion,
    Yield,
    Define(String, String),
    Lambda(Vec<String>),
    New,
    Self_,
    Unit,
}

/// A shorter name for `AbstractKind`.
pub type AKind = AbstractKind;

/// The mathematical value of an `AbstractKind`.
pub enum SpecAbstractKind {
    Root,
    SetField(Seq<char>),
    Get(Seq<char>),
    Let(Seq<char>),
    Number(Seq<char>),
    Integer(i32),
    Identifier(Seq<char>),
    String(Seq<char>),
    Character(char),
    Type(Seq<char>, Seq<Seq<char>>),
    Implement(Seq<char>, Seq<Seq<char>>, Seq<char>),
    Block,
    Message,
    List,
    Expansion,
    Yield,
    Define(Seq<char>, Seq<char>),
    Lambda(Seq<Seq<char>>),
    New,
    Self_,
    Unit,
}

/// The mathematical value of an `AbstractToken`.
pub struct SpecAToken {
    pub line: nat,
    pub kind: SpecAbstractKind,
}

/// The texts of a sequence of strings.
pub open spec fn strings_view(v: Seq<String>) -> Seq<Seq<char>> {
    Seq::new(v.len(), |i: int| v[i]@)
}

impl View for AbstractKind {
    type V = SpecAbstractKind;

    open spec fn view(&self) -> SpecAbstractKind {
        match self {
            AbstractKind::Root => SpecAbstractKind::Root,
            AbstractKind::SetField(s) => SpecAbstractKind::SetField(s@),
            AbstractKind::Get(s) => SpecAbstractKind::Get(s@),
            AbstractKind::Let(s) => SpecAbstractKind::Let(s@),
            AbstractKind::Number(s) => SpecAbstractKind::Number(s@),
            AbstractKind::Integer(v) => SpecAbstractKind::Integer(*v),
            AbstractKind::Identifier(s) => SpecAbstractKind::Identifier(s@),
            AbstractKind::String(s) => SpecAbstractKind::String(s@),
            AbstractKind::Character(c) => SpecAbstractKind::Character(*c),
            AbstractKind::Type(s, fields) => SpecAbstractKind::Type(s@, strings_view(fields@)),
            AbstractKind::Implement(s, args, t) => SpecAbstractKind::Implement(s@, strings_view(args@), t@),
            AbstractKind::Block => SpecAbstractKind::Block,
            AbstractKind::Message => SpecAbstractKind::Message,
            AbstractKind::List => SpecAbstractKind::List,
            AbstractKind::Expansion => SpecAbstractKind::Expansion,
            AbstractKind::Yield => SpecAbstractKind::Yield,
            AbstractKind::Define(s, e) => SpecAbstractKind::Define(s@, e@),
            AbstractKind::Lambda(args) => SpecAbstractKind::Lambda(strings_view(args@)),
            AbstractKind::New => SpecAbstractKind::New,
            AbstractKind::Self_ => SpecAbstractKind::Self_,
            AbstractKind::Unit => SpecAbstractKind::Unit,
        }
    }
}

impl View for AbstractToken {
    type V = SpecAToken;

    open spec fn view(&self) -> SpecAToken {
        SpecAToken { line: self.line as nat, kind: self.token@ }
    }
}

impl AbstractToken {
    /// The node `token` at `line`.
    pub fn new(line: usize, token: AbstractKind) -> (t: AbstractToken)
        ensures
            t.line == line,
            t.token == token,
    {
        AbstractToken { line, token }
    }
}

/// A name for what `format!("{:?}", s)` writes for a string: the string in
/// double quotes, with the escapes of std's `Debug` for `str`.
pub uninterp spec fn debug_str(s: Seq<char>) -> Seq<char>;

/// A name for what `format!("{:?}", c)` writes for a character: the character
/// in single quotes, with the escapes of std's `Debug` for `char`.
pub uninterp spec fn debug_char(c: char) -> Seq<char>;

/// `format!("{:?}", s)`, std's `Debug` for `str`. Its text is named by
/// `debug_str` and not stated: which characters std escapes, and how, rests on
/// its Unicode tables. The claim is only that the same string gives the same text.
#[verifier::external_body]
fn str_debug(s: &str) -> (text: String)
    ensures
        text@ == debug_str(s@),
{
    format!("{:?}", s)
}

/// `format!("{:?}", c)`, std's `Debug` for `char`. Its text is named by
/// `debug_char` and not stated, as for `str_debug`.
#[verifier::external_body]
fn char_debug(c: char) -> (text: String)
    ensures
        text@ == debug_char(c),
{
    format!("{:?}", c)
}

/// The strings of a list as `Debug` writes them, separated by `, `.
pub open spec fn debug_items(items: Seq<Seq<char>>) -> Seq<char>
    decreases items.len(),
{
    if items.len() == 0 {
        Seq::empty()
    } else if items.len() == 1 {
        debug_str(items[0])
    } else {
        debug_items(items.drop_last()) + ", "@ + debug_str(items.last())
    }
}

/// A list of strings as `Debug` writes a `Vec<String>`: in square brackets.
pub open spec fn debug_list(items: Seq<Seq<char>>) -> Seq<char> {
    "["@ + debug_items(items) + "]"@
}

/// The text of a node kind, as `Debug` writes it: the variant's name, then its
/// fields in parentheses, separated by `, `. The variant `SetField` is written
/// `Set`, and a decimal literal is written as it stands in the program.
pub open spec fn kind_text(k: SpecAbstractKind) -> Seq<char> {
    match k {
        SpecAbstractKind::Root => "Root"@,
        SpecAbstractKind::SetField(s) => "Set("@ + debug_str(s) + ")"@,
        SpecAbstractKind::Get(s) => "Get("@ + debug_str(s) + ")"@,
        SpecAbstractKind::Let(s) => "Let("@ + debug_str(s) + ")"@,
        SpecAbstractKind::Number(s) => "Number("@ + s + ")"@,
        SpecAbstractKind::Integer(v) => "Integer("@ + signed_decimal(v as int) + ")"@,
        SpecAbstractKind::Identifier(s) => "Identifier("@ + debug_str(s) + ")"@,
        SpecAbstractKind::String(s) => "String("@ + debug_str(s) + ")"@,
        SpecAbstractKind::Character(c) => "Character("@ + debug_char(c) + ")"@,
        SpecAbstractKind::Type(s, fields) => "Type("@ + debug_str(s) + ", "@ + debug_list(fields) + ")"@,
        SpecAbstractKind::Implement(s, args, t) => "Implement("@ + debug_str(s) + ", "@ + debug_list(args) + ", "@
            + debug_str(t) + ")"@,
        SpecAbstractKind::Block => "Block"@,
        SpecAbstractKind::Message => "Message"@,
        SpecAbstractKind::List => "List"@,
        SpecAbstractKind::Expansion => "Expansion"@,
        SpecAbstractKind::Yield => "Yield"@,
        SpecAbstractKind::Define(s, e) => "Define("@ + debug_str(s) + ", "@ + debug_str(e) + ")"@,
        SpecAbstractKind::Lambda(args) => "Lambda("@ + debug_list(args) + ")"@,
        SpecAbstractKind::New => "New"@,
        SpecAbstractKind::Self_ => "Self_"@,
        SpecAbstractKind::Unit => "Unit"@,
    }
}

fn push_debug_str(s: &mut String, x: &str)
    ensures
        final(s)@ == old(s)@ + debug_str(x@),
{
    let d = str_debug(x);
    push_str(s, d.as_str());
}

fn push_debug_list(s: &mut String, items: &Vec<String>)
    ensures
        final(s)@ == old(s)@ + debug_list(strings_view(items@)),
{
    let ghost iv = strings_view(items@);
    let ghost start = s@;
    push_str(s, "[");
    let mut i: usize = 0;
    assert(iv.take(0) =~= Seq::<Seq<char>>::empty());
    assert(s@ =~= start + "["@ + debug_items(iv.take(0)));
    while i < items.len()
        invariant
            iv == strings_view(items@),
            i <= items@.len(),
            s@ == start + "["@ + debug_items(iv.take(i as int)),
        decreases items@.len() - i,
    {
        let ghost before = s@;
        assert(iv.take(i + 1).drop_last() =~= iv.take(i as int));
        assert(iv.take(i + 1).last() == items@[i as int]@);
        if i > 0 {
            push_str(s, ", ");
        }
        push_debug_str(s, items[i].as_str());
        assert(s@ =~= start + "["@ + debug_items(iv.take(i + 1)));
        i += 1;
    }
    assert(iv.take(items@.len() as int) =~= iv);
    push_str(s, "]");
    assert(s@ =~= start + debug_list(iv));
}

/// The text of a node kind (see `kind_text`).
pub fn kind_to_string(k: &AbstractKind) -> (text: String)
    ensures
        text@ == kind_text(k@),
{
    let mut s = String::new();
    match k {
        AbstractKind::Root => push_str(&mut s, "Root"),
        AbstractKind::SetField(x) => {
            push_str(&mut s, "Set(");
            push_debug_str(&mut s, x.as_str());
            push_str(&mut s, ")");
        },
        AbstractKind::Get(x) => {
            push_str(&mut s, "Get(");
            push_debug_str(&mut s, x.as_str());
            push_str(&mut s, ")");
        },
        AbstractKind::Let(x) => {
            push_str(&mut s, "Let(");
            push_debug_str(&mut s, x.as_str());
            push_str(&mut s, ")");
        },
        AbstractKind::Number(x) => {
            push_str(&mut s, "Number(");
            push_str(&mut s, x.as_str());
            push_str(&mut s, ")");
        },
        AbstractKind::Integer(v) => {
            push_str(&mut s, "Integer(");
            push_signed_decimal(&mut s, *v);
            push_str(&mut s, ")");
        },
        AbstractKind::Identifier(x) => {
            push_str(&mut s, "Identifier(");
            push_debug_str(&mut s, x.as_str());
            push_str(&mut s, ")");
        },
        AbstractKind::String(x) => {
            push_str(&mut s, "String(");
            push_debug_str(&mut s, x.as_str());
            push_str(&mut s, ")");
        },
        AbstractKind::Character(c) => {
            push_str(&mut s, "Character(");
            let d = char_debug(*c);
            push_str(&mut s, d.as_str());
            push_str(&mut s, ")");
        },
        AbstractKind::Type(x, fields) => {
            push_str(&mut s, "Type(");
            push_debug_str(&mut s, x.as_str());
            push_str(&mut s, ", ");
            push_debug_list(&mut s, fields);
            push_str(&mut s, ")");
        },
        AbstractKind::Implement(x, args, t) => {
            push_str(&mut s, "Implement(");
            push_debug_str(&mut s, x.as_str());
            push_str(&mut s, ", ");
            push_debug_list(&mut s, args);
            push_str(&mut s, ", ");
            push_debug_str(&mut s, t.as_str());
            push_str(&mut s, ")");
        },
        AbstractKind::Block => push_str(&mut s, "Block"),
        AbstractKind::Message => push_str(&mut s, "Message"),
        AbstractKind::List => push_str(&mut s, "List"),
        AbstractKind::Expansion => push_str(&mut s, "Expansion"),
        AbstractKind::Yield => push_str(&mut s, "Yield"),
        AbstractKind::Define(x, e) => {
            push_str(&mut s, "Define(");
            push_debug_str(&mut s, x.as_str());
            push_str(&mut s, ", ");
            push_debug_str(&mut s, e.as_str());
            push_str(&mut s, ")");
        },
        AbstractKind::Lambda(args) => {
            push_str(&mut s, "Lambda(");
            push_debug_list(&mut s, args);
            push_str(&mut s, ")");
        },
        AbstractKind::New => push_str(&mut s, "New"),
        AbstractKind::Self_ => push_str(&mut s, "Self_"),
        AbstractKind::Unit => push_str(&mut s, "Unit"),
    }
    assert(s@ =~= kind_text(k@));
    s
}

/// The message for a closing token that reaches the abstract parser.
pub open spec fn stray_token_msg() -> Seq<char> {
    "Unexpected token. This is likely an internal error with the compiler.\
    Tokens internally reffered to as `Semicolon`, `EndList`, `EndBlock`, `EndOperation`, or `EndMessage`\
    have snuck through the cracks and made it to the wrong stage of parsing."@
}

/// The message for a lambda parameter that is not a name.
pub open spec fn lambda_param_msg() -> Seq<char> {
    "Expected identifier or string after lambda definition (`λ`, `lambda`, `fn`, `func`, `function`, or `\\` keywords/operators) in the form of a parameter, the same as an `impl` parameter definition."@
}

/// The message for an `impl` parameter or type that is not a name.
pub open spec fn impl_param_msg() -> Seq<char> {
    "Expected identifier, string, or `for` keyword in impl-definition in the form of a parameter or type name."@
}

/// The text of an identifier, or of a string where `allow_strings` holds.
pub open spec fn name_of(k: SpecTokenKind, allow_strings: bool) -> Option<Seq<char>> {
    match k {
        SpecTokenKind::Identifier(s) => Some(s),
        SpecTokenKind::String(s) => if allow_strings { Some(s) } else { None },
        _ => None,
    }
}

/// The names of a sequence of trees, or `None` where one of them is not a name.
pub open spec fn names_of(ts: Seq<STree<SpecToken>>, allow_strings: bool) -> Option<Seq<Seq<char>>>
    decreases ts.len(),
{
    if ts.len() == 0 {
        Some(Seq::empty())
    } else {
        match (names_of(ts.drop_last(), allow_strings), name_of(ts.last().data.kind, allow_strings)) {
            (Some(ns), Some(n)) => Some(ns.push(n)),
            _ => None,
        }
    }
}

/// The parameters and type of an `impl`, read from the children after its name
/// starting at `j`: names up to `for` are parameters, the name after `for` is the
/// type, and the body starts after it (`pivot`). Where no name follows `for`, the
/// type is empty and the body is all the children (`pivot` 0). `None` where a
/// child read is not a name or `for`.
pub open spec fn impl_scan(cs: Seq<STree<SpecToken>>, j: int, taking: bool, args: Seq<Seq<char>>)
    -> Option<(Seq<Seq<char>>, Seq<char>, int)>
    decreases cs.len() - j,
{
    if j >= cs.len() || j < 0 {
        Some((args, Seq::empty(), 0))
    } else if cs[j].data.kind is For {
        impl_scan(cs, j + 1, false, args)
    } else {
        match name_of(cs[j].data.kind, true) {
            None => None,
            Some(a) => if taking {
                impl_scan(cs, j + 1, true, args.push(a))
            } else {
                Some((args, a, j + 1))
            },
        }
    }
}

/// A leaf of the abstract syntax tree.
pub open spec fn leaf(line: nat, kind: SpecAbstractKind) -> STree<SpecAToken> {
    STree { data: SpecAToken { line, kind }, children: Seq::empty() }
}

/// The abstract syntax tree of a concrete one: `Some(Ok(..))`, or `Some(Err(..))`
/// with the first error met, children from left to right, or `None` where a
/// lambda without children is met first, which the abstract parser cannot take.
pub open spec fn abstract_of(t: STree<SpecToken>) -> Option<Result<STree<SpecAToken>, SpecError>>
    decreases t, t.children.len() + 1,
{
    let line = t.data.line;
    let cs = t.children;
    let node = |kind: SpecAbstractKind, from: int| match abstract_seg(t, from, cs.len() as int) {
        None => None,
        Some(Err(e)) => Some(Err(e)),
        Some(Ok(children)) => Some(Ok(STree { data: SpecAToken { line, kind }, children })),
    };
    match t.data.kind {
        SpecTokenKind::Number(n) => if contains(n, "."@) {
            if float_literal(n) {
                Some(Ok(leaf(line, SpecAbstractKind::Number(n))))
            } else {
                Some(Err(SpecError::ParseError(line, "Failed to parse float."@)))
            }
        } else {
            match parse_i32(n) {
                Some(v) => Some(Ok(leaf(line, SpecAbstractKind::Integer(v)))),
                None => Some(Err(SpecError::ParseError(line, "Failed to parse integer."@))),
            }
        },
        SpecTokenKind::String(s) => Some(Ok(leaf(line, SpecAbstractKind::String(s)))),
        SpecTokenKind::Identifier(s) => Some(Ok(leaf(line, SpecAbstractKind::Identifier(s)))),
        SpecTokenKind::Character(c) => Some(Ok(leaf(line, SpecAbstractKind::Character(c)))),
        SpecTokenKind::New => Some(Ok(leaf(line, SpecAbstractKind::New))),
        SpecTokenKind::Unit => Some(Ok(leaf(line, SpecAbstractKind::Unit))),
        SpecTokenKind::Self_ => Some(Ok(leaf(line, SpecAbstractKind::Self_))),
        SpecTokenKind::Message => node(SpecAbstractKind::Message, 0),
        SpecTokenKind::Block => node(SpecAbstractKind::Block, 0),
        SpecTokenKind::List => node(SpecAbstractKind::List, 0),
        SpecTokenKind::Operation => node(SpecAbstractKind::Expansion, 0),
        SpecTokenKind::Root => node(SpecAbstractKind::Root, 0),
        SpecTokenKind::Yield => node(SpecAbstractKind::Yield, 0),
        SpecTokenKind::Semicolon | SpecTokenKind::EndBlock | SpecTokenKind::EndMessage | SpecTokenKind::EndList
        | SpecTokenKind::EndOperation => Some(Err(SpecError::ParseError(line, stray_token_msg()))),
        SpecTokenKind::For => Some(Err(SpecError::ParseError(line, "Unexpected keyword `for`."@))),
        SpecTokenKind::Implement => {
            let name = if cs.len() > 0 { name_of(cs[0].data.kind, true) } else { None };
            match name {
                None => Some(Err(SpecError::ParseError(line, "Expected identifier or string after keyword `impl`."@))),
                Some(name) => match impl_scan(cs, 1, true, Seq::empty()) {
                    None => Some(Err(SpecError::ParseError(line, impl_param_msg()))),
                    Some((args, impl_type, pivot)) => node(SpecAbstractKind::Implement(name, args, impl_type), pivot),
                },
            }
        },
        SpecTokenKind::Lambda => if cs.len() == 0 {
            None
        } else {
            match names_of(cs.drop_last(), true) {
                None => Some(Err(SpecError::ParseError(line, lambda_param_msg()))),
                Some(args) => match abstract_of(cs[cs.len() - 1]) {
                    None => None,
                    Some(Err(e)) => Some(Err(e)),
                    Some(Ok(body)) => Some(Ok(STree {
                        data: SpecAToken { line, kind: SpecAbstractKind::Lambda(args) },
                        children: seq![body],
                    })),
                },
            }
        },
        SpecTokenKind::Get => {
            let name = if cs.len() > 0 { name_of(cs[0].data.kind, false) } else { None };
            match name {
                None => Some(Err(SpecError::ParseError(line, "Expected identifier after keyword `get`."@))),
                Some(name) => Some(Ok(leaf(line, SpecAbstractKind::Get(name)))),
            }
        },
        SpecTokenKind::SetField => {
            let name = if cs.len() > 0 { name_of(cs[0].data.kind, false) } else { None };
            match name {
                None => Some(Err(SpecError::ParseError(line, "Expected identifier after keyword `set`."@))),
                Some(name) => node(SpecAbstractKind::SetField(name), 1),
            }
        },
        SpecTokenKind::Let => {
            let name = if cs.len() > 0 { name_of(cs[0].data.kind, false) } else { None };
            match name {
                None => Some(Err(SpecError::ParseError(line, "Expected identifier after keyword `let`."@))),
                Some(name) => node(SpecAbstractKind::Let(name), 1),
            }
        },
        SpecTokenKind::Type => {
            let name = if cs.len() > 0 { name_of(cs[0].data.kind, false) } else { None };
            match name {
                None => Some(Err(SpecError::ParseError(line, "Expected identifier after keyword `type`."@))),
                Some(name) => if cs.len() < 2 {
                    Some(Err(SpecError::ParseError(line, "Expected block after keyword `type`"@)))
                } else {
                    match names_of(cs[1].children, false) {
                        None => Some(Err(SpecError::ParseError(line, "Invalid field name."@))),
                        Some(fields) => Some(Ok(leaf(line, SpecAbstractKind::Type(name, fields)))),
                    }
                },
            }
        },
        SpecTokenKind::Define => {
            let name = if cs.len() > 0 { name_of(cs[0].data.kind, true) } else { None };
            let exp = if cs.len() > 1 { name_of(cs[1].data.kind, true) } else { None };
            match (name, exp) {
                (None, _) => Some(Err(SpecError::ParseError(line, "`def` block missing identifier or string as expansion name"@))),
                (Some(_), None) => Some(Err(SpecError::ParseError(
                    line,
                    "`def` block missing identifier or string as expansion value after expansion name"@,
                ))),
                (Some(name), Some(exp)) => Some(Ok(leaf(
                    line,
                    SpecAbstractKind::Define(name, replace_all(replace_all(exp, "\\n"@, "\n"@), "\\t"@, "\t"@)),
                ))),
            }
        },
    }
}

/// The abstract syntax trees of the children of `t` from `from` up to `to`,
/// taken from left to right, or the first failure.
pub open spec fn abstract_seg(t: STree<SpecToken>, from: int, to: int) -> Option<Result<Seq<STree<SpecAToken>>, SpecError>>
    decreases t, to,
{
    if to <= from || to > t.children.len() || from < 0 {
        Some(Ok(Seq::empty()))
    } else {
        match abstract_seg(t, from, to - 1) {
            None => None,
            Some(Err(e)) => Some(Err(e)),
            Some(Ok(prefix)) => match abstract_of(t.children[to - 1]) {
                None => None,
                Some(Err(e)) => Some(Err(e)),
                Some(Ok(a)) => Some(Ok(prefix.push(a))),
            },
        }
    }
}


/// Once a prefix of the children fails, every longer one fails the same way.
pub proof fn lemma_seg_stops(t: STree<SpecToken>, from: int, k: int, to: int)
    requires
        0 <= from <= k <= to <= t.children.len(),
        !(abstract_seg(t, from, k) matches Some(Ok(_))),
    ensures
        abstract_seg(t, from, to) == abstract_seg(t, from, k),
    decreases to - k,
{
    if to > k {
        lemma_seg_stops(t, from, k, to - 1);
    }
}

/// Once a prefix of a sequence of trees holds something that is not a name, so does the sequence.
pub proof fn lemma_names_prefix(ts: Seq<STree<SpecToken>>, k: int, allow_strings: bool)
    requires
        0 <= k <= ts.len(),
        names_of(ts.take(k), allow_strings) is None,
    ensures
        names_of(ts, allow_strings) is None,
    decreases ts.len() - k,
{
    if k < ts.len() {
        assert(ts.take(k + 1).drop_last() =~= ts.take(k));
        lemma_names_prefix(ts, k + 1, allow_strings);
    } else {
        assert(ts.take(k) =~= ts);
    }
}

proof fn lemma_seg_all_ok(t: STree<SpecToken>, from: int, to: int)
    requires
        0 <= from <= to <= t.children.len(),
        forall|i: int| from <= i < to ==> #[trigger] abstract_of(t.children[i]) matches Some(Ok(_)),
    ensures
        abstract_seg(t, from, to) matches Some(Ok(s)) && s.len() == to - from && forall|i: int|
            0 <= i < to - from ==> abstract_of(t.children[from + i]) == Some(Ok::<STree<SpecAToken>, SpecError>(
                #[trigger] s[i],
            )),
    decreases to,
{
    if to > from {
        lemma_seg_all_ok(t, from, to - 1);
        assert(abstract_of(t.children[to - 1]) matches Some(Ok(_)));
    }
}

proof fn lemma_seg_first_fail(t: STree<SpecToken>, from: int, k: int, to: int)
    requires
        0 <= from <= k < to <= t.children.len(),
        forall|i: int| from <= i < k ==> #[trigger] abstract_of(t.children[i]) matches Some(Ok(_)),
        !(abstract_of(t.children[k]) matches Some(Ok(_))),
    ensures
        abstract_seg(t, from, to) is None <==> abstract_of(t.children[k]) is None,
        abstract_of(t.children[k]) matches Some(Err(e)) ==> abstract_seg(t, from, to) == Some(
            Err::<Seq<STree<SpecAToken>>, SpecError>(e),
        ),
{
    lemma_seg_all_ok(t, from, k);
    lemma_seg_stops(t, from, k + 1, to);
}

/// The abstract kind of a bracket node: `Root`, a block, a message send, a list,
/// an expansion (`<..>`) or a `yield`.
pub open spec fn bracket_abstract(k: SpecTokenKind) -> Option<SpecAbstractKind> {
    match k {
        SpecTokenKind::Root => Some(SpecAbstractKind::Root),
        SpecTokenKind::Block => Some(SpecAbstractKind::Block),
        SpecTokenKind::Message => Some(SpecAbstractKind::Message),
        SpecTokenKind::List => Some(SpecAbstractKind::List),
        SpecTokenKind::Operation => Some(SpecAbstractKind::Expansion),
        SpecTokenKind::Yield => Some(SpecAbstractKind::Yield),
        _ => None,
    }
}

/// The abstract parser maps a bracket node child by child: where every child
/// succeeds, the node succeeds, on the same line and with its abstract kind, over
/// the children's trees in the same order; where one fails, the node fails as the
/// first child that fails does.
pub proof fn lemma_bracket_abstract(t: STree<SpecToken>)
    requires
        bracket_abstract(t.data.kind) is Some,
    ensures
        (forall|i: int| 0 <= i < t.children.len() ==> #[trigger] abstract_of(t.children[i]) matches Some(Ok(_)))
            ==> (abstract_of(t) matches Some(Ok(r)) && r.data == (SpecAToken {
            line: t.data.line,
            kind: bracket_abstract(t.data.kind)->0,
        }) && r.children.len() == t.children.len() && forall|i: int|
            0 <= i < t.children.len() ==> abstract_of(t.children[i]) == Some(Ok::<STree<SpecAToken>, SpecError>(
                #[trigger] r.children[i],
            ))),
        forall|k: int|
            0 <= k < t.children.len() && (forall|i: int| 0 <= i < k ==> #[trigger] abstract_of(t.children[i]) matches Some(Ok(_)))
                && !(#[trigger] abstract_of(t.children[k]) matches Some(Ok(_))) ==> ((abstract_of(t) is None
                <==> abstract_of(t.children[k]) is None) && (abstract_of(t.children[k]) matches Some(Err(e))
                ==> abstract_of(t) == Some(Err::<STree<SpecAToken>, SpecError>(e)))),
{
    let n = t.children.len() as int;
    if forall|i: int| 0 <= i < n ==> #[trigger] abstract_of(t.children[i]) matches Some(Ok(_)) {
        lemma_seg_all_ok(t, 0, n);
    }
    assert forall|k: int|
        0 <= k < n && (forall|i: int| 0 <= i < k ==> #[trigger] abstract_of(t.children[i]) matches Some(Ok(_)))
            && !(#[trigger] abstract_of(t.children[k]) matches Some(Ok(_))) implies ((abstract_of(t) is None
            <==> abstract_of(t.children[k]) is None) && (abstract_of(t.children[k]) matches Some(Err(e))
            ==> abstract_of(t) == Some(Err::<STree<SpecAToken>, SpecError>(e)))) by {
        lemma_seg_first_fail(t, 0, k, n);
    }
}

/// The abstract parser keeps each node's line, gives `Root` exactly to `Root`,
/// and maps the leaves that need no reading (strings, identifiers, characters,
/// `new`, `<>` and `self`) to leaves of the same kind and text, whatever children
/// they have.
pub proof fn lemma_abstract_keeps(t: STree<SpecToken>)
    ensures
        abstract_of(t) matches Some(Ok(r)) ==> r.data.line == t.data.line && (r.data.kind is Root
            <==> t.data.kind is Root),
        t.data.kind matches SpecTokenKind::String(s) ==> abstract_of(t) == Some(
            Ok::<STree<SpecAToken>, SpecError>(leaf(t.data.line, SpecAbstractKind::String(s))),
        ),
        t.data.kind matches SpecTokenKind::Identifier(s) ==> abstract_of(t) == Some(
            Ok::<STree<SpecAToken>, SpecError>(leaf(t.data.line, SpecAbstractKind::Identifier(s))),
        ),
        t.data.kind matches SpecTokenKind::Character(c) ==> abstract_of(t) == Some(
            Ok::<STree<SpecAToken>, SpecError>(leaf(t.data.line, SpecAbstractKind::Character(c))),
        ),
        t.data.kind is New ==> abstract_of(t) == Some(
            Ok::<STree<SpecAToken>, SpecError>(leaf(t.data.line, SpecAbstractKind::New)),
        ),
        t.data.kind is Unit ==> abstract_of(t) == Some(
            Ok::<STree<SpecAToken>, SpecError>(leaf(t.data.line, SpecAbstractKind::Unit)),
        ),
        t.data.kind is Self_ ==> abstract_of(t) == Some(
            Ok::<STree<SpecAToken>, SpecError>(leaf(t.data.line, SpecAbstractKind::Self_)),
        ),
{
}

/// The names of a sequence of trees are the names of its trees, one for one.
pub proof fn lemma_names_each(ts: Seq<STree<SpecToken>>, allow_strings: bool)
    ensures
        names_of(ts, allow_strings) matches Some(ns) ==> ns.len() == ts.len() && forall|i: int|
            0 <= i < ts.len() ==> name_of(#[trigger] ts[i].data.kind, allow_strings) == Some(ns[i]),
    decreases ts.len(),
{
    if ts.len() > 0 {
        lemma_names_each(ts.drop_last(), allow_strings);
        if let Some(ns) = names_of(ts, allow_strings) {
            assert forall|i: int| 0 <= i < ts.len() implies name_of(#[trigger] ts[i].data.kind, allow_strings) == Some(
                ns[i],
            ) by {
                if i < ts.len() - 1 {
                    assert(ts.drop_last()[i] == ts[i]);
                }
            }
        }
    }
}

/// A lambda's parameters are the names of all its children but the last, in the
/// order they are written, and its body is the abstract tree of its last child.
pub proof fn lemma_lambda_params(t: STree<SpecToken>)
    requires
        t.data.kind is Lambda,
    ensures
        abstract_of(t) matches Some(Ok(r)) ==> {
            &&& r.data.line == t.data.line
            &&& r.data.kind is Lambda
            &&& r.data.kind->Lambda_0.len() + 1 == t.children.len()
            &&& forall|i: int| 0 <= i < r.data.kind->Lambda_0.len() ==>
                name_of(#[trigger] t.children[i].data.kind, true) == Some(r.data.kind->Lambda_0[i])
            &&& r.children.len() == 1
            &&& abstract_of(t.children.last()) == Some(Ok::<STree<SpecAToken>, SpecError>(r.children[0]))
        },
{
    let cs = t.children;
    if cs.len() > 0 {
        lemma_names_each(cs.drop_last(), true);
        if let Some(args) = names_of(cs.drop_last(), true) {
            assert forall|i: int| 0 <= i < args.len() implies name_of(#[trigger] cs[i].data.kind, true) == Some(args[i]) by {
                assert(cs.drop_last()[i] == cs[i]);
            }
        }
    }
}

/// `r` is the outcome `s` describes.
pub open spec fn outcome_is<T: View>(r: Option<Result<T, Error>>, s: Option<Result<T::V, SpecError>>) -> bool {
    match s {
        None => r is None,
        Some(Ok(v)) => r matches Some(Ok(x)) && x@ == v,
        Some(Err(e)) => r matches Some(Err(x)) && x@ == e,
    }
}

fn name_exec(k: &TokenKind, allow_strings: bool) -> (r: Option<String>)
    ensures
        match name_of(k@, allow_strings) {
            Some(s) => r matches Some(x) && x@ == s,
            None => r is None,
        },
{
    match k {
        TokenKind::Identifier(s) => Some(s.clone()),
        TokenKind::String(s) => if allow_strings { Some(s.clone()) } else { None },
        _ => None,
    }
}

fn leaf_exec(line: usize, kind: AbstractKind) -> (t: FlatTree<AToken>)
    ensures
        t@ == leaf(line as nat, kind@),
{
    let t = FlatTree::new(AToken::new(line, kind), Vec::new());
    assert(t@.children =~= Seq::<STree<SpecAToken>>::empty());
    t
}

fn names_exec(ts: &Vec<FlatTree<Token>>, to: usize, allow_strings: bool) -> (r: Option<Vec<String>>)
    requires
        to <= ts@.len(),
    ensures
        match names_of(trees_view(ts@).take(to as int), allow_strings) {
            Some(ns) => r matches Some(x) && strings_view(x@) == ns,
            None => r is None,
        },
{
    let ghost tv = trees_view(ts@);
    proof {
        lemma_trees_view(ts@);
    }
    let mut names: Vec<String> = Vec::new();
    let mut i: usize = 0;
    assert(tv.take(0) =~= Seq::<STree<SpecToken>>::empty());
    assert(strings_view(names@) =~= Seq::<Seq<char>>::empty());
    while i < to
        invariant
            tv == trees_view(ts@),
            tv.len() == ts@.len(),
            forall|k: int| 0 <= k < ts@.len() ==> #[trigger] tv[k] == ts@[k]@,
            i <= to <= ts@.len(),
            names_of(tv.take(i as int), allow_strings) == Some(strings_view(names@)),
        decreases to - i,
    {
        assert(tv.take(i + 1).drop_last() =~= tv.take(i as int));
        assert(tv.take(i + 1).last() == ts@[i as int]@);
        proof {
            lemma_view_children(ts@[i as int]);
        }
        match name_exec(&ts[i].data.token, allow_strings) {
            None => {
                proof {
                    lemma_names_prefix(tv.take(to as int), i + 1, allow_strings);
                    assert(tv.take(to as int).take(i + 1) =~= tv.take(i + 1));
                }
                return None;
            },
            Some(n) => {
                let ghost before = names@;
                names.push(n);
                assert(strings_view(names@) =~= strings_view(before).push(n@));
            },
        }
        i += 1;
    }
    Some(names)
}

fn abstract_children(cst: &FlatTree<Token>, from: usize) -> (r: Option<Result<Vec<FlatTree<AToken>>, Error>>)
    requires
        from <= cst.children@.len(),
    ensures
        match abstract_seg(cst@, from as int, cst.children@.len() as int) {
            None => r is None,
            Some(Ok(v)) => r matches Some(Ok(x)) && trees_view(x@) == v,
            Some(Err(e)) => r matches Some(Err(x)) && x@ == e,
        },
    decreases cst, cst.children@.len(),
{
    let ghost t = cst@;
    proof {
        lemma_view_children(*cst);
    }
    let n = cst.children.len();
    let mut out: Vec<FlatTree<AToken>> = Vec::new();
    let mut i: usize = from;
    assert(trees_view(out@) =~= Seq::<STree<SpecAToken>>::empty());
    while i < n
        invariant
            t == cst@,
            t.children.len() == n,
            n == cst.children@.len(),
            forall|k: int| 0 <= k < n ==> #[trigger] t.children[k] == cst.children@[k]@,
            from <= i <= n,
            abstract_seg(t, from as int, i as int) == Some(Ok::<Seq<STree<SpecAToken>>, SpecError>(trees_view(out@))),
        decreases n - i,
    {
        let r = abstract_core(&cst.children[i]);
        match r {
            None => {
                proof {
                    lemma_seg_stops(t, from as int, i + 1, n as int);
                }
                return None;
            },
            Some(Err(e)) => {
                proof {
                    lemma_seg_stops(t, from as int, i + 1, n as int);
                }
                return Some(Err(e));
            },
            Some(Ok(a)) => {
                let ghost before = out@;
                out.push(a);
                proof {
                    lemma_trees_view(out@);
                    lemma_trees_view(before);
                    assert(trees_view(out@) =~= trees_view(before).push(a@));
                }
            },
        }
        i += 1;
    }
    Some(Ok(out))
}

fn node_exec(cst: &FlatTree<Token>, from: usize, kind: AbstractKind) -> (r: Option<Result<FlatTree<AToken>, Error>>)
    requires
        from <= cst.children@.len(),
    ensures
        match abstract_seg(cst@, from as int, cst.children@.len() as int) {
            None => r is None,
            Some(Ok(v)) => r matches Some(Ok(x)) && x@ == (STree {
                data: SpecAToken { line: cst.data.line as nat, kind: kind@ },
                children: v,
            }),
            Some(Err(e)) => r matches Some(Err(x)) && x@ == e,
        },
    decreases cst, cst.children@.len() + 1,
{
    match abstract_children(cst, from) {
        None => None,
        Some(Err(e)) => Some(Err(e)),
        Some(Ok(children)) => Some(Ok(FlatTree::new(AToken::new(cst.data.line, kind), children))),
    }
}

fn abstract_core(cst: &FlatTree<Token>) -> (r: Option<Result<FlatTree<AToken>, Error>>)
    ensures
        outcome_is(r, abstract_of(cst@)),
    decreases cst, cst.children@.len() + 2,
{
    let ghost t = cst@;
    proof {
        lemma_view_children(*cst);
    }
    let line = cst.data.line;
    let n = cst.children.len();
    match &cst.data.token {
        TokenKind::Number(number) => {
            if contains_exec(number.as_str(), ".") {
                if float_literal_exec(number.as_str()) {
                    Some(Ok(leaf_exec(line, AbstractKind::Number(number.clone()))))
                } else {
                    Some(Err(Error::ParseError(line, String::from_str("Failed to parse float."))))
                }
            } else {
                match parse_i32_exec(number.as_str()) {
                    Some(v) => Some(Ok(leaf_exec(line, AbstractKind::Integer(v)))),
                    None => Some(Err(Error::ParseError(line, String::from_str("Failed to parse integer.")))),
                }
            }
        },
        TokenKind::String(s) => Some(Ok(leaf_exec(line, AbstractKind::String(s.clone())))),
        TokenKind::Identifier(s) => Some(Ok(leaf_exec(line, AbstractKind::Identifier(s.clone())))),
        TokenKind::Character(c) => Some(Ok(leaf_exec(line, AbstractKind::Character(*c)))),
        TokenKind::New => Some(Ok(leaf_exec(line, AbstractKind::New))),
        TokenKind::Unit => Some(Ok(leaf_exec(line, AbstractKind::Unit))),
        TokenKind::Self_ => Some(Ok(leaf_exec(line, AbstractKind::Self_))),
        TokenKind::Message => node_exec(cst, 0, AbstractKind::Message),
        TokenKind::Block => node_exec(cst, 0, AbstractKind::Block),
        TokenKind::List => node_exec(cst, 0, AbstractKind::List),
        TokenKind::Operation => node_exec(cst, 0, AbstractKind::Expansion),
        TokenKind::Root => node_exec(cst, 0, AbstractKind::Root),
        TokenKind::Yield => node_exec(cst, 0, AbstractKind::Yield),
        TokenKind::Semicolon | TokenKind::EndBlock | TokenKind::EndMessage | TokenKind::EndList
        | TokenKind::EndOperation => Some(Err(Error::ParseError(
            line,
            String::from_str(
                "Unexpected token. This is likely an internal error with the compiler.\
    Tokens internally reffered to as `Semicolon`, `EndList`, `EndBlock`, `EndOperation`, or `EndMessage`\
    have snuck through the cracks and made it to the wrong stage of parsing.",
            ),
        ))),
        TokenKind::For => Some(Err(Error::ParseError(line, String::from_str("Unexpected keyword `for`.")))),
        TokenKind::Implement => {
            let name = if n > 0 { name_exec(&cst.children[0].data.token, true) } else { None };
            let name = match name {
                None => {
                    return Some(Err(Error::ParseError(
                        line,
                        String::from_str("Expected identifier or string after keyword `impl`."),
                    )));
                },
                Some(name) => name,
            };
            let mut args: Vec<String> = Vec::new();
            let mut taking = true;
            let mut impl_type = String::new();
            let mut pivot: usize = 0;
            let mut j: usize = 1;
            assert(strings_view(args@) =~= Seq::<Seq<char>>::empty());
            while j < n
                invariant_except_break
                    pivot == 0,
                    impl_type@ == Seq::<char>::empty(),
                    impl_scan(t.children, 1, true, Seq::empty())
                        == impl_scan(t.children, j as int, taking, strings_view(args@)),
                invariant
                    t == cst@,
                    t.data.kind is Implement,
                    t.data.line == line as nat,
                    n > 0 && name_of(t.children[0].data.kind, true) is Some,
                    t.children.len() == n,
                    n == cst.children@.len(),
                    forall|k: int| 0 <= k < n ==> #[trigger] t.children[k] == cst.children@[k]@,
                    1 <= j <= n,
                ensures
                    pivot <= n,
                    impl_scan(t.children, 1, true, Seq::empty())
                        == Some((strings_view(args@), impl_type@, pivot as int)),
                decreases n - j,
            {
                proof {
                    lemma_view_children(cst.children@[j as int]);
                }
                match &cst.children[j].data.token {
                    TokenKind::For => {
                        taking = false;
                        j += 1;
                        continue;
                    },
                    _ => {},
                }
                match name_exec(&cst.children[j].data.token, true) {
                    None => {
                        return Some(Err(Error::ParseError(
                            line,
                            String::from_str(
                                "Expected identifier, string, or `for` keyword in impl-definition in the form of a parameter or type name.",
                            ),
                        )));
                    },
                    Some(arg) => {
                        if taking {
                            let ghost before = args@;
                            args.push(arg);
                            assert(strings_view(args@) =~= strings_view(before).push(arg@));
                        } else {
                            impl_type = arg;
                            pivot = j + 1;
                            break;
                        }
                    },
                }
                j += 1;
            }
            node_exec(cst, pivot, AbstractKind::Implement(name, args, impl_type))
        },
        TokenKind::Lambda => {
            if n == 0 {
                return None;
            }
            let args = match names_exec(&cst.children, n - 1, true) {
                None => {
                    assert(trees_view(cst.children@).take(n - 1) =~= t.children.drop_last());
                    return Some(Err(Error::ParseError(
                        line,
                        String::from_str(
                            "Expected identifier or string after lambda definition (`λ`, `lambda`, `fn`, `func`, `function`, or `\\` keywords/operators) in the form of a parameter, the same as an `impl` parameter definition.",
                        ),
                    )));
                },
                Some(args) => args,
            };
            assert(trees_view(cst.children@).take(n - 1) =~= t.children.drop_last());
            match abstract_core(&cst.children[n - 1]) {
                None => None,
                Some(Err(e)) => Some(Err(e)),
                Some(Ok(body)) => {
                    let mut children: Vec<FlatTree<AToken>> = Vec::new();
                    children.push(body);
                    proof {
                        lemma_trees_view(children@);
                        assert(trees_view(children@) =~= seq![body@]);
                    }
                    Some(Ok(FlatTree::new(AToken::new(line, AbstractKind::Lambda(args)), children)))
                },
            }
        },
        TokenKind::Get => {
            let name = if n > 0 { name_exec(&cst.children[0].data.token, false) } else { None };
            match name {
                None => Some(Err(Error::ParseError(line, String::from_str("Expected identifier after keyword `get`.")))),
                Some(name) => Some(Ok(leaf_exec(line, AbstractKind::Get(name)))),
            }
        },
        TokenKind::SetField => {
            let name = if n > 0 { name_exec(&cst.children[0].data.token, false) } else { None };
            match name {
                None => Some(Err(Error::ParseError(line, String::from_str("Expected identifier after keyword `set`.")))),
                Some(name) => node_exec(cst, 1, AbstractKind::SetField(name)),
            }
        },
        TokenKind::Let => {
            let name = if n > 0 { name_exec(&cst.children[0].data.token, false) } else { None };
            match name {
                None => Some(Err(Error::ParseError(line, String::from_str("Expected identifier after keyword `let`.")))),
                Some(name) => node_exec(cst, 1, AbstractKind::Let(name)),
            }
        },
        TokenKind::Type => {
            let name = if n > 0 { name_exec(&cst.children[0].data.token, false) } else { None };
            let name = match name {
                None => {
                    return Some(Err(Error::ParseError(
                        line,
                        String::from_str("Expected identifier after keyword `type`."),
                    )));
                },
                Some(name) => name,
            };
            if n < 2 {
                return Some(Err(Error::ParseError(line, String::from_str("Expected block after keyword `type`"))));
            }
            let block = &cst.children[1];
            proof {
                lemma_view_children(*block);
                assert(trees_view(block.children@).take(block.children@.len() as int) =~= t.children[1].children);
            }
            match names_exec(&block.children, block.children.len(), false) {
                None => Some(Err(Error::ParseError(line, String::from_str("Invalid field name.")))),
                Some(fields) => Some(Ok(leaf_exec(line, AbstractKind::Type(name, fields)))),
            }
        },
        TokenKind::Define => {
            let name = if n > 0 { name_exec(&cst.children[0].data.token, true) } else { None };
            let name = match name {
                None => {
                    return Some(Err(Error::ParseError(
                        line,
                        String::from_str("`def` block missing identifier or string as expansion name"),
                    )));
                },
                Some(name) => name,
            };
            let exp = if n > 1 { name_exec(&cst.children[1].data.token, true) } else { None };
            match exp {
                None => Some(Err(Error::ParseError(
                    line,
                    String::from_str("`def` block missing identifier or string as expansion value after expansion name"),
                ))),
                Some(exp) => {
                    proof {
                        reveal_strlit("\\n");
                        reveal_strlit("\\t");
                    }
                    let exp = replace(exp.as_str(), "\\n", "\n");
                    let exp = replace(exp.as_str(), "\\t", "\t");
                    Some(Ok(leaf_exec(line, AbstractKind::Define(name, exp))))
                },
            }
        },
    }
}

/// The abstract syntax tree of a concrete one (see `abstract_of`).
pub fn parse_abstract(cst: &FlatTree<Token>) -> (ast: Result<FlatTree<AToken>, Error>)
    requires
        abstract_of(cst@) is Some,
    ensures
        outcome_is(Some(ast), abstract_of(cst@)),
{
    abstract_core(cst).unwrap()
}

/// The abstract syntax tree of a concrete one, or `None` where a lambda without
/// children is met first, on which `parse_abstract` has no result to give.
pub fn try_parse_abstract(cst: &FlatTree<Token>) -> (ast: Option<Result<FlatTree<AToken>, Error>>)
    ensures
        outcome_is(ast, abstract_of(cst@)),
{
    abstract_core(cst)
}


/// What parsing a program gives: `None` where a word is a lone single quote or
/// the abstract parser meets a lambda without children, on which `parse` has no
/// result to give; otherwise the error of the concrete parser or the outcome of
/// the abstract parser on its tree.
pub open spec fn parse_of(program: Seq<char>) -> Option<Result<STree<SpecAToken>, SpecError>> {
    if !lexable(program) {
        None
    } else {
        match concrete_of(tokens_of(program)) {
            Err(e) => Some(Err(e)),
            Ok(cst) => abstract_of(cst),
        }
    }
}

fn parse_core(program: String) -> (r: Option<Result<FlatTree<AToken>, Error>>)
    requires
        program@.len() < usize::MAX,
    ensures
        outcome_is(r, parse_of(program@)),
{
    let ghost p = program@;
    let tokens = match try_tokenize(program) {
        None => return None,
        Some(tokens) => tokens,
    };
    assert(tokens_view(tokens@) =~= tokens_of(p));
    match parse_concrete(tokens) {
        Err(e) => Some(Err(e)),
        Ok(cst) => try_parse_abstract(&cst),
    }
}

/// The abstract syntax tree of a program (see `parse_of`).
pub fn parse(program: String) -> (ast: Result<FlatTree<AToken>, Error>)
    requires
        program@.len() < usize::MAX,
        parse_of(program@) is Some,
    ensures
        outcome_is(Some(ast), parse_of(program@)),
{
    parse_core(program).unwrap()
}

/// The abstract syntax tree of a program, or `None` where `parse` has no result
/// to give (see `parse_of`).
pub fn try_parse(program: String) -> (ast: Option<Result<FlatTree<AToken>, Error>>)
    requires
        program@.len() < usize::MAX,
    ensures
        outcome_is(ast, parse_of(program@)),
{
    parse_core(program)
}


/// The text of a node: its line, ` : ` and the text of its kind (`kind_text`).
pub open spec fn atoken_text(t: SpecAToken) -> Seq<char> {
    decimal(t.line) + " : "@ + kind_text(t.kind)
}

/// The text of a tree: its root's text, then, where it has children, ` (`, each
/// child's text on lines of its own indented by a tab, and `)`.
pub open spec fn tree_text(t: STree<SpecAToken>) -> Seq<char>
    decreases t, t.children.len() + 1,
{
    if t.children.len() == 0 {
        atoken_text(t.data)
    } else {
        atoken_text(t.data) + " (\n"@ + children_text(t, 0) + ")"@
    }
}

/// The texts of the children of `t` from the `j`-th on, each indented by a tab
/// on every line and ended by a newline.
pub open spec fn children_text(t: STree<SpecAToken>, j: int) -> Seq<char>
    decreases t, t.children.len() - j,
{
    if j < 0 || j >= t.children.len() {
        Seq::empty()
    } else {
        replace_all("\t"@ + tree_text(t.children[j]), "\n"@, "\n\t"@) + "\n"@ + children_text(t, j + 1)
    }
}

impl AbstractToken {
    /// The text of the node (see `atoken_text`).
    pub fn to_string(&self) -> (text: String)
        ensures
            text@ == atoken_text(self@),
    {
        let mut s = String::new();
        push_decimal(&mut s, self.line as u64);
        push_str(&mut s, " : ");
        let kind = kind_to_string(&self.token);
        push_str(&mut s, kind.as_str());
        s
    }
}

impl FlatTree<AToken> {
    /// The text of the tree (see `tree_text`).
    pub fn to_string(&self) -> (text: String)
        ensures
            text@ == tree_text(self@),
        decreases self,
    {
        let ghost t = self@;
        proof {
            lemma_view_children(*self);
        }
        let mut s = self.data.to_string();
        if self.children.len() == 0 {
            return s;
        }
        push_str(&mut s, " (\n");
        let ghost head = s@;
        let mut i: usize = 0;
        while i < self.children.len()
            invariant
                t == self@,
                t.children.len() == self.children@.len(),
                forall|k: int| 0 <= k < t.children.len() ==> #[trigger] t.children[k] == self.children@[k]@,
                i <= self.children@.len(),
                head + children_text(t, 0) == s@ + children_text(t, i as int),
            decreases self.children@.len() - i,
        {
            let mut child = String::from_str("\t");
            let inner = self.children[i].to_string();
            push_str(&mut child, inner.as_str());
            proof {
                reveal_strlit("\n");
            }
            let indented = replace(child.as_str(), "\n", "\n\t");
            let ghost before = s@;
            push_str(&mut s, indented.as_str());
            push_str(&mut s, "\n");
            proof {
                let rest = children_text(t, i + 1);
                assert(before + (indented@ + "\n"@ + rest) =~= s@ + rest);
            }
            i += 1;
        }
        push_str(&mut s, ")");
        proof {
            assert(children_text(t, self.children@.len() as int) =~= Seq::<char>::empty());
            assert(head + children_text(t, 0) + ")"@ =~= s@);
        }
        s
    }
}

}
