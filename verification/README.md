# radia

A compiler for Radia, a small message-passing language, to the text format of the
OOVM object virtual machine. The library is written in Verus: each stage has a
contract that states its result over a mathematical model, and Verus proves it.

- `src/text.rs`: characters and strings: substring search and replacement,
  decimal rendering, and the syntax of integer and float literals.
- `src/tree.rs`: `FlatTree`, the trees the parser gives, and their values.
- `src/parse.rs`: the lexer (`tokenize`), the concrete parser that nests tokens
  by brackets and keywords (`parse_concrete`), and the abstract parser
  (`parse_abstract`); `parse` runs all three.
- `src/assoc.rs`: maps from strings, kept in insertion order.
- `src/compile.rs`: the code generator (`compile_program`), which compiles a
  program after the prelude into one file per type.
- `src/error.rs`: the errors, and the text they are reported with.
- `app/main.rs`: the command: reads `main.rad` and the prelude, turns float
  literals into their 32-bit values, writes the files, and hands them to OOVM.

Where the parser or the code generator stops short (a lone `'` word, a lambda
without a body, a message send without a message, a counter at its limit), the
`try_` functions return `None`; the others require that this does not happen.
