# cfg_fuzzer

Random, parsable programs from a context-free grammar, with the library
proved in Verus.

The grammar notation: rules `name: | letters ;`, string literals, numbers,
ranges `[a-z 0-9]`, groups `( ... )`, options `|`, postfix `?`, `*`, `+`,
upper-case terms (`IDENT`, `CAPS_IDENT`, `TYPE_IDENT`, `NUMBER`, `INT`,
`NEWLINE`/`NL`, `TAB`, or your own with `-T NAME:LETTERS`), and `#`
comments.

Layout:

- `src/text.rs`: character classes, decimal numbers, string building.
- `src/lexer.rs`: the lexer; `lex_step` and `next_spec` say what one read
  does. Comments run from `#` to the end of the line; positions count
  lines and columns of the text read; a peek leaves the lexer as it was.
- `src/cfg.rs`: the parsed grammar (`Cfg`), its letters, and the name table.
- `src/parse_spec.rs`: what parsing gives, as spec functions (`spec_parse`).
- `src/parser.rs`: the parser, proved to compute `spec_parse` and to build
  only well-formed grammars. A rule or group holds its own letters only;
  the letters that `?`, `*`, `+` wrap and the contents of inner groups are
  stored before it.
- `src/draws.rs`: the random number generator and the record of the draws
  made from it, which only the draws themselves add to.
- `src/generate.rs`: the generator. What it writes is stated exactly as a
  walk of the grammar over the random draws it made (`run_code`), and is
  proved to be in the grammar's language (derivation trees, `in_language`).
  It needs only the letters a walk can reach to lie in the grammar.
- `src/fuzz.rs`: parse, then generate.
- `src/cliargs.rs`: the command line as plain values.
- `app/main.rs`: the command-line program (argument parsing, files, printing).

Run it as `cfg-fuzzer c.cfg --start code`.
