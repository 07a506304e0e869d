# fanva

A verified checker for a fragment of Lojban. A candidate text must pass two gates:
it must lex and parse (the grammar gate), and every sentence must compile to
first-order logic without error (the semantic gate). The compiled formulas come out
as a flat buffer of nodes with names spelled out.

## Layout

- `src/prompt.rs` — the system prompt that teaches the fragment, with its grammar.
- `src/lexer.rs` — words to tokens; every word must classify.
- `src/ast.rs` — node buffers of parsed text and their well-formedness.
- `src/parser.rs`, `src/derive.rs` — the recursive-descent parser, and the grammar as
  relations between token spans and nodes: every node the parser hands out is
  spelled by the tokens it consumed.
- `src/dictionary.rs` — place counts and glosses of the fragment's words.
- `src/form.rs`, `src/compile.rs` — formulas over interned names and the semantic
  compiler: event-decomposed predications, places filled from terms, restricted
  quantifiers closed in surface order, distribution of connected sumti, GIhA chains
  with a shared head, tense and attitudinal operators. On a compile that records no
  error, a prenex binds its variables universally and no existential inside its body
  binds them again, and a compiled sentence leaves no variable free (when no GIhA
  branch term carries a relative clause).
- `src/interner.rs` — the string interner (`lasso`), reached through wrappers whose
  contracts state what it does to the interned strings.
- `src/logic.rs` — the flat logic buffer and flattening.
- `src/gates.rs` — both gates on a text and on a knowledge base.
- `src/text.rs`, `src/report.rs` — knowledge-base lines, JSON escaping, truncation,
  and the reporting helpers of the validation tools.
- `app/main.rs` — the command-line validator.
- `tests/` — tests on concrete texts.
