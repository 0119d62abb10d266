# fink_vscode

Editor support for the ƒink language, verified with Verus: semantic tokens, diagnostics,
go-to-definition, find-references and import metadata of a document, and the source-map
highlighting of the compiler's test files.

The ƒink front end (lexer, parser, desugarer, source-map decoder) stays outside. Its results
reach the library as plain trees and tables (`syntax`, `scope`, `sm`), and what the library
makes of them is proved.

- `src/` is the library.
  - `document`: the parsed document, made once and queried many times.
  - `tokens`, `imports`, `diagnostics`, `scope`: what a document is made of.
  - `sm`: the mappings of test pairs, over `candidates`, `smblock`, `smtext` and `blockmap`.
  - `json`: the JSON that the editor reads, and a proof that it reads back.
  - `text`, `bytes`, `sort`: strings, byte offsets and a stable sort.
  - `lexer`: the operators that the lexer is told about.
- `app/` binds the library to the front end and to WebAssembly.
- `tests/` runs the library on concrete values.

Some inputs cannot come out of the front end: spans that run backwards, offsets inside a
character, bindings that do not exist. Functions that need them ruled out say so in
`requires`; beside each stands a function that tests for them (`try_new`, `try_analyse`,
`try_build`, `try_build_sm_block`, `try_collect_tokens`, `sm_fits`).
