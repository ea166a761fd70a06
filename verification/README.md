# llm_tidy_lint

Lint rules for Rust and C# sources, written in Verus: the rules state in
`requires` / `ensures` contracts what they report, and Verus proves the
code against them. The contracts pin the findings: the duplicate-sequence
search reports exactly the sorted, consolidated groups with the sites the
selection picks, the same under any fingerprint mask; the qualified-path
rules report, for a whole file, the hints of a preorder walk that keeps a
frame per scope, skips exempt spans and yields one hint per reported path
occurrence, in source order.

## Layout

- `src/syntax.rs`, `src/parser.rs`: a plain syntax-tree model of a parsed
  file, and the tree-sitter calls that fill it, each behind a small
  wrapper whose contract is taken on trust.
- `src/text.rs`, `src/lex.rs`, `src/order.rs`: character, path and ordering
  helpers shared by the rules; the few `str`/`char` operations they need
  from std are trusted wrappers too.
- `src/rust/`, `src/csharp/`: one module per rule, named by lint code
  (DOC*, LEN*, MOD*, PERF*, TEST*), with the item and declaration readers
  they share.
- `src/mod001_module_size.rs`, `src/dup001_duplication/`: language-neutral
  file checks (module size, repeated source sequences).
- `src/sole_caller.rs`: MOD004 findings grouped by anchor file, shared by
  the Rust and C# rules.
- `src/symbols.rs`: text-regex hints of the symbol policies, searched with
  the `regex` crate over a file's text, whole or bounded by its comments.
- `src/symbol_policy.rs`, `src/symbol_usage.rs`: the declaration and
  invocation policies: name matching (literal suffixes at `::`, whole-path
  regexes), exclusions gathered from every matching rule, the first
  matching hint per occurrence, and the invocations read from the tree.
- `src/rust/mod.rs`: `run_all`, every Rust rule over one file in order.
- `tests/`: behaviour tests on concrete inputs.

Each rule module pairs spec functions (what a finding is) with the
executable check, and public proof functions state the laws that relate
several checks, such as rules that never fire together or an order
violation being reported exactly when a section is out of order.
