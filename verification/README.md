# typst_symbol

Unicode symbols with named variants, as used by a typesetting system: a
symbol is a single character or a list of variants, each identified by a set
of modifiers written as `a.b.c`. Applying modifiers selects the variant that
holds all of them and has the fewest others; user-defined variant lists are
validated before a symbol is built.

Layout:

- `src/` — the verified library (Verus).
  - `text.rs`: character-level string helpers and the order of `str`.
  - `modifier_set.rs`: dotted modifier sets, their splitting and the
    best-match rule, with the lemmas about it.
  - `ident.rs`: identifiers (modifier names): a start character of the
    Unicode property XID_Start or `_`, then XID_Continue characters, `_` or
    `-`. The Unicode properties come from the `unicode-ident` crate, which is
    why it is a dependency.
  - `symbol.rs`: `Symbol`, its model and operations (`get`, `modified`,
    `variants`, `modifiers`, `func`, `repr`); the selection itself is done by
    `codex::ModifierSet::best_match_in`.
  - `repr.rs`: the textual representation of symbols.
  - `construct.rs`: building a symbol from user-given variants.
  - `elem.rs`: the content element for one symbol character.
  - `laws.rs`: properties spanning several operations.
- `tests/` — tests on concrete symbols.
- `app/` — unverified glue: `Display`/`Serialize`, deprecation sinks and
  error messages with source positions.

Box layout is not part of this crate: it works on a layout engine's frames
and floating-point sizes.
