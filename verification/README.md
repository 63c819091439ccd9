# toy_lang

The front end of a small expression language, verified with Verus.

- `token`, `token_set`, `cst_kind`, `syntax`, `grammar`: token and node kinds,
  sets of token kinds, and the binding powers of the operators.
- `cst`, `ast`, `text`, `literal`: the concrete syntax tree with a builder,
  typed views of its nodes, and the values of literal tokens.
- `float_zero`: whether a float literal reads as an `f64` equal to zero
  (its value is at most 2^-1075), decided exactly on its digits.
- `hir`, `hir_lower`, `hir_shape`, `combine`: the high-level IR, the lowering
  of a syntax tree to it (with diagnostics and symbol events), the node-by-node
  statement of what that lowering yields, and the merging of separately
  lowered items into one arena (and the splitting of per-expression types
  back into one map per item).
- `mir`, `mir_lower`, `mir_text`: the mid-level IR of basic blocks, the
  lowering of the high-level IR to it, and its textual form.
- `profiler`, `compiler`: execution statistics and compiler options.

The library starts from a syntax tree: it holds no lexer and no parser, so
trees are built with `TreeBuilder`.

Every function in `src/` carries a contract. Verus proves all of them but two
small wrappers of std (`String::from_iter` over characters and
`char::from_u32`), whose contracts are trusted; `tests/` runs the library on
concrete inputs.
