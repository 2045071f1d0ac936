# ghast

An interpreter for a small expression language, with its parsing,
precedence resolution and evaluation verified with Verus.

- `src/` is the library. `phase2` reads source text into a flat tree,
  `phase3` resolves operator precedence into a core tree and evaluates it,
  `ghast::interpret` runs the whole pipeline. `corelang` builds a typed core
  tree, `utils` maps core types onto machine types, `builtins` applies the
  built-in functions, `format` writes values and trees out. `combinator`,
  `parser` and `primary` hold parser combinators, a smaller `&` grammar and
  parsing expression grammars as data. `operator` is the operator table,
  `text` the character classes the grammars use.
- `app/` is the command-line program (file, `-c`, `-i` prompt, demo), the
  terminal input and output of the built-ins, and the LLVM type building.
- `tests/` exercises the library on concrete inputs.
