# proofhouse_rust_lib

Arithmetic expressions over exact rationals, written in Verus.

`src/` is the verified library:

- `lexer` scans text into tokens (`lex` is its specification) and proves that
  every reported byte offset lands on the character or lexeme it names;
- `parser` is a precedence-climbing parser whose contract is the recursive
  specification `p_expr` / `p_operand` / `p_tail`;
- `formatter` renders a tree canonically (`render`);
- `roundtrip` proves that rendering a tree of the parser's shape and parsing
  the text gives the tree back, and that rendering is one-to-one on all trees
  (a negative literal renders in parentheses, `(-3)`, apart from a prefix
  minus over `3`), so two trees rendering alike evaluate alike (the rendering
  is the key a table of values can be filed under);
- `evaluator` holds `Rational`, a numerator over a positive denominator in
  lowest terms (a type invariant), its checked arithmetic, and the walk over a
  tree; laws there show each result equals the exact value it stands for;
- `divisor` is the greatest-common-divisor theory the reduction rests on;
- `numeral` spells and reads decimal numerals;
- `testing` arranges token runs for property suites and proves such a run
  scans back out of its spelling.

`app/` holds what the verifier cannot take: the publish-once cell, the shared
evaluation cache and the threaded evaluation built on them, `Display` and
`Error` for the error types, and the proptest strategies.
