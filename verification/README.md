# mathexpr

Parsing of mathematical expressions such as `f(x) = 5ln(e + 3) + sin3x`
into a tree, verified with Verus.

- `src/text.rs`: character classification (`char::is_numeric`, and
  whitespace as the Unicode `White_Space` set), character-indexed slicing and
  comparison of strings.
- `src/token.rs`: tokens and their model (strings as character sequences,
  numbers as their text or a named constant).
- `src/lexer.rs`: the scan from text to tokens, the grouping of a fraction
  that opens a parenthesis (`(1/2x)` is `((1/2)x)`), the pass that makes
  implied products and implied builtin arguments explicit, `tokenize`, and
  the properties of its output: no juxtaposed operands, every builtin given
  an argument, single-letter or subscripted identifiers, only the operators
  `+ - * / ^ =`, matched parentheses.
- `src/parser.rs`: the operator table, the token stream and the Pratt parser
  `parse_expr`, with the order of operations (on any chain of operands with
  prefix `-` and binary operators, whose tree it is the only one to
  respect; and every tree that respects precedence is given back from its
  tokens), grouping, function calls (for any contents and whatever
  follows), and the reading of the whole of the tokens of a text whose
  parentheses are matched, proved of its specification.
- `src/spacing.rs`: whitespace next to a parenthesis or an operator does not
  change the tokens.
- `src/reading.rs` and `src/order.rs`: the tokens of a text `a o1 b o2 c`
  of decimal numbers, and the tree it parses into.
- `app/main.rs`: the program around the library; it turns number texts into
  floating-point values.
