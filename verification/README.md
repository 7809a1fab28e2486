# known_methods

A peephole pass for a JavaScript minifier. It replaces calls of well-known methods on literals by
their results:

| call                                    | becomes            |
| --------------------------------------- | ------------------ |
| `'aB'.toLowerCase()`, `' a '.trim()`    | `'ab'`, `'a'`      |
| `'abc'.indexOf('c')`                    | `2`                |
| `'abcde'.slice(1, 3)`                   | `'bc'`             |
| `'abc'.charAt(1)`, `'abc'.charCodeAt(1)`| `'b'`, `98`        |
| `'abcb'.replaceAll('b', 'x')`           | `'axcx'`           |
| `String.fromCharCode(120, 121)`         | `'xy'`             |
| `255 .toString(16)`                     | `'ff'`             |
| `[1].concat(2, [3], x)`                 | `[1, 2, 3].concat(x)` |
| `''.concat(a).concat(b)`                | `''.concat(a, b)`  |

`src/` is the library, verified with Verus. It works on a syntax tree of its own, in which nodes
that the pass never looks into are numbers, and on JavaScript numbers kept as bit patterns.

- `known_methods.rs`: the pass, `PeepholeReplaceKnownMethods`.
- `outcome.rs`: what becomes of each call.
- `concat.rs`: chains of `concat` calls and the merging of arguments into arrays.
- `text.rs`, `number.rs`: strings and numbers.
- `laws.rs`, `text_laws.rs`: what holds of the whole. Folding keeps the value of a `concat`
  expression, one visit is enough, digits read back, and so on.
- `outside.rs`: the functions of other crates that the proofs take on trust.
- `ast.rs`, `context.rs`: the tree, and what a traversal knows about a call.

`app/` runs the pass over an `oxc_ast` tree. `tests/` runs it on single calls and on whole
programs.
