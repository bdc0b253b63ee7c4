# rhp

A server for `.rhp` pages: HTML with `<rhp>` script sections, run per
request in a JavaScript engine, with a database, a files folder, WebSockets
and hot reload.

`src/` is the verified library (Verus):

- `text` — character-level helpers: search, whitespace, string order, sorting.
- `process` — splitting a page into HTML and code sections, methods, the
  page render loop's decisions (which section runs, when a script owns the
  response), and the response a page's scripts produce.
- `lexer`, `ast`, `parser` — the embedded script language: tokens, syntax
  tree, and a recovering recursive-descent parser, each specified over
  plain values.
- `files` — path resolution inside the files folder.
- `db` — SQL text of the table statement builders, transaction bookkeeping,
  result shaping.
- `render` — HTML escaping, cookie lines, response state, hot-reload script.
- `request` — cookies, WebSocket upgrade, body kinds, form fields, script paths.
- `sockets` — the client roster and the selections scripts send to.

`app/` is the server around it: HTTP routing, the QuickJS engine, SQL
execution, file I/O and WebSocket connections.

`app/eval.rs` and `app/value.rs` hold the tree-walking evaluator for the
script language's syntax tree, with its runtime values. They are not built:
its arithmetic is floating-point wherever a value is not a whole number, it
awaits the database in the middle of expressions, and it needs syntax-tree
nodes that `rhp::ast` does not have. Pages run in QuickJS instead.
