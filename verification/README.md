# focus

A small query language over a store of facts, compiled to nested loops and run one row at a
time. The library is written in Verus: each function carries a contract, and Verus proves it.

A query is a head and a body of statements, such as

    {a = X, b = Y} where test.Edge {from = X, to = Y}; !test.Node {id = Y}

It goes through these steps, each a module of `src/`:

- `lexer`, `parser`, `parse`, `cst`: tokens and the parse tree;
- `lower`, `syntax`, `shape`: the tree of nodes, and what it says;
- `print`: the tree as text;
- `flatten`, with `reorder`: the program, its loops in an order that binds before it reads;
- `plan`, `program`, `exec`, `iter`, `machine`: running it, and taking a run up again after any
  row;
- `tuple`, `layout`, `schema`, `bytes`, `blob`: keys and values as the store keeps them;
- `mem_store`: a store in memory.

What a query means is stated in `reading`, with no register and no seek: nested loops over the
facts, one statement inside another. The laws of the library stand in the modules named `laws`,
and in `reading/joining`, `flatten/orders` and `flatten/rewriting`:

- a compiled query answers what it means (`flatten/laws`);
- every order of its body answers the same rows (`flatten/orders`);
- a body written in another order, a disjunction turned round or taken apart, and a negation
  answer as they should (`flatten/rewriting`, over the laws of `reading/laws`).

`app/` holds what touches the process: a trace on standard error, an allocation probe, and
reports. `tests/` runs the library.
