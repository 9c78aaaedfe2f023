# puzzle_bots

Two puzzle solvers whose logic is verified with Verus.

- **Bridges (Hashiwokakero).** `reading` builds the graph of a puzzle grid: a node
  per digit cell, a bridge between neighbouring digits of a row or a column, and the
  bridges each one crosses. `domain` holds the link counts a bridge may still take,
  `hashi` the nodes and bridges, `graph` the graph with its islands and the quota
  rules of a node, and `solve` the solver: quota rules for queued nodes, island
  rules, then guesses, until every bridge is decided. `text` renders the solution.
- **Network cutting.** `skynet` holds a network with gateways, the best-first search
  from the agent's node that ranks paths by their mean gateway links per step, the
  choice of the node whose gateway link is cut, and the cut itself.

`src/` is the verified library; its contracts state each function's result over
spec functions, and public proof functions state the laws that span functions.
`app/` reads standard input and prints the answers (`puzzle_bots hashi` or
`puzzle_bots skynet`). `tests/` runs the library on concrete puzzles and levels.
