# redstone-compiler

A toolkit that compiles digital logic to redstone structures:

```text
Verilog -> Logical IR -> Routable IR -> place and route -> world
```

`src/` is the library, verified with Verus; `app/` is the command line around
it, with file access, serialisation, the optional GPU and floating point costs;
`tests/` runs the library on concrete designs.

| Module | What it holds |
| --- | --- |
| `graph`, `logic`, `sequential` | logic graphs and what they compute |
| `verilog` | elaborated processes and their cells |
| `ir` | logical and routable designs, targets, hierarchy flattening, lowering |
| `transform::logic` | folding of constants |
| `world` | cells, blocks and bounded grids |
| `transform::place_and_route` | macros, placement, electrical rules, compression, global routing |
| `gpu`, `perf`, `options` | buffers of the candidate filter, counters, options of a run |

What belongs to the game is handed to the library as functions: which cells a
block powers, how a world settles, where a block may be placed. Each contract
says what is asked of them, and what follows from their answers.
