# pliron-circt

Hardware dialects for [pliron](https://github.com/pliron-org/pliron), as a
library whose behaviour is stated in contracts and proved with
[Verus](https://github.com/verus-lang/verus).

| Module | What it holds |
| :--- | :--- |
| `ir` | Operations, blocks, regions, values, types and attributes, in an arena with an invariant |
| `fsm` | Finite state machines: operations and their checks, reachability and removal of states, plans for lowering |
| `comb` | Checks that the operands and results of combinational operations agree in width |
| `sv` | SystemVerilog: number literals, syntax trees, and the lowering of modules to ports, values and operations |
| `text` | Characters, decimal numbers and prefixes |

What a function does is said by spec functions: `fsm::model` for the checks of the
`fsm` operations, `sv::model` for the lowering of SystemVerilog. What holds of the
library as a whole is proved in `fsm::laws`, `fsm::lowering`, `comb::laws` and
`sv::laws`.

Four outside crates are called, each through a small function that states what is
taken on trust: `pliron` (identifiers, fixed width integers), `awint` (bit widths),
`rustc-hash` (the scope of a module) and `sv-parser` (the parse of a source text).

`app/` makes pliron operations of the `fsm` dialect, shows them to the library, and
carries back what it finds.
