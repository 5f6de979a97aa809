# backend_lab

A compact compiler back end for an `i64` SSA IR, verified with Verus: parsing,
a reference interpreter, SSA/CFG validation, dominators, liveness, live
intervals, interference, register allocation with an allocator-independent
verifier, parallel-move sequencing for `phi` edges, and lowering to x86-64
through the iced-x86 assembler.

## Layout

- `src/` — the verified library.
  - `ir`, `smallvecs`, `parser`, `text`, `examples`: the IR and its text form.
  - `interp`: the reference interpreter, specified by `evaluation`.
  - `cfg`, `validation`: successors, predecessors, dominators and the SSA rules.
  - `liveness`, `intervals`, `interference`: the least solution of the
    liveness equations, live intervals and the interference graph.
  - `regalloc`, `linear_scan`, `sim_anneal`, `sorting`: the allocation
    contract and its verifier, linear scan, and the colouring problem that
    simulated annealing searches.
  - `moves`, `codegen`, `assembler`, `disasm`: parallel moves, lowering to
    assembler instructions, encoding with iced-x86, and a NASM listing.
  - `execution`, `layout`, `simulation`, `correctness`: a machine that runs
    lowered programs with their labels, jumps and flags, where each piece of
    a program stands, and the proof that a lowered program returns what the
    interpreter returns.
  - `messages`: the text of every error.
  - `pipeline`: examples and allocators by name, the differential cases, and
    the protocol with the process that runs generated code.
  - `collections`: the `indexmap` maps and sets the passes use, with their
    contents named as sequences.
- `tests/` — tests of the library.
- `app/` — the command line: running generated code in a child process,
  the annealing search loop (floating point), and Graphviz output.
