# guardc

A compiler from constraint modules to FLUX bytecode and proof certificates,
written in Verus.

```
CIR -> LCIR -> FLUX bytecode + proof certificate
```

- `src/` is the verified library. Every function has a contract, and the
  modules state the laws that hold of them together as public proof functions
  whose names begin with `law_`. Among them:
  - lowered code computes the value of its expression (`meaning.rs`), and a cycle
    of the constraint loop checks every invariant of the module that has no guard
    or whose guard holds (`cycle.rs`). Both are stated of expressions that read
    only declared or bound variables and look back only at variables with a
    history buffer, and of modules whose buffers lie in the slots for histories;
  - the bytecode of a program does what the program does, and so the bytecode of a
    module checks its invariants, under the same conditions (`stack.rs`). There
    a constant is the number that stands for it, a negation is a product with minus
    one, and an implication is the disjunction with the denied premise;
  - an expression is refused for its first part, from the left, that is an access to
    an array or a record or that asks for a sample that no buffer retains, whatever
    was lowered before (`refusal.rs`);
  - what a quantifier is expanded to rests on the members of its domain, where the
    body does not read the bound variable on their number alone, and `exists` has
    the code of `forall` with other joins (`expansion.rs`);
  - quantifiers speak of the members of their domains, and temporal operators of
    the samples that the history buffers retain (`quantifiers.rs`). `next`, `after`,
    `until` and `since` are checked at the sampling instant alone;
  - lowered programs are well formed and know their invariants (`lowering.rs`),
    assign every variable once and read only what has a value, the code of an
    expression without variables only what it has computed itself (`order.rs`), and
    they keep to the memory layout (`layout.rs`);
  - jumps lead to the starts of blocks, and the only thing that can be wrong with
    generated code is that the stack runs short (`codegen.rs`);
  - the encoding is unambiguous (`flux.rs`);
  - every rule has its own obligation in a certificate (`certificate.rs`).
- `app/` is ordinary Rust around it: clock, host, JSON, error display.
- `tests/` runs the library from the outside.

Memory has 256 slots: constants are in 0 to 31, state variables in 32 to 127,
history buffers and temporal variables in 128 to 223, locals and temporaries in 224
to 255. Locals take slots from 224 upwards. The temporaries of an expression share
the slots that no local has, from 255 downwards, and a slot is free again once its
value is no longer wanted. An expression that needs more at once is not lowered,
and neither is a module with more variables of a kind than there are slots for it.

Numbers are binary64 bit patterns (`binary64.rs`): the library converts integers
to them and divides them by one thousand, with correct rounding, and otherwise
only passes them on.
