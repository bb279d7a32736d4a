# gandr-core-checker

The verified core of the gandr checker: the syntax and types of the core
call-by-push-value calculus, a flat syntax store, a normalization-by-evaluation
engine over it, the native primitives, sealing, total type-error marking
records, and the bridge into the kernel's vocabulary. Every function in `src/`
is verified with Verus against its contract.

## Layout

- `src/syntax.rs`, `src/types.rs` — terms and types.
- `src/store.rs`, `src/store/spelling.rs` — the flat syntax store: lowering a
  term writes nodes that spell it, reading a node back returns the term it
  spells, and appending never changes what an earlier node spells.
- `src/equality.rs` — structural equality of terms and types.
- `src/nbe.rs`, `src/nbe/` — the normalizer:
  - `sem.rs`: the semantic arena (values, computations, closures,
    environments, neutrals) and guard words;
  - `eval.rs`: evaluation, with a relation stating what a value node and the
    non-running computation formers evaluate to;
  - `quote.rs`: readback, with a relation stating what a node reads back, and
    the law that readback after evaluation is the identity on inert values;
  - `conv.rs`: conversion, with the verdict it reaches from weak-head forms;
  - `defs.rs`: scoped definitions and their heights;
  - `intern.rs`: canonical keys and the two-faced syntax interner.
- `src/prim.rs`, `src/prim/` — the native primitives, each with its outcome.
- `src/seal.rs`, `src/mark.rs`, `src/stack.rs`, `src/region.rs`,
  `src/nominal.rs`, `src/outcome.rs`, `src/text.rs` — sealing, marking
  records, stack typing helpers, and small shared vocabularies.
- `src/kernel_bridge.rs` — lowering into the kernel's term and type language.
- `app/lib.rs` — what cannot be verified: floating-point arithmetic for the
  numeric primitives, error types carrying `Display`, and hashing through
  `std::hash`.
- `tests/` — scenario tests and concrete instances of the laws.

## What is not here

The marking pass itself, the traversal that decorates every node of a
checked term and records its type errors, is not part of this crate. It is
driven by the checker's typing rules (subtyping, effect rows and handlers,
grades, typing contexts), which live outside it. `src/mark.rs` holds only the
records that pass writes: stable node ids, node facts and marks, and the
`Marking` table with its lookups, kept in key order as a type invariant.
