# rc_insert

A compiler pass that makes reference counting explicit, with proofs.

The pass reads a procedure of a monomorphic intermediate representation in which nothing is
counted yet, and inserts the instructions that add to, or take from, the reference counts of
values. It needs to know which parameters of functions and join points are borrowed.

## Layout

| module | contents |
| --- | --- |
| `ir` | statements, expressions, layouts, and their mathematical views |
| `borrow` | the map of parameters with their borrow flags |
| `collections`, `arena` | maps and sets; what the pass has from `bumpalo` |
| `occurrence` | which symbols occur in a statement, and which are bound there |
| `liveness` | which variables are live before a statement |
| `insertion` | which instructions are inserted, and where |
| `inc_dec` | the pass |
| `inserted`, `erasure` | the pass inserts instructions and changes nothing else |
| `counting` | only counted values are touched |
| `liveness_laws` | the pass does not change what is live |
| `ownership`, `ownership_laws` | every reference is given up exactly once, where it can be accounted for: `ownership::regular` says when (not, for instance, for an owned variable that is bound and never used, or that an `invoke` takes) |
| `well_formed` | statements that the pass can work on |

The entry points are `inc_dec::visit_proc` and `inc_dec::visit_declaration`.
