# lunex

The verified core of a flexbox-like ui flow layout engine.

- `src/` is the verified library (Verus):
  - `units.rs` — `UiValue<T>`, a length made of optional unit components.
  - `layouts.rs` — the layout value types: `Rectangle2D`, `UiFlowDirection`,
    `UiJustify`, `Scaling`, `UiFlowSize`, `UiFlowAxis`, `UiFlowPadding` and the
    Boundary layout type, with their constructors and builders.
  - `flow.rs` — `UiFlowText`, main axis selection, grid line packing, the
    `justify` margin templates and the injection of templates into undefined
    margin sides, with the laws they obey.
  - `tree.rs` — `FlowTree`, the arena of flow nodes (parents and ordered
    children) with its well-formedness invariant, `push`, `reparent`,
    `root_of` and the preorder `subtree` traversal, with its laws.
- `app/` holds what works with `f32` lengths: unit evaluation, the flow
  configuration and the absolute layout computations, and the flow engine
  (content hugging, space distribution, shrinking, wrapping, grid tracks,
  placement and state blending) built on the library's verified pieces.
- `tests/` exercises the library on concrete values.
