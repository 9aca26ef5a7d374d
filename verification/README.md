# vanplan

A blank-canvas DAG editor: cards with directed dependencies, laid out left to
right, saved as YAML and shared through the URL fragment
`#vp1.<base64url(gzip(yaml))>`.

The logic is a Verus-verified library under `src/`:

- `model` — cards, dependencies, cycle detection (`would_cycle`), adding an
  edge (`add_edge`, which keeps the graph a DAG), fresh card ids, and the
  checks applied to a loaded document (`check_document`).
- `editor` — the editor state and `State::reduce`, which applies one user
  action; the graph stays a DAG and card ids stay distinct.
- `hash` — the session payload: `encode`, `decode`, `payload_from`; what
  `encode` writes, `decode` reads back.
- `layering` — the column of each card (prerequisites left, dependents
  right, cards without dependencies in a column of their own).
- `color`, `wrap`, `sort`, `text` — palette and text color, line wrapping,
  string order, and character helpers.

`app/` is the browser front end (yew): YAML (serde), coordinates and the
barycentric order inside columns (which work in `f64`), and the DOM.
