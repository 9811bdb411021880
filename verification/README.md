# egui_workbench

Workbench building blocks for egui applications, with their logic proved by
Verus.

- `src/menu`: a pure-data context-menu model (sections of actions, toggles,
  submenus and custom rows), its builder, and the renderer that draws it
  through egui. `show_traced` records, as ghost state, the drawing steps the
  renderer takes and what each row yielded. Its contract states that the
  steps follow `layout`, in which a separator stands only between non-empty
  sections, and that the menu is dismissed exactly when an action is chosen.
  Verus cannot observe egui itself, so the record is kept beside each egui
  call rather than read back from egui. `action_row` computes exactly what an
  action row hands to egui, and a disabled row never yields its action.
- `src/activity`: the activity registry, the `"<activity>/<view>"` view-id
  convention with its inverse, and the action-dispatch seam.
- `src/tiles`, `src/internal/tree_adapter.rs`: a plain-value model of a tile
  tree and the queries and normalisation that keep every tab group holding
  only panes. Normalisation is proved to reach that state, to keep every
  pane tile in the tile map (reachability from the root is not proved), to
  report a change exactly when one was needed, and to be idempotent.
- `src/side_bar.rs`, `src/workspace.rs`: placement and tab handles.
- `app/`: the parts that stay outside verification: the side-bar widget
  (floating-point sizes), serde and thiserror copies of library types, and
  the conversion between an `egui_tiles::Tree` and the library's tile model.
