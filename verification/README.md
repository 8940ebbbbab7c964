# visible

The home-inventory domain as a verified library. Everything a household owns
is a node in one tree rooted at the house; nodes carry a photo, a title,
attributes and tags, and the household shares a task list.

- `src/` holds the logic, proved with Verus: the tree and its shape
  (`tree`), the inventory over the rows a library stores (`inventory`), the
  task list (`task`), which changes carry image blobs (`blob_plan`), the
  sync decisions (`sync`), text handling (`text`, `order`), and the
  app-facing types (`bridge`, `library`, `share`, `error`).
- `tests/` runs the library on concrete values.
- `app/` is the host around it: the SQLite store, image files, keyring,
  cloud sync, the runtime and the mobile bindings.
