# Charcoal Slips

Charcoal Slips is a LaTeX editor with an assistant that reviews the grammar of a
selected passage. This crate holds the editor's logic as a Verus library, with every
function proved against its contract, and a thin desktop front end around it.

## Layout

- `src/` — the verified library (crate `ccslips`):
  - `text`, `lines`, `order`: character sequences, line/column positions, sorting;
  - `autocomplete`, `menu`, `caches`: what the cursor is typing, the suggestion
    popup, and the citation-key and label caches;
  - `highlight`: LaTeX and build-log highlighting;
  - `structure`: bracket matching and `\begin`/`\end` synchronisation;
  - `search`: the search-and-replace engine, including the "safe advance" after a
    replacement;
  - `vertical`: the vertical (multi-line) cursor;
  - `diff`: the word diff shown for the assistant's rewrite;
  - `review`: reading the assistant's reply;
  - `config`, `shortcuts`: default themes, templates and key bindings;
  - `editor`: the editor state and the decisions of each user action.
- `app/` — the window, the file system, the build process and the assistant's HTTP
  client; it calls the library for every decision.
- `tests/` — tests of the library on concrete inputs.

Laws that relate several operations (for example that a diff reconstructs both texts,
or that moving to the next match and back returns to the same match) are public proof
functions next to the operations they speak of.
