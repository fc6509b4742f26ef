# fastnote

The core of a Markdown note-taking application, verified with Verus: documents and their
blocks, inline styles, editing with undo, the index of a vault of notes, templates,
boards, snapshots, and the talk with a chat endpoint.

- `src/` is the library. Texts are sequences of characters, positions are byte offsets of
  their UTF-8 form, and paths are texts with `/` between their parts. Nothing in it
  touches the disk, the network or the screen: what was read is passed in, and what is to
  be done comes back.
- `src/undo_laws.rs` and `src/edit_laws.rs` state what editing commands promise of each
  other, and `src/vault_laws.rs` and `src/tree_laws.rs` what the tree of a vault does; other laws stand at the end of the modules that they speak of.
- `tests/` runs the library on concrete values.
- `app/` is the application around it: files, HTTP and the window.
