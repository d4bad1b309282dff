# psmux utilities, verified

A Verus library holding the text utilities of a terminal multiplexer, each
with a contract proved by Verus:

- `quoting`: quoting of arguments for the control protocol and the
  splitting of command lines, with the proof that quoted arguments read
  back exactly.
- `base64`: Base64 over the UTF-8 bytes of a string, with the proof that
  decoding an encoding gives the string back.
- `title`: inferring a pane title from the shell prompt on its screen.
- `windows`: the layout tree of a window, and the text and JSON-ready
  window listings.
- `render`: terminal colours, their names, and how cells are drawn.
- `shell_path`: `~` and plugin-directory expansion in `run-shell` commands.
- `vt`: reading a `vt100` screen into the library's own types.
- `text`: character-level helpers and their specifications.

`app/` holds what reads the environment and the file system, and the
serde copies of the listing types used for JSON.
