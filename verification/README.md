# laziergit

A small terminal interface for git: a sidebar with the changed files as a
folder tree, a side-by-side diff of the selection, and keys to stage, commit,
switch branch, pull and push.

The library in `src/` holds the logic and is verified with Verus:

- `status` reads `git status --porcelain=v2 --branch -z` output.
- `tree` groups the changed paths into folders and lays out the visible rows.
- `diff` turns unified diff text into side-by-side rows.
- `field` is the one-line text field of the prompts.
- `app`, `update`, `nav` and `outcome` hold the application state, its answer
  to each action, and what it does with the outcome of git commands.
- `input` and `mouse` map keys and mouse events to actions.
- `commands` gives the git command lines of each operation and which runs
  next, given how the ones before it went.
- `layout`, `ui`, `theme`, `reply`, `spinner` and `text` are the smaller
  pieces: screen regions, what the panes show, colours and icons, the text of
  a command's reply, the spinner, and character-sequence helpers.

The application never runs git itself: an action that needs git leaves a
`Work` item, which the program in `app/` carries out, command by command as
`commands::next_step` orders them, and hands back through
`finish_status`, `finish_git` or `finish_diff`.

`app/` is the program: the terminal loop, git commands, and drawing with
ratatui. `tests/` runs the library on concrete inputs.
