# mac-shell

An interactive, minimalist Unix-like shell, whose logic is verified with Verus.

## Layout

- `src/` is the verified library. Every function in it has a contract that
  Verus proves; the laws of the shell are public proof functions beside the
  functions they speak of.
  - `parser`: quoting, escapes and the separators `;`, `&&` and `&`; which
    commands of a line run (`execute_all`, one decision per call).
  - `editor`, `history`: the line being typed, history navigation, the
    history file's entries, and the Ctrl+R reverse search.
  - `completion`: which word Tab completes, from where, and with what; the
    search path with the system directories added.
  - `commands`: the plans of `cd`, `cp`, `mv`, `rm`, `echo` and of `cat` on
    the keyboard.
  - `ls`, `listing_order`: options, type indicators, permission strings,
    the column layout of long listings, the orders of entries, and the
    whole output of a listing.
  - `text`, `order`, `pwd_state`, `welcome`: shared string functions, the
    order of strings, the directory state, the greeting.
- `app/` is the program: the terminal loop (crossterm), the file-system and
  process work of the commands, and what needs the clock, the user database
  or extended attributes.
- `tests/` runs the library on concrete values.
