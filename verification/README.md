# Key Layout

A remapper for the spare keys of a Japanese laptop keyboard under XFCE/X11:
a key can produce the symbols of another key, or launch an application
through an XFCE keyboard shortcut. Saved rules are watched and reapplied when
the session resets them.

- `src/` is the verified library (Verus): the rules file format
  (`rules`, `hexcode`, `text`, `order`), the reading of the live keymap and
  the decisions that depend on it (`keymap`, `live`), the operations of
  applying, restoring, changing and reconciling rules as sequences of
  outside actions (`session`), the rule the editor builds for a key
  (`compose`), the watcher's reports (`watch`), and the texts shown or
  handed to the desktop (`labels`, `desktop`).
- `app/` is the program: running `xmodmap` and `xfconf-query`, reading and
  writing `~/.config/key-layout/rules.tsv`, the X11 keymap queries, the
  watcher loop and the GTK editor. It performs each action that the library
  asks for and hands the reply back.
- `tests/` runs the library on concrete inputs, many of them against the
  standard library's own string functions.
