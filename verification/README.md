# rebi

A profile manager for the keyd keyboard remapping daemon, with its
configuration logic written in Verus and proved against its contracts.

- `src/` is the verified library:
  - `text` — whitespace trimming, line splitting, lexicographic order and
    decimal rendering on character sequences;
  - `mappings` — a layer's key table, kept in increasing key order;
  - `config` — the configuration model and the keyd file format (parser and
    writer);
  - `laws` — properties across operations, among them that writing a
    configuration and reading it back gives it again, provided every id,
    name, key and action can be written without changing its meaning (and
    with each layer's modifiers in the written order `C M A S G`), and that
    blank lines, comment lines and `\r\n` line ends do not change what is
    read;
  - `action` — key actions such as `overload(nav, esc)` and how their text is
    rewritten;
  - `edit` — the editing operations of the profile manager;
  - `names` — generated names, recorded key combinations, mouse buttons;
  - `devices` — reading `/proc/bus/input/devices`;
  - `profile` — the device configurations of an open profile and the
    selection.
- `app/` is the graphical program (iced) and the privileged helper that
  copies a profile to `/etc/keyd`; it does the file, process and window work
  and leaves every decision on configurations to the library.
- `tests/` runs the library on concrete inputs.
