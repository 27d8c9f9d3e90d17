# gpui_ide

The verified core of a desktop IDE for Lua scripts on the TI MSPM0G3507
(firmware compiled to Lua 5.5 bytecode, uploaded over a CH340 serial link).
Everything under `src/` is checked by Verus; `app/` is the command-line
shell around it (files, serial port, fonts, schema validation).

## Layout

| module | what it holds |
|---|---|
| `bsl` | Intel HEX / TI-TXT parsing, firmware images, ROM bootloader packets, flashing plan, retry decisions of the bootloader exchanges |
| `compile` | Lua source preparation, bytecode checks, compiler error messages |
| `fontpack` | static analysis of OLED text calls and glyph packing into a Lua font module |
| `metadata`, `profile_names` | chip / board / API metadata, target profiles, completions and call checking |
| `registry` | which registered metadata file a project target resolves to (SemVer), schema checks of metadata documents |
| `workflow` | the decisions of the upload-and-run and after-flash workflows |
| `context` | the project context text handed to assistants |
| `console`, `ports` | what the console shows, run status from device lines, default serial port |
| `editing` | lines, line/column ↔ byte offsets, UTF-16 offsets, brackets, words, auto-indent, graphemes |
| `edit_buffer`, `line_buffer` | the editor buffer (typing, auto-pairs, undo/redo) and the single-line field |
| `tabs`, `project_files` | open editor tabs, window title, default and typed file names |
| `text` | character-sequence helpers shared by the modules |

## Collections

The metadata tables (functions by name, modules by name, pins, peripherals)
are held as `Vec`s in the order the files give them; a target profile's
type invariant is that every name is unique (`profile_names`), and laws
state that completion lists come sorted. Maps
keyed by `String` were not used: vstd's `HashMap`/`BTreeMap` specifications
prove nothing about lookups under such keys, and the order in which a hash
map is walked is not a function of its contents.
