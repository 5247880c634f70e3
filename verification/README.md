# flexi_tools

Five small plaintext-storage command-line tools, with their logic verified
by Verus:

- `flexi` keeps a flexi-time balance as a log of changes (`+1 hr > 2 hr`,
  `= 3 hr`), with banking (`in`/`out`) and spending (`away`/`back`) sessions;
- `clocking` logs worked sessions (`2026-07-11 09:00 17:00 = 8 hr`);
- `bagg` is a shopping list / wishlist (`x (A) 12.99 Milk x2`);
- `calchemy` is an appointment book (`2026-07-14 09:00 10:00 Dentist`);
- `holler` is a contacts book (`Ann Smith phone:555 email:ann@example.com`).

## Layout

- `src/` is the verified library. Every file's text is read and written
  there: durations (`time`), log lines (`log`), line files (`lines`), tags
  (`tags`), dates (`dates`, calling `chrono` behind trusted wrappers), each
  tool's records (`bagg`, `holler`, `calchemy`) and commands (`*_cmd`,
  `logview`, `clocking`, `flexi`). The contracts state each result exactly,
  and the laws (`law_*`) state what holds across calls: every record line
  reads back as written, an undo takes back what was appended, a rewritten
  line file reads back as its records.
- `app/` is the program around it: command lines (`clap`), configuration
  files (`toml`, `serde`), the clock and time zone, file access, colours,
  JSON output and the clipboard. Named `flexi`, `clocking`, `bagg`,
  `calchemy` or `holler`, it runs as that tool; otherwise the first
  argument names the tool.
- `tests/` runs the library on concrete values.
