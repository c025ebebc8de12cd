# vmdef

A framework for describing small virtual machines (CTF-style bytecode VMs)
in Python and disassembling or emulating programs for them.

- `src/` is the verified library (Verus):
  - `parser_arg` — operand strings such as `rd2` (flags, then a size) and
    cutting operands out of instruction bytes;
  - `le_value` — reading machine words in either byte order;
  - `text`, `hex_text` — decimal numerals, character helpers, hex text;
  - `formatter` — laying disassembled lines out as text;
  - `rad` — the register table that RAD statements read and write;
  - `config` — the machine description and the rules for its raw entries;
  - `disasm` — decoding instructions and walking a whole program;
  - `emulator` — emulator state, breakpoints/watchpoints, the program
    counter walk, and building an emulator from a description.
- `app/` holds the Python bindings (pyo3), file reading and JSON
  deserialization (serde); it runs the Python callbacks between the
  library's decisions.
- `tests/` exercises the library on concrete values.
