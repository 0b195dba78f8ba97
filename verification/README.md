# cs110l

Verified building blocks of five small systems programs, written in Verus.

- `src/` is the verified library:
  - `linked_list`: a boxed singly linked stack with clone, equality and rendering;
  - `text`: character-level string equality and `from_str_radix`-style parsing;
  - `random`: a generator seeded by the operating system and a draw below a
    bound, both from `rand`;
  - `debugger_command`: a debugger's command parser and the lookups between
    addresses and source lines and functions;
  - `inferior`: word alignment, the byte write that plants a breakpoint, the breakpoint
    table and the decisions taken when a traced process is resumed;
  - `http_message`: framing HTTP messages on bytes and extending
    `x-forwarded-for`;
  - `load_balancer`: the upstream pool, per-client rate limiting and the
    proxy's answer at each turn of a connection;
  - `hangman`: the rules of the game;
  - `word_count`: line, word and byte counting.
- `tests/` exercises the library on concrete inputs.
- `app/` holds the programs' I/O: processes and ptrace, sockets, files and
  the terminal.
