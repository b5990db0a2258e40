# osirs

Verified pieces of a small x86_64 hobby kernel and of a `wc` command line tool.

- `src/` is the library, checked with Verus:
  - `vga`: the text-mode screen (a writer that wraps and scrolls, cursor registers);
  - `linear_vga`, `colors`: a cell-by-cell console and colour demos on the same screen;
  - `clock`: a wall clock that is set by typing `HHMMSS` and then follows the timer;
  - `snake`: the snake game;
  - `interrupts`: interrupt vectors and what a typed key does;
  - `memory`: the frame allocator over the boot memory map;
  - `bus`: a 128-byte heap that keeps its allocation bitmap in its first bytes;
  - `wc`, `text`: counting, option parsing and output formatting of `wc`.
- `app/` holds what runs on the machine: port and memory-mapped I/O, interrupt handlers,
  locks and statics, page-table setup, and the `wc` program's file and terminal I/O.
- `tests/` exercises the library.
