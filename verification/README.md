# Emulated process memory and Windows API handlers, verified with Verus

`src/` is the verified library:

- `emu32::maps` — the named memory regions of an emulated 32-bit process: creating
  and looking up regions, reading and writing bytes, words and double words
  (little-endian), C strings and wide strings, byte-by-byte copies, dumps, searches
  for byte patterns and strings, space-separated hexadecimal input, and finding a
  free address. `emu32::maps::mem32` is one region; `emu32::maps::hex` reads
  hexadecimal bytes; `emu32::maps::laws` states what holds across operations.
- `emu32::console` — the debugger console type.
- `emu::maps` — the same memory model for a 64-bit process, with quad words.
- `emu::winapi64::kernel32` — which kernel32 function an address belongs to, and
  the handlers: `LoadLibraryA`, `GetProcAddress` (a walk over the loader's module
  list and the PE export tables), the process snapshot calls, `lstrcmpi` and more.
- `strings` — appending characters and Latin-1 lower-casing.

Each function's contract is stated over the views in `MapsView` (the regions, their
bases and bytes); the spec functions beside each module say what reads, writes,
searches and walks give.

`app/` holds what prints, reads the terminal, writes files, and keeps the
process-wide handle table. `tests/` exercises the library on concrete memory layouts.
