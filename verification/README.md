# r9xrsrt

A minimal Rust runtime for Windows 9x targets, with its logic verified by Verus.

- `src/` is the verified library: 64-by-64-bit unsigned division and remainder
  built from 64-by-32-bit divisions that are themselves done bit by bit with
  shifts and subtractions, so no 64-bit division is compiled (`aull`); the
  byte copy, move and fill routines over a region of memory (`mem`); the walk
  over the static initializers, which allocates nothing (`static_init`); and
  the decisions of the entry points (`entry`).
- `app/` exports the symbols the linker and the loader look for
  (`mainCRTStartup`, `DllMainCRTStartup`, `memcpy`, `memmove`, `memset`,
  `_aulldiv`, `_aullrem`, `_chkstk`, `_fltused`, the TLS directory) and hands
  the work to the library.
