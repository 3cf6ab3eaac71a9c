# kernel

A small kernel core written in Verus: every operation carries a contract over a
mathematical model of its data, and Verus proves the code against it.

## Layout

- `src/` — the verified library. Memory (`frame`, `buddy`, `vm`, `kmem`,
  `slab`), processes and scheduling (`process`, `task`, `procinit`, `pgroup`,
  `waitq`, `futex`, `sync`), files and devices (`file`, `fdtable`, `mount`,
  `mountcache`, `blockcache`, `pagecache`, `disk`, `tty`), messaging (`chan`,
  `ipc`, `net`, `ioqueue`), the system-call layer (`kernel`, `syscall`,
  `sysno`) and small word-level helpers (`bits`, `codec`, `ordkeys`).
  Properties that span several calls stand as public proof functions named
  `law_*` beside the functions they speak of.
- `tests/` — ordinary Rust tests that run the compiled library on concrete
  values.
- `app/` — the parts that need threads, a spin lock, sleeping or caller
  callbacks; they hold the library's types and call its verified functions.

## Checking

Verification runs Verus on `src/lib.rs`; the tests run with `cargo test`.
