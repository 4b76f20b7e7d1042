# elfloader

Loads an unmodified Linux ELF executable, side-loads its dynamic linker, and
prepares the pair to run in a unikernel. The library is written in Verus: what
each function does is stated in its contract and proved.

* `src/` is the library. `elf` parses and validates headers, `layout` turns them
  into a plan of mappings, `loader` carries a plan out against an address space,
  `program` puts a program and its interpreter together, `auxv` lays out the
  initial stack, and `app` and `binfmt` decide how a program is started. `space`
  holds what follows for memory: that an image's range is never free while it is
  being loaded, what each of its bytes is and how it is protected, and that a
  failed load leaves nothing behind.
* `app/` is the Unikraft side: the entry points that C calls, and the traits of
  the library on top of the kernel.
* `tests/` runs the library against a model address space that places mappings
  first-fit, the way Unikraft does.

The address space (`Vm`), image files (`ImageSource`), the file system (`Opener`)
and the stack (`StackWriter`) are traits. Nothing is promised of how a call
through one of them comes out. Each keeps a record of what was asked of it, and
contracts say over these records which calls, reads, opens and writes are made,
in which order, and what follows from each outcome.
