//! Loads an unmodified Linux ELF executable, and its dynamic linker, into a
//! unikernel and prepares it to run.
//!
//! | module    | what it does                                         |
//! |-----------|------------------------------------------------------|
//! | `elf`     | bounds-checked ELF64 header parsing                  |
//! | `layout`  | turns headers into a concrete plan of mappings       |
//! | `loader`  | executes a plan against a `Vm`                       |
//! | `program` | loads a program together with its interpreter        |
//! | `auxv`    | builds the initial stack (argv/envp/auxv)            |
//! | `app`     | decides how the first program is started             |
//! | `binfmt`  | decides how a program is loaded for `execve`         |
//! | `sys`     | what is asked of the kernel, and what it answers     |
//! | `log`     | puts log messages together                           |
//! | `rt`      | puts the message of a crash together                 |
//! | `util`    | paths and search paths                               |
//! | `trace`   | the record of calls that contracts are stated over   |
//! | `space`   | what those calls make of memory, and what follows    |
//! | `err`     | errno values                                         |
//! | `num`     | rounding and byte order                              |
//!
//! Parsing an image, planning where it goes, copying it, laying out its stack
//! and copying its argument strings ask for their memory first, and `ENOMEM` is
//! the answer when there is none. A contract then speaks of whether there was
//! room; beside the function that asks stands one that is handed the storage,
//! and says exactly what comes of it. Short lists that are put together on the
//! way to a start, such as the paths to try, are not asked for.

pub mod app;
pub mod auxv;
pub mod binfmt;
pub mod elf;
pub mod err;
pub mod layout;
pub mod loader;
pub mod log;
pub mod num;
pub mod program;
pub mod rt;
pub mod space;
pub mod sys;
pub mod trace;
pub mod util;
