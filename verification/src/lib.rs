//! The execution core of a small teaching kernel: address spaces, execution
//! contexts, the process and thread tables, the scheduler with its trap
//! dispatcher, and the blocking synchronisation primitives.
//!
//! Everything here works on plain values (page numbers, register files,
//! thread identities), so that each rule of the kernel is stated as a contract
//! and proved.  The code that touches hardware lives outside this crate and
//! asks it what to do.
//!
//! The modules, from the ground up:
//!
//! - `address`, `flags`, `frame`, `space`, `layout`, `usermem`: pages, their
//!   flags, the frames of physical memory, address spaces and what a program
//!   can reach in them.
//! - `context`, `trap`, `syscall`: saved registers, causes of traps and the
//!   numbers of system calls.
//! - `sync`, `processor`, `relation`, `process`, `kernel`, `io`, `signal`,
//!   `dispatch`: threads and processes, what they wait for, and what each
//!   system call and each trap does to them.
//! - `batch`, `task`: the simpler kernels that run one program after the
//!   other, or tasks in turns.
//! - `heap`, `user`, `graphics`, `snake`, `tetris`, `pong`: what programs
//!   in user mode decide.

pub mod address;
pub mod batch;
pub mod context;
pub mod dispatch;
pub mod flags;
pub mod frame;
pub mod graphics;
pub mod heap;
pub mod io;
pub mod kernel;
pub mod layout;
pub mod pong;
pub mod process;
pub mod processor;
pub mod relation;
pub mod signal;
pub mod snake;
pub mod space;
pub mod sync;
pub mod syscall;
pub mod task;
pub mod tetris;
pub mod trap;
pub mod user;
pub mod usermem;
