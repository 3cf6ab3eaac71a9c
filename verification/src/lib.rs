//! A small kernel core: frame and buddy allocation, address spaces,
//! capabilities and signals, scheduling, I/O queues, caches and the
//! process table, each stated against a mathematical model.
use vstd::prelude::*;

pub mod consts;
pub mod bits;
pub mod sync;
pub mod frame;
pub mod buddy;
pub mod vm;
pub mod process;
pub mod elf;
pub mod blockcache;
pub mod mount;
pub mod mountcache;
pub mod kmem;
pub mod chan;
pub mod file;
pub mod context;
pub mod fdtable;
pub mod procinit;
pub mod task;
pub mod ioqueue;
pub mod net;
pub mod codec;
pub mod balance;
pub mod pagecache;
pub mod kobj;
pub mod disk;
pub mod ipc;
pub mod futex;
pub mod slab;
pub mod clock;
pub mod tty;
pub mod pgroup;
pub mod waitq;
pub mod rlimit;
pub mod sysno;
pub mod kernel;
pub mod syscall;
pub mod scan;
pub mod ordkeys;
