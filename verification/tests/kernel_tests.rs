use kernel::chan::CircBuf;
use kernel::kernel::Kernel;
use kernel::pagecache::PageCache;
use kernel::rlimit::ResourceLimits;
use kernel::sync::KernLock;
use kernel::sysno::{
    SYS_CLOCK_GETTIME, SYS_GETPID, SYS_GETPPID, SYS_MUNMAP, SYS_SIGACTION,
};

#[test]
fn ring_gives_back_bytes_in_order() {
    let mut b = CircBuf::new(4);
    assert!(b.empty());
    assert!(b.push(1));
    assert!(b.push(2));
    assert_eq!(b.len(), 2);
    assert_eq!(b.pop(), Some(1));
    assert_eq!(b.pop(), Some(2));
    assert_eq!(b.pop(), None);
}

#[test]
fn ring_refuses_when_full() {
    let mut b = CircBuf::new(2);
    assert!(b.push(7));
    assert!(b.push(8));
    assert!(b.full());
    assert!(!b.push(9));
    assert_eq!(b.len(), 2);
}

#[test]
fn limits_read_back_what_was_set() {
    let mut l = ResourceLimits::default_limits();
    assert_eq!(l.get_limit(7), Ok(1024));
    assert_eq!(l.set_limit(7, 16), Ok(()));
    assert_eq!(l.get_limit(7), Ok(16));
    assert_eq!(l.get_limit(3), Ok(l.max_stack_size));
    assert!(l.check_fd(15));
    assert!(!l.check_fd(16));
}

#[test]
fn limits_refuse_unknown_resource() {
    let mut l = ResourceLimits::default_limits();
    assert_eq!(l.set_limit(5, 1), Err("einval"));
    assert_eq!(l.get_limit(5), Err("einval"));
    assert_eq!(l.max_threads, 256);
}

#[test]
fn limits_are_inherited() {
    let mut l = ResourceLimits::default_limits();
    l.set_limit(0, 30).unwrap();
    let c = l.inherit();
    assert_eq!(c.cpu_time_limit, 30);
    assert_eq!(c.max_fds, l.max_fds);
}

#[test]
fn page_cache_finds_inserted_page() {
    let mut c = PageCache::new(2);
    assert_eq!(c.lookup(5, 1), None);
    c.insert(5, vec![1, 2, 3], 2);
    assert_eq!(c.lookup(5, 3), Some(vec![1, 2, 3]));
    let (hits, misses, evictions) = c.stats();
    assert_eq!((hits, misses, evictions), (1, 1, 0));
}

#[test]
fn page_cache_evicts_least_recent() {
    let mut c = PageCache::new(2);
    c.insert(1, vec![1], 0);
    c.insert(2, vec![2], 0);
    assert_eq!(c.lookup(1, 1), Some(vec![1]));
    c.insert(3, vec![3], 2);
    assert_eq!(c.lookup(2, 3), None);
    assert_eq!(c.lookup(1, 4), Some(vec![1]));
    assert_eq!(c.lookup(3, 5), Some(vec![3]));
}

#[test]
fn big_lock_enter_and_leave() {
    let mut l = KernLock::new();
    l.enter(3);
    assert!(l.held());
    assert_eq!(l.owner(), 3);
    l.enter(3);
    assert_eq!(l.level(), 2);
    assert!(!l.try_enter(4));
    l.leave();
    assert_eq!(l.level(), 1);
    l.leave();
    assert!(!l.held());
    assert_eq!(l.owner(), 0);
}

#[test]
fn syscalls_without_a_task() {
    let mut k = Kernel::new(16);
    assert_eq!(k.dispatch_syscall(SYS_GETPID, 0, 0, 0, 0, 0, 0), Ok(1));
    assert_eq!(k.dispatch_syscall(SYS_GETPPID, 0, 0, 0, 0, 0, 0), Ok(0));
    assert_eq!(k.dispatch_syscall(999, 0, 0, 0, 0, 0, 0), Err("enosys"));
}

#[test]
fn syscall_argument_errors() {
    let mut k = Kernel::new(16);
    assert_eq!(k.dispatch_syscall(SYS_CLOCK_GETTIME, 0, 0, 0, 0, 0, 0), Err("efault"));
    assert_eq!(k.dispatch_syscall(SYS_CLOCK_GETTIME, 7, 0x1000, 0, 0, 0, 0), Err("einval"));
    assert_eq!(k.dispatch_syscall(SYS_CLOCK_GETTIME, 1, 0x1000, 0, 0, 0, 0), Ok(0));
    assert_eq!(k.dispatch_syscall(SYS_SIGACTION, 0, 0, 0, 0, 0, 0), Err("einval"));
    assert_eq!(k.dispatch_syscall(SYS_SIGACTION, 2, 0, 0, 0, 0, 0), Err("einval"));
    assert_eq!(k.dispatch_syscall(SYS_SIGACTION, 9, 0, 0, 0, 0, 0), Ok(0));
    assert_eq!(k.dispatch_syscall(SYS_MUNMAP, 0x1001, 0, 0, 0, 0, 0), Err("einval"));
    assert_eq!(k.dispatch_syscall(SYS_MUNMAP, 0x1000, 0, 0, 0, 0, 0), Ok(0));
}

#[test]
fn root_task_sees_its_pid() {
    let mut k = Kernel::new(16);
    let rid = k.proc_init();
    k.set_cur(0, Some(rid));
    assert_eq!(k.cur_task(0), Some(rid));
    assert_eq!(k.dispatch_syscall(SYS_GETPID, 0, 0, 0, 0, 0, 0), Ok(rid));
    assert_eq!(k.dispatch_syscall(SYS_GETPPID, 0, 0, 0, 0, 0, 0), Ok(0));
    assert!(k.handle_pgfault(0x1000));
}

#[test]
fn terminal_turns_return_into_newline() {
    let mut k = Kernel::new(4);
    assert_eq!(k.tty_pop(), None);
    k.tty_push(b'a');
    k.tty_push(13);
    assert_eq!(k.tty_pop(), Some(b'a'));
    assert_eq!(k.tty_pop(), Some(10));
    assert_eq!(k.tty_pop(), None);
}
