use kernel::kernel::Kernel;
use kernel::sysno::{SYS_CLOSE, SYS_DUP, SYS_FORK, SYS_GETPID, SYS_PIPE, SYS_READ, SYS_WRITE};

#[test]
fn fork_gives_child_next_id() {
    let mut k = Kernel::new(16);
    let rid = k.proc_init();
    assert_eq!(k.do_fork(rid), Ok(rid + 1));
    assert_eq!(k.do_fork(99), Err("esrch"));
    let child = k.tasks.find(rid + 1).unwrap();
    assert_eq!(child.parent, Some(rid));
}

#[test]
fn wait_reaps_exited_child() {
    let mut k = Kernel::new(16);
    let rid = k.proc_init();
    let c = k.do_fork(rid).unwrap();
    assert_eq!(k.do_wait(rid, -1, 1), Ok((0, 0)));
    assert_eq!(k.do_wait(rid, -1, 0), Err("echild"));
    k.tasks.exit_task(&mut k.store, c, 7);
    assert_eq!(k.do_wait(rid, c as isize, 0), Ok((c, 7)));
    assert!(k.tasks.find(c).is_none());
    assert_eq!(k.do_wait(rid, -1, 0), Err("echild"));
    assert_eq!(k.do_wait(12345, -1, 0), Err("esrch"));
}

#[test]
fn pipe_gets_lowest_free_descriptors() {
    let mut k = Kernel::new(16);
    let rid = k.proc_init();
    assert_eq!(k.do_pipe(rid), Ok((0, 1)));
    assert_eq!(k.do_pipe(rid), Ok((2, 3)));
    assert_eq!(k.do_pipe(77), Err("esrch"));
}

#[test]
fn exec_runs_program_with_fresh_context() {
    let mut k = Kernel::new(16);
    let rid = k.proc_init();
    let args = vec![b"prog".to_vec()];
    assert_eq!(k.do_exec(rid, b"/bin/prog", args, Vec::new()), Ok(()));
    let t = k.tasks.find(rid).unwrap();
    assert_eq!(t.exec_path, b"/bin/prog".to_vec());
    let ctx = t.thd_ctx.as_ref().unwrap();
    assert_eq!(ctx.uctx.ip, 0x40_0000);
    assert_eq!(k.do_exec(5000, b"/x", Vec::new(), Vec::new()), Err("esrch"));
}

#[test]
fn page_allocation_round_trip() {
    let mut k = Kernel::new(8);
    assert_eq!(k.memory_pressure(), 0);
    let pages = k.alloc_pages(3);
    assert_eq!(pages, vec![0x8000_0000, 0x8000_1000, 0x8000_2000]);
    assert_eq!(k.memory_pressure(), 37);
    k.free_pages(&pages);
    assert_eq!(k.memory_pressure(), 0);
    let all = k.alloc_pages(20);
    assert_eq!(all.len(), 8);
    assert_eq!(k.memory_pressure(), 100);
}

#[test]
fn empty_pool_reports_full_pressure() {
    let k = Kernel::new(0);
    assert_eq!(k.memory_pressure(), 100);
}

#[test]
fn lookup_path_goes_through_mounts() {
    let mut k = Kernel::new(4);
    assert_eq!(k.lookup_path(b""), Err("enoent"));
    assert_eq!(k.lookup_path(b"//etc"), Ok(b"/etc".to_vec()));
    k.mnt.bind(b"/proc", b"procfs");
    assert_eq!(k.lookup_path(b"/proc/1"), Ok(b"procfs:/1".to_vec()));
}

#[test]
fn clocks_advance_with_ticks() {
    let mut k = Kernel::new(4);
    k.schedule_tick(0);
    k.schedule_tick(3);
    assert_eq!(k.clocks.clk, 1);
    assert_eq!(k.clocks.clk_all, 2);
    assert_eq!(k.cache_stats(), (0, 0));
    k.tick(1);
    assert!(!k.gkl.held());
}

#[test]
fn shared_memory_and_semaphores_by_key() {
    let mut k = Kernel::new(4);
    assert_eq!(k.get_shm(9, 3), 9);
    assert_eq!(k.get_shm(9, 5), 9);
    assert_eq!(k.get_sem(4, 2, 0), Ok(4));
    assert_eq!(k.get_sem(4, 2, 0), Ok(4));
}

#[test]
fn reclaim_with_no_zombies() {
    let mut k = Kernel::new(4);
    let _ = k.proc_init();
    assert_eq!(k.reclaim_zombies(), 0);
    assert!(k.balance_load() < 8);
}

#[test]
fn syscalls_on_a_pipe() {
    let mut k = Kernel::new(16);
    let rid = k.proc_init();
    k.set_cur(0, Some(rid));
    assert_eq!(k.dispatch_syscall(SYS_GETPID, 0, 0, 0, 0, 0, 0), Ok(rid));
    // The two descriptors come back packed: read end low, write end high.
    assert_eq!(k.dispatch_syscall(SYS_PIPE, 0x1000, 0, 0, 0, 0, 0), Ok(1 << 32));
    assert_eq!(k.dispatch_syscall(SYS_PIPE, 0, 0, 0, 0, 0, 0), Err("efault"));
    // dup only names the lowest free descriptor; it opens nothing.
    assert_eq!(k.dispatch_syscall(SYS_DUP, 0, 0, 0, 0, 0, 0), Ok(2));
    assert_eq!(k.dispatch_syscall(SYS_DUP, 0, 0, 0, 0, 0, 0), Ok(2));
    assert_eq!(k.dispatch_syscall(SYS_DUP, 3, 0, 0, 0, 0, 0), Ok(3));
    assert_eq!(k.dispatch_syscall(SYS_DUP, 2000, 0, 0, 0, 0, 0), Err("ebadf"));
    assert_eq!(k.dispatch_syscall(SYS_CLOSE, 2, 0, 0, 0, 0, 0), Ok(0));
    assert_eq!(k.dispatch_syscall(SYS_CLOSE, 2000, 0, 0, 0, 0, 0), Err("ebadf"));
    assert_eq!(k.dispatch_syscall(SYS_WRITE, 1, 0, 5, 0, 0, 0), Err("efault"));
    assert_eq!(k.dispatch_syscall(SYS_READ, 0, 0x1000, 0, 0, 0, 0), Ok(0));
}

#[test]
fn fork_syscall_checks_memory() {
    let mut small = Kernel::new(16);
    let rid = small.proc_init();
    small.set_cur(0, Some(rid));
    assert_eq!(small.dispatch_syscall(SYS_FORK, 0, 0, 0, 0, 0, 0), Err("enomem"));
    let mut big = Kernel::new(65536);
    let rid = big.proc_init();
    big.set_cur(0, Some(rid));
    assert_eq!(big.dispatch_syscall(SYS_FORK, 0, 0, 0, 0, 0, 0), Ok(rid + 1));
}

#[test]
fn run_slice_reports_exit() {
    let mut k = Kernel::new(16);
    let rid = k.proc_init();
    let c = k.do_fork(rid).unwrap();
    assert_eq!(k.run_slice(c), Some(false));
    k.tasks.exit_task(&mut k.store, c, 0);
    assert_eq!(k.run_slice(c), Some(true));
    assert_eq!(k.run_slice(999), None);
}

#[test]
fn task_futex_queues_by_address() {
    let mut t = kernel::task::Task::make(7, b"t");
    assert_eq!(t.get_futex(0x40), 0x40);
    t.futexes.get_mut(&0x40).unwrap().wait(0x40, 1, 1, 9).unwrap();
    assert_eq!(t.get_futex(0x40), 0x40);
    assert_eq!(t.futexes[&0x40].pending_at(0x40), 1);
    assert_eq!(t.get_futex(0x80), 0x80);
    assert_eq!(t.futexes.len(), 2);
}

#[test]
fn shared_memory_found_by_address() {
    let mut s = kernel::task::ShmCtx::new();
    let a = s.add(10);
    let b = s.add(11);
    assert_eq!((a, b), (0, 1));
    assert_eq!(s.get_id_by_addr(0), Some(0));
    let mut tag = s.get(b).unwrap();
    tag.set_addr(0x5000);
    s.set(b, tag);
    assert_eq!(s.get_id_by_addr(0x5000), Some(1));
    s.pop(a);
    assert_eq!(s.get_id_by_addr(0), None);
}
