# os_kernel

Deadlock avoidance with the banker's algorithm, and the decision logic of the
process and synchronisation system calls of a small RISC-V teaching kernel,
verified with Verus.

- `src/id_map.rs`: an ordered map keyed by `usize`, kept as a sorted vector.
- `src/sync/banker.rs`: the banker (resources, per-thread allocation and need,
  the safety check, guarded allocation).
- `src/sync/safety.rs`: what the safety check means (a state is judged safe
  exactly when a safe sequence of threads exists, given no negative
  allocation).
- `src/syscall/sync.rs`: mutex, semaphore and condition variable calls over a
  process's synchronisation state, with the banker when detection is on.
- `src/syscall/process.rs`: `waitpid` over a process's children, `mmap` and
  `munmap` over a model of the page table (valid entries and last-level
  tables), priorities, the time of day.
- `app/lib.rs`: the kernel-side entry points, which read the kernel state,
  call the library and perform the blocking, scheduling and memory work.
