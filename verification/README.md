# rcore_os

Kernel logic of a small RISC-V teaching operating system, written in Verus
and proved against its contracts.

- `src/deadlock.rs`: the deadlock detector. `DeadlockDetectorInner` keeps the
  free units of each resource and, per thread, the units held and waited for.
  Its view `DetectorView` and the spec functions `after_request`,
  `after_release`, `after_create`, `after_join` and `after_exit` say what each
  operation does; the laws at the end of the file relate them.
- `src/banker.rs`: what a safe state is (some order lets every thread finish)
  and the lemmas on column sums behind the detector's proofs; the detector's
  safety check, a greedy simulation, is proved to decide exactly this.
- `src/matrix.rs`: small operations on matrices stored as vectors of rows.
- `src/syscall.rs`: the decisions of the process system calls (`sys_trace`,
  `sys_mmap`, `sys_munmap`, `sys_sbrk`, `sys_get_time`, `sys_yield`). The work
  on page tables, tasks and user memory stays with the kernel, which hands
  these functions what it found and carries out what they decide.
- `src/vfs.rs`: the directory logic of the file system's inode layer: lookup,
  listing, creating, hard links and unlinking on a directory's entries.

`tests/` exercises each module on concrete values.
