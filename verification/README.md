# rcore_os

Verified kernel logic of a small teaching operating system (RISC-V, rCore
lineage), written in Verus.

- `src/deadlock.rs`: deadlock avoidance with the banker's algorithm. The
  safety check's answer is stated on every state as the outcome of its
  pass-by-pass search; it is proved sound (a `true` answer comes with a safe
  sequence) and, when no thread holds a negative amount, complete.
- `src/task/`: task control blocks and the stride scheduler's ready queue.
- `src/fs/`: the root directory (entries, link counts, file contents), open
  flags, open files and file status.
- `src/mm.rs`: the page table of an address space, and user buffers.
- `src/syscall/`: the decision logic of the file and process system calls.
- `app/`: the kernel-wide singletons (detector, ready queue) and the
  `bitflags` forms of the flag types.
- `tests/`: scenario tests of all of the above.
