# lemon_core

The verified core of LemonCore, a small RISC-V teaching kernel, written in
Verus: the library's functions carry contracts that Verus proves, and the
calls into `xmas_elf` stand behind a few trusted items.

- `src/easy_fs`: the easy file system on a block device: block caches,
  bitmaps, the on-disk layout of super block, inodes and directory entries,
  the creation of an empty file system, the lookup of names in
  directories, and writing and clearing files (the blocks a file takes come
  from the data bitmap and go back to it).
- `src/mm`: physical memory, the frame allocator, SV39 page tables, address
  spaces (map areas, copies for `fork`, loading of ELF files read with
  `xmas_elf`) and access to user memory (buffers, strings, the argument
  layout of `exec`).
- `src/task`: thread and process control blocks, id allocation, signals, the
  FIFO ready queue, the processor, and creating, forking, replacing (by a
  program read from the file system) and ending processes.
- `src/sync`: spinning and blocking mutexes, semaphores, condition
  variables.
- `src/syscall`: the decisions of the system calls on files, processes,
  threads, synchronization, graphics and input.
- `src/fs`, `src/timer`, `src/trap`: open files, inodes opened by a
  process, path resolution and opening by path, timers, and the handling of
  traps from user space (the step taken for each cause, then the result of
  a system call and the pending error signals).
- `src/drivers`: what the drivers need from the kernel: DMA buffers of
  contiguous frames for virtio, the queues of input events and serial
  bytes waiting to be read, and the SD card's command frames, the decisions
  of its initialisation (a step function the driver runs against the card)
  and the decoding of its registers.
- `src/apps`: the argument parsing of the `sleep` application and what `ls`
  prints for a target.

The machine is passed explicitly: physical memory is a `PhysMem`, the
processes are a map from pid to control block, and the processor and the
ready queue are values the caller owns. The device registers, the boot code
and the assembly of context switches are not part of the library.

`app/` holds the command-line tool that writes an easy-fs image holding
the root directory alone.
