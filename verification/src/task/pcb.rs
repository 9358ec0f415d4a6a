//! Process control blocks.

use vstd::prelude::*;
use std::collections::BTreeMap;
use crate::fs::FileHandle;
use crate::mm::address::{PhysMem, VirtAddr, PAGE_SIZE};
use crate::mm::frame_allocator::StackFrameAllocator;
use crate::mm::memory_set::{framed_pages, newly_allocated, trampoline_vpn, MapType, MemorySet};
use crate::sync::condvar::Condvar;
use crate::sync::mutex::AnyMutex;
use crate::sync::semaphore::Semaphore;
use super::id::RecycleAllocator;
use super::signal::SignalFlags;
use super::manager::Manager;
use super::tcb::{
    trap_cx_vpn, user_res_fit, ustack_bottom, ustack_end_vpn, TaskControlBlock, TaskControlBlockInner, TaskRef,
    TaskUserRes, USER_STACK_SIZE,
};
use crate::mm::{
    arg_addr, args_span, argv_base, byte_at, holds_str, holds_u64, injective_on, lemma_args_span_mono, phys_of,
    push_args, readable, touches_page,
};
use crate::trap::{app_init_context, cx_word, exec_cx_word, exec_init_context, init_cx_word, CX_WORDS};

verus! {

broadcast use vstd::std_specs::btree::group_btree_axioms;


/// What a thread's trap context holds for the way back into the kernel:
/// the `sstatus` value to return to user mode with, the kernel's `satp`,
/// the thread's kernel stack top and the address of the trap handler
#[derive(Clone, Copy, Debug, PartialEq, Eq, Structural)]
pub struct KernelEntry {
    pub sstatus: usize,
    pub satp: usize,
    pub kernel_sp: usize,
    pub trap_handler: usize,
}

/// Whether process `parent` can be forked: it has one thread, which has its
/// resources and whose trap context page lies in a framed area; its address space
/// is well formed, its frames are handed out by `allocator`, which can hand
/// out a page table root and a frame for each framed page, and no area
/// covers the trampoline; `pids` has handed out every registered pid and can
/// hand out one more.
pub open spec fn fork_ok(
    processes: Map<usize, ProcessControlBlock>,
    parent: usize,
    pids: RecycleAllocator,
    allocator: StackFrameAllocator,
    mem: PhysMem,
    strampoline: usize,
) -> bool {
    let ms = processes[parent].inner.memory_set;
    &&& processes.contains_key(parent)
    &&& processes[parent].inner.tasks@.len() == 1
    &&& processes[parent].inner.tasks@[0] is Some
    &&& processes[parent].inner.tasks@[0]->0.inner.res is Some
    &&& pids.wf()
    &&& pids.current() < usize::MAX
    &&& forall|p: usize| #[trigger] processes.contains_key(p) ==> pids.in_use(p as int)
    &&& ms.wf()
    &&& ms.frames_allocated(allocator)
    &&& allocator.wf()
    &&& mem.wf()
    &&& allocator.end() <= mem.npages()
    &&& allocator.available() >= 1 + framed_pages(ms.areas())
    &&& strampoline % PAGE_SIZE == 0
    &&& forall|i: int, v: int| 0 <= i < ms.areas().len() && #[trigger] ms.areas()[i].has_vpn(v)
        ==> v != trampoline_vpn() && ms.areas()[i].linear_ok(v)
    &&& exists|i: int|
        0 <= i < ms.areas().len() && #[trigger] ms.areas()[i].has_vpn(trap_cx_vpn(0)) && ms.areas()[i].map_type
            == MapType::Framed
}

/// Whether process `pid` can take the address space `memory_set`, with its
/// user stack based at `ustack_base`, and the arguments `args`: the process
/// has one thread, which has its resources; the thread's user stack and trap
/// context page can be mapped in `memory_set` (see [`user_res_fit`]), whose
/// frames `allocator` handed out and which can hand out the frames of both;
/// physical page numbers fit an address; and the arguments fit the user
/// stack.
pub open spec fn exec_ok(
    processes: Map<usize, ProcessControlBlock>,
    pid: usize,
    memory_set: MemorySet,
    ustack_base: usize,
    args: Seq<Vec<u8>>,
    allocator: StackFrameAllocator,
    mem: PhysMem,
) -> bool {
    let res = TaskUserRes { tid: processes[pid].inner.tasks@[0]->0.inner.res->0.tid, ustack_base };
    &&& processes.contains_key(pid)
    &&& processes[pid].inner.tasks@.len() == 1
    &&& processes[pid].inner.tasks@[0] is Some
    &&& processes[pid].inner.tasks@[0]->0.inner.res is Some
    &&& user_res_fit(res, memory_set)
    &&& memory_set.wf()
    &&& memory_set.frames_allocated(allocator)
    &&& allocator.wf()
    &&& mem.wf()
    &&& allocator.end() <= mem.npages()
    &&& mem.npages() <= usize::MAX / PAGE_SIZE
    &&& allocator.available() >= ustack_end_vpn(res) - ustack_bottom(res) / PAGE_SIZE as int + 1
    &&& (args.len() + 1) * 8 + args_span(args, args.len() as int) <= USER_STACK_SIZE
}

/// Whether a process can be made of the address space `memory_set`, with
/// its user stack based at `ustack_base`: the main thread's user stack and
/// trap context page can be mapped in it (see [`user_res_fit`]), whose
/// frames `allocator` handed out and which can hand out the frames of both,
/// and `pids` has handed out every registered pid and can hand out one more.
pub open spec fn new_ok(
    processes: Map<usize, ProcessControlBlock>,
    pids: RecycleAllocator,
    memory_set: MemorySet,
    ustack_base: usize,
    allocator: StackFrameAllocator,
    mem: PhysMem,
) -> bool {
    let res = TaskUserRes { tid: 0, ustack_base };
    &&& pids.wf()
    &&& pids.current() < usize::MAX
    &&& forall|p: usize| #[trigger] processes.contains_key(p) ==> pids.in_use(p as int)
    &&& user_res_fit(res, memory_set)
    &&& memory_set.wf()
    &&& memory_set.frames_allocated(allocator)
    &&& allocator.wf()
    &&& mem.wf()
    &&& allocator.end() <= mem.npages()
    &&& allocator.available() >= ustack_end_vpn(res) - ustack_bottom(res) / PAGE_SIZE as int + 1
}

/// A copy of a file table
fn copy_fd_table(table: &Vec<Option<FileHandle>>) -> (r: Vec<Option<FileHandle>>)
    ensures
        r@ == table@,
{
    let mut r: Vec<Option<FileHandle>> = Vec::new();
    let mut i: usize = 0;
    while i < table.len()
        invariant
            i <= table@.len(),
            r@ == table@.take(i as int),
        decreases table@.len() - i,
    {
        r.push(table[i]);
        i = i + 1;
        assert(r@ =~= table@.take(i as int));
    }
    assert(table@.take(i as int) =~= table@);
    r
}

/// The index of the first empty slot of `v`, if any
pub fn position_none<T>(v: &Vec<Option<T>>) -> (r: Option<usize>)
    ensures
        match r {
            Some(i) => {
                &&& i < v@.len()
                &&& v@[i as int] is None
                &&& forall|j: int| 0 <= j < i ==> #[trigger] v@[j] is Some
            },
            None => forall|j: int| 0 <= j < v@.len() ==> #[trigger] v@[j] is Some,
        },
{
    let mut i: usize = 0;
    while i < v.len()
        invariant
            i <= v@.len(),
            forall|j: int| 0 <= j < i ==> #[trigger] v@[j] is Some,
        decreases v@.len() - i,
    {
        if v[i].is_none() {
            return Some(i);
        }
        i = i + 1;
    }
    None
}

/// The mutable part of a process control block
pub struct ProcessControlBlockInner {
    pub is_zombie: bool,
    pub memory_set: MemorySet,
    pub parent: Option<usize>,
    pub children: Vec<usize>,
    pub exit_code: i32,
    pub cwd: String,
    pub fd_table: Vec<Option<FileHandle>>,
    pub signals: SignalFlags,
    pub tasks: Vec<Option<TaskControlBlock>>,
    pub task_res_allocator: RecycleAllocator,
    pub mutex_list: Vec<Option<AnyMutex>>,
    pub semaphore_list: Vec<Option<Semaphore>>,
    pub condvar_list: Vec<Option<Condvar>>,
}

impl ProcessControlBlockInner {
    /// A fresh thread id
    pub fn alloc_tid(&mut self) -> (tid: usize)
        requires
            old(self).task_res_allocator.wf(),
            old(self).task_res_allocator.current() < usize::MAX,
        ensures
            final(self).task_res_allocator.wf(),
            !old(self).task_res_allocator.in_use(tid as int),
            final(self).task_res_allocator.in_use(tid as int),
            forall|q: int| q != tid ==> #[trigger] final(self).task_res_allocator.in_use(q)
                == old(self).task_res_allocator.in_use(q),
            final(self).task_res_allocator.current() <= old(self).task_res_allocator.current() + 1,
            tid == old(self).task_res_allocator.next_id(),
            *final(self) == (ProcessControlBlockInner { task_res_allocator: final(self).task_res_allocator, ..*old(self) }),
            final(self).tasks@ == old(self).tasks@,
            final(self).fd_table@ == old(self).fd_table@,
    {
        self.task_res_allocator.alloc_id()
    }

    /// Give back thread id `tid`
    pub fn dealloc_tid(&mut self, tid: usize)
        requires
            old(self).task_res_allocator.wf(),
            old(self).task_res_allocator.in_use(tid as int),
        ensures
            final(self).task_res_allocator.wf(),
            !final(self).task_res_allocator.in_use(tid as int),
            forall|q: int| q != tid ==> #[trigger] final(self).task_res_allocator.in_use(q)
                == old(self).task_res_allocator.in_use(q),
            final(self).tasks@ == old(self).tasks@,
            final(self).fd_table@ == old(self).fd_table@,
    {
        self.task_res_allocator.dealloc(tid);
    }

    /// The lowest free file descriptor, adding an empty slot when every
    /// descriptor is taken
    pub fn alloc_fd(&mut self) -> (fd: usize)
        requires
            old(self).fd_table@.len() < usize::MAX,
        ensures
            fd <= old(self).fd_table@.len(),
            forall|j: int| 0 <= j < fd ==> #[trigger] old(self).fd_table@[j] is Some,
            fd < old(self).fd_table@.len() ==> old(self).fd_table@[fd as int] is None
                && final(self).fd_table@ == old(self).fd_table@,
            fd == old(self).fd_table@.len() ==> final(self).fd_table@ == old(self).fd_table@.push(None),
            final(self).tasks@ == old(self).tasks@,
            final(self).cwd@ == old(self).cwd@,
            final(self).memory_set == old(self).memory_set,
    {
        match position_none(&self.fd_table) {
            Some(idx) => idx,
            None => {
                self.fd_table.push(None);
                self.fd_table.len() - 1
            },
        }
    }

    /// Number of thread slots
    pub fn thread_count(&self) -> (n: usize)
        ensures
            n == self.tasks@.len(),
    {
        self.tasks.len()
    }

    /// The thread `tid`, which must exist
    pub fn task(&self, tid: usize) -> (t: TaskControlBlock)
        requires
            tid < self.tasks@.len(),
            self.tasks@[tid as int] is Some,
        ensures
            Some(t) == self.tasks@[tid as int],
    {
        self.tasks[tid].unwrap()
    }
}

/// A process: its id and its state
pub struct ProcessControlBlock {
    pub pid: usize,
    pub inner: ProcessControlBlockInner,
}

impl ProcessControlBlock {
    /// The state of the process
    pub fn inner_exclusive_access(&self) -> (i: &ProcessControlBlockInner)
        ensures
            *i == self.inner,
    {
        &self.inner
    }

    /// The process id
    pub fn pid(&self) -> (p: usize)
        ensures
            p == self.pid,
    {
        self.pid
    }

    /// A process made of the address space `memory_set`: it gets a fresh
    /// pid from `pids`, returned, the standard input, output and error as
    /// its open files, `/` as its working directory, and a main thread,
    /// queued ready, with thread id 0, kernel stack `kstack`, its user stack
    /// based at `ustack_base` and its trap context page mapped in
    /// `memory_set` (see [`TaskUserRes::alloc_user_res`]). The thread's trap
    /// context is set to start at `entry` on the top of its user stack, with
    /// `kernel`'s values for the way back into the kernel (see
    /// [`init_cx_word`])
    pub fn new(
        processes: &mut BTreeMap<usize, ProcessControlBlock>,
        manager: &mut Manager,
        pids: &mut RecycleAllocator,
        memory_set: MemorySet,
        ustack_base: usize,
        kstack: usize,
        entry: usize,
        kernel: KernelEntry,
        allocator: &mut StackFrameAllocator,
        mem: &mut PhysMem,
    ) -> (pid: usize)
        requires
            new_ok(old(processes)@, *old(pids), memory_set, ustack_base, *old(allocator), *old(mem)),
        ensures
            !old(pids).in_use(pid as int),
            final(pids).in_use(pid as int),
            pid <= old(pids).current(),
            forall|q: int| q != pid ==> #[trigger] final(pids).in_use(q) == old(pids).in_use(q),
            final(pids).wf(),
            !old(processes)@.contains_key(pid),
            final(processes)@ == old(processes)@.insert(pid, final(processes)@[pid]),
            ({
                let p = final(processes)@[pid];
                let ms = p.inner.memory_set;
                let res = TaskUserRes { tid: 0, ustack_base };
                let n = memory_set.areas().len() as int;
                &&& p.pid == pid
                &&& !p.inner.is_zombie
                &&& p.inner.parent == None::<usize>
                &&& p.inner.children@ == Seq::<usize>::empty()
                &&& p.inner.exit_code == 0
                &&& p.inner.cwd@ == seq!['/']
                &&& p.inner.fd_table@ == seq![Some(FileHandle::stdin_spec()), Some(FileHandle::stdout_spec()), Some(FileHandle::stdout_spec())]
                &&& p.inner.signals.value() == 0
                &&& p.inner.task_res_allocator.wf()
                &&& forall|q: int| #[trigger] p.inner.task_res_allocator.in_use(q) <==> q == 0
                &&& p.inner.mutex_list@.len() == 0
                &&& p.inner.semaphore_list@.len() == 0
                &&& p.inner.condvar_list@.len() == 0
                &&& p.inner.tasks@ == seq![Some(TaskControlBlock::new_spec(
                    pid,
                    kstack,
                    res,
                    ms.mappings()[trap_cx_vpn(0) as usize].ppn,
                ))]
                &&& ms.wf()
                &&& ms.frames_allocated(*final(allocator))
                &&& ms.areas() == memory_set.areas().push(ms.areas()[n]).push(ms.areas()[n + 1])
                &&& ms.areas()[n].vpn_range.start.0 == ustack_bottom(res) / PAGE_SIZE as int
                &&& ms.areas()[n].vpn_range.end.0 == ustack_end_vpn(res)
                &&& ms.areas()[n + 1].vpn_range.start.0 == trap_cx_vpn(0)
                &&& ms.areas()[n + 1].vpn_range.end.0 == trap_cx_vpn(0) + 1
                &&& ms.mappings().contains_key(trap_cx_vpn(0) as usize)
                &&& forall|w: int| 0 <= w < CX_WORDS ==> #[trigger] cx_word(
                    final(mem).page(ms.mappings()[trap_cx_vpn(0) as usize].ppn.0 as int),
                    w,
                ) == init_cx_word(w, entry as u64, (ustack_bottom(res) + USER_STACK_SIZE) as u64, kernel.sstatus as u64,
                    kernel.satp as u64, kernel.kernel_sp as u64, kernel.trap_handler as u64)
            }),
            final(manager).queue() == old(manager).queue().push(TaskRef { pid, tid: 0 }),
            forall|q: int| #[trigger] old(allocator).is_allocated(q) ==> final(allocator).is_allocated(q),
            final(allocator).wf(),
            final(allocator).end() == old(allocator).end(),
            final(mem).wf(),
            final(mem).npages() == old(mem).npages(),
            forall|r: int| final(mem).has(r) && !newly_allocated(*old(allocator), *final(allocator), r)
                ==> #[trigger] final(mem).page(r) == old(mem).page(r),
    {
        let mut memory_set = memory_set;
        let pid = pids.alloc_id();
        let mut task_res_allocator = RecycleAllocator::new();
        let tid = task_res_allocator.alloc_id();
        let res = TaskUserRes { tid, ustack_base };
        res.alloc_user_res(&mut memory_set, allocator, mem);
        proof {
            let tc = memory_set.areas()[memory_set.areas().len() - 1];
            assert(tc.has_vpn(trap_cx_vpn(0)));
            assert(memory_set.mappings().contains_key(trap_cx_vpn(0) as usize));
        }
        let trap_va = VirtAddr::from_usize(res.trap_cx_user_va());
        let trap_cx_ppn = memory_set.translate(trap_va.as_vpn_by_floor()).unwrap().ppn;
        let ghost m1 = *mem;
        let ghost a1 = *allocator;
        proof {
            let n = memory_set.areas().len() - 2;
            let tc = memory_set.areas()[n + 1];
            let tv = trap_cx_vpn(0) as usize;
            assert(tc.has_vpn(tv as int));
            assert(memory_set.frames().contains_key(tv));
            memory_set.lemma_frames();
            assert(trap_cx_ppn.0 == memory_set.frames()[tv]);
        }
        let top = res.ustack_top();
        app_init_context(
            mem,
            trap_cx_ppn.0,
            entry as u64,
            top as u64,
            kernel.sstatus as u64,
            kernel.satp as u64,
            kernel.kernel_sp as u64,
            kernel.trap_handler as u64,
        );
        let task = TaskControlBlock::new(pid, kstack, res, trap_cx_ppn);
        let mut tasks: Vec<Option<TaskControlBlock>> = Vec::new();
        tasks.push(Some(task));
        let mut fd_table: Vec<Option<FileHandle>> = Vec::new();
        fd_table.push(Some(FileHandle::stdin()));
        fd_table.push(Some(FileHandle::stdout()));
        fd_table.push(Some(FileHandle::stdout()));
        proof {
            reveal_strlit("/");
        }
        let process = ProcessControlBlock {
            pid,
            inner: ProcessControlBlockInner {
                is_zombie: false,
                memory_set,
                parent: None,
                children: Vec::new(),
                exit_code: 0,
                cwd: "/".to_owned(),
                fd_table,
                signals: SignalFlags::empty(),
                tasks,
                task_res_allocator,
                mutex_list: Vec::new(),
                semaphore_list: Vec::new(),
                condvar_list: Vec::new(),
            },
        };
        crate::task::manager::insert_into_pid2process(processes, pid, process);
        crate::task::manager::add(manager, TaskRef { pid, tid });
        proof {
            assert(process.inner.tasks@ =~= seq![Some(task)]);
            assert(process.inner.fd_table@ =~= seq![Some(FileHandle::stdin_spec()), Some(FileHandle::stdout_spec()), Some(FileHandle::stdout_spec())]);
            assert(process.inner.cwd@ =~= seq!['/']);
            assert forall|r: int| mem.has(r) && !newly_allocated(*old(allocator), *allocator, r)
                implies #[trigger] mem.page(r) == old(mem).page(r) by {
                assert(r != trap_cx_ppn.0);
                assert(m1.page(r) == old(mem).page(r));
            }
        }
        pid
    }

    /// Create a child of process `parent`, which must have one thread: the
    /// child gets a fresh pid from `pids`, returned, a copy of the parent's
    /// address space (see [`MemorySet::duplicate`]), its working directory
    /// and open files, and one thread, queued ready, with thread id 0, the
    /// parent's user stack base, kernel stack `kstack` and the trap context
    /// page that the copy maps
    pub fn fork(
        processes: &mut BTreeMap<usize, ProcessControlBlock>,
        parent: usize,
        pids: &mut RecycleAllocator,
        manager: &mut Manager,
        allocator: &mut StackFrameAllocator,
        mem: &mut PhysMem,
        kstack: usize,
        strampoline: usize,
    ) -> (child: usize)
        requires
            fork_ok(old(processes)@, parent, *old(pids), *old(allocator), *old(mem), strampoline),
        ensures
            !old(pids).in_use(child as int),
            final(pids).in_use(child as int),
            child <= old(pids).current(),
            forall|q: int| q != child ==> #[trigger] final(pids).in_use(q) == old(pids).in_use(q),
            final(pids).wf(),
            !old(processes)@.contains_key(child),
            final(processes)@.dom() == old(processes)@.dom().insert(child),
            forall|p: usize| p != parent && #[trigger] old(processes)@.contains_key(p)
                ==> final(processes)@[p] == old(processes)@[p],
            ({
                let before = old(processes)@[parent];
                let after = final(processes)@[parent];
                &&& after == (ProcessControlBlock {
                    inner: ProcessControlBlockInner { children: after.inner.children, ..before.inner },
                    ..before
                })
                &&& after.inner.children@ == before.inner.children@.push(child)
            }),
            ({
                let p = old(processes)@[parent].inner;
                let c = final(processes)@[child];
                let ms = c.inner.memory_set;
                &&& c.pid == child
                &&& !c.inner.is_zombie
                &&& c.inner.parent == Some(parent)
                &&& c.inner.children@ == Seq::<usize>::empty()
                &&& c.inner.exit_code == 0
                &&& c.inner.cwd@ == p.cwd@
                &&& c.inner.fd_table@ == p.fd_table@
                &&& c.inner.signals.value() == 0
                &&& c.inner.task_res_allocator.wf()
                &&& forall|q: int| #[trigger] c.inner.task_res_allocator.in_use(q) <==> q == 0
                &&& c.inner.mutex_list@.len() == 0
                &&& c.inner.semaphore_list@.len() == 0
                &&& c.inner.condvar_list@.len() == 0
                &&& ms.mappings().contains_key(trap_cx_vpn(0) as usize)
                &&& c.inner.tasks@ == seq![Some(TaskControlBlock::new_spec(
                    child,
                    kstack,
                    TaskUserRes { tid: 0, ustack_base: p.tasks@[0]->0.inner.res->0.ustack_base },
                    ms.mappings()[trap_cx_vpn(0) as usize].ppn,
                ))]
                &&& ms.wf()
                &&& ms.frames_allocated(*final(allocator))
                &&& ms.areas() == p.memory_set.areas()
                &&& forall|i: int| 0 <= i < ms.areas().len() ==> #[trigger] ms.areas()[i].mapped_in(ms.mappings(), ms.frames())
                &&& forall|v: usize| #[trigger] ms.frames().contains_key(v) ==> {
                    &&& p.memory_set.frames().contains_key(v)
                    &&& newly_allocated(*old(allocator), *final(allocator), ms.frames()[v] as int)
                    &&& final(mem).page(ms.frames()[v] as int) == old(mem).page(p.memory_set.frames()[v] as int)
                }
                &&& forall|v: usize, w: usize|
                    #![trigger ms.frames()[v], p.memory_set.frames()[w]]
                    ms.frames().contains_key(v) && p.memory_set.frames().contains_key(w)
                        ==> ms.frames()[v] != p.memory_set.frames()[w]
            }),
            final(manager).queue() == old(manager).queue().push(TaskRef { pid: child, tid: 0 }),
            forall|q: int| #[trigger] old(allocator).is_allocated(q) ==> final(allocator).is_allocated(q),
            final(allocator).wf(),
            final(allocator).end() == old(allocator).end(),
            final(allocator).available() == old(allocator).available() - 1
                - framed_pages(old(processes)@[parent].inner.memory_set.areas()),
            final(mem).wf(),
            final(mem).npages() == old(mem).npages(),
            forall|r: int| final(mem).has(r) && !newly_allocated(*old(allocator), *final(allocator), r)
                ==> #[trigger] final(mem).page(r) == old(mem).page(r),
    {
        let child_pid = pids.alloc_id();
        let mut parent_pcb = processes.remove(&parent).unwrap();
        let ghost before = parent_pcb;
        let memory_set = parent_pcb.inner.memory_set.duplicate(strampoline, allocator, mem);
        let ustack_base = parent_pcb.inner.task(0).inner.res.unwrap().ustack_base;
        let mut task_res_allocator = RecycleAllocator::new();
        let tid = task_res_allocator.alloc_id();
        let res = TaskUserRes { tid, ustack_base };
        let trap_va = VirtAddr::from_usize(res.trap_cx_user_va());
        proof {
            let areas = before.inner.memory_set.areas();
            let i = choose|i: int| 0 <= i < areas.len() && #[trigger] areas[i].has_vpn(trap_cx_vpn(0));
            assert(areas[i].mapped_in(memory_set.mappings(), memory_set.frames()));
            assert(memory_set.mappings().contains_key(trap_cx_vpn(0) as usize));
        }
        let trap_cx_ppn = memory_set.translate(trap_va.as_vpn_by_floor()).unwrap().ppn;
        let task = TaskControlBlock::new(child_pid, kstack, res, trap_cx_ppn);
        let mut tasks: Vec<Option<TaskControlBlock>> = Vec::new();
        tasks.push(Some(task));
        let child = ProcessControlBlock {
            pid: child_pid,
            inner: ProcessControlBlockInner {
                is_zombie: false,
                memory_set,
                parent: Some(parent),
                children: Vec::new(),
                exit_code: 0,
                cwd: parent_pcb.inner.cwd.clone(),
                fd_table: copy_fd_table(&parent_pcb.inner.fd_table),
                signals: SignalFlags::empty(),
                tasks,
                task_res_allocator,
                mutex_list: Vec::new(),
                semaphore_list: Vec::new(),
                condvar_list: Vec::new(),
            },
        };
        parent_pcb.inner.children.push(child_pid);
        processes.insert(parent, parent_pcb);
        processes.insert(child_pid, child);
        crate::task::manager::add(manager, TaskRef { pid: child_pid, tid });
        proof {
            assert(processes@.dom() =~= old(processes)@.dom().insert(child_pid));
            assert(child.inner.tasks@ =~= seq![Some(task)]);
        }
        child_pid
    }

    /// Replace the image of process `pid`, which must have one thread, by
    /// the address space `memory_set`: the thread's user stack, based at
    /// `ustack_base`, and its trap context page are mapped in it (see
    /// [`TaskUserRes::alloc_user_res`]), and the arguments `args` are laid
    /// out on that stack (see [`push_args`]). The thread's trap context is
    /// set to start the new program at `entry` with that stack pointer, the
    /// number of arguments in a0 and the address of their array in a1, and
    /// `kernel`'s values for the way back into the kernel (see
    /// [`exec_cx_word`]). Returns the stack pointer and the address of the
    /// array of arguments.
    pub fn exec(
        processes: &mut BTreeMap<usize, ProcessControlBlock>,
        pid: usize,
        memory_set: MemorySet,
        ustack_base: usize,
        args: &Vec<Vec<u8>>,
        entry: usize,
        kernel: KernelEntry,
        allocator: &mut StackFrameAllocator,
        mem: &mut PhysMem,
    ) -> (r: (usize, usize))
        requires
            exec_ok(old(processes)@, pid, memory_set, ustack_base, args@, *old(allocator), *old(mem)),
        ensures
            final(processes)@.dom() == old(processes)@.dom(),
            forall|p: usize| p != pid && #[trigger] old(processes)@.contains_key(p)
                ==> final(processes)@[p] == old(processes)@[p],
            ({
                let before = old(processes)@[pid];
                let after = final(processes)@[pid];
                let ms = after.inner.memory_set;
                let t0 = before.inner.tasks@[0]->0;
                let res = TaskUserRes { tid: t0.inner.res->0.tid, ustack_base };
                let top = ustack_bottom(res) + USER_STACK_SIZE;
                let n = memory_set.areas().len() as int;
                let argc = args@.len() as int;
                &&& after == (ProcessControlBlock {
                    inner: ProcessControlBlockInner { memory_set: ms, tasks: after.inner.tasks, ..before.inner },
                    ..before
                })
                &&& after.inner.tasks@ == before.inner.tasks@.update(0, Some(TaskControlBlock {
                    inner: TaskControlBlockInner {
                        res: Some(res),
                        trap_cx_ppn: ms.mappings()[trap_cx_vpn(res.tid as int) as usize].ppn,
                        ..t0.inner
                    },
                    ..t0
                }))
                &&& ms.wf()
                &&& ms.frames_allocated(*final(allocator))
                &&& ms.pt().root() == memory_set.pt().root()
                &&& ms.areas() == memory_set.areas().push(ms.areas()[n]).push(ms.areas()[n + 1])
                &&& ms.areas()[n].vpn_range.start.0 == ustack_bottom(res) / PAGE_SIZE as int
                &&& ms.areas()[n].vpn_range.end.0 == ustack_end_vpn(res)
                &&& ms.areas()[n + 1].vpn_range.start.0 == trap_cx_vpn(res.tid as int)
                &&& ms.areas()[n + 1].vpn_range.end.0 == trap_cx_vpn(res.tid as int) + 1
                &&& ms.mappings().contains_key(trap_cx_vpn(res.tid as int) as usize)
                &&& r.1 == argv_base(top, args@)
                &&& r.0 == argv_base(top, args@) - args_span(args@, argc)
                &&& holds_u64(ms.pt(), *final(mem), r.1 + 8 * argc, 0)
                &&& forall|i: int| 0 <= i < argc
                    ==> #[trigger] holds_u64(ms.pt(), *final(mem), r.1 + 8 * i, arg_addr(top, args@, i) as u64)
                &&& forall|i: int| 0 <= i < argc
                    ==> #[trigger] holds_str(ms.pt(), *final(mem), arg_addr(top, args@, i), args@[i]@)
                &&& forall|w: int| 0 <= w < CX_WORDS ==> #[trigger] cx_word(
                    final(mem).page(ms.mappings()[trap_cx_vpn(res.tid as int) as usize].ppn.0 as int),
                    w,
                ) == exec_cx_word(w, entry as u64, r.0 as u64, kernel.sstatus as u64, kernel.satp as u64,
                    kernel.kernel_sp as u64, kernel.trap_handler as u64, argc as u64, r.1 as u64)
            }),
            forall|q: int| #[trigger] old(allocator).is_allocated(q) ==> final(allocator).is_allocated(q),
            final(allocator).wf(),
            final(allocator).end() == old(allocator).end(),
            final(mem).wf(),
            final(mem).npages() == old(mem).npages(),
            forall|p: int| final(mem).has(p) && !newly_allocated(*old(allocator), *final(allocator), p)
                ==> #[trigger] final(mem).page(p) == old(mem).page(p),
    {
        let mut pcb = processes.remove(&pid).unwrap();
        let ghost before = pcb;
        let ghost a0 = *old(allocator);
        let ghost m0 = *old(mem);
        pcb.inner.memory_set = memory_set;
        let mut task = pcb.inner.task(0);
        let mut res = task.inner.res.unwrap();
        res.ustack_base = ustack_base;
        res.alloc_user_res(&mut pcb.inner.memory_set, allocator, mem);
        let ghost a1 = *allocator;
        let ghost m1 = *mem;
        let ghost ms = pcb.inner.memory_set;
        let ghost n = memory_set.areas().len() as int;
        let ghost st = ms.areas()[n];
        proof {
            let tc = ms.areas()[n + 1];
            assert(tc.has_vpn(trap_cx_vpn(res.tid as int)));
            assert(ms.mappings().contains_key(trap_cx_vpn(res.tid as int) as usize));
        }
        let trap_va = VirtAddr::from_usize(res.trap_cx_user_va());
        let trap_cx_ppn = pcb.inner.memory_set.translate(trap_va.as_vpn_by_floor()).unwrap().ppn;
        task.inner.res = Some(res);
        task.inner.trap_cx_ppn = trap_cx_ppn;
        pcb.inner.tasks.set(0, Some(task));
        let top = res.ustack_top();
        let ghost pt = ms.pt();
        let ghost lo = argv_base(top as int, args@) - args_span(args@, args@.len() as int);
        proof {
            let fr = ms.frames();
            ms.lemma_frames();
            assert(top == ustack_bottom(res) + USER_STACK_SIZE);
            // every stack byte lies in a fresh frame of the stack area
            assert forall|x: int| lo <= x < top implies {
                &&& #[trigger] readable(pt, m1, x)
                &&& st.has_vpn(x / PAGE_SIZE as int)
                &&& phys_of(pt, x).0 == fr[(x / PAGE_SIZE as int) as usize]
                &&& newly_allocated(a0, a1, phys_of(pt, x).0 as int)
            } by {
                let v = (x / 4096) as usize;
                assert(ustack_bottom(res) / 4096 <= x / 4096 < ustack_end_vpn(res)) by (nonlinear_arith)
                    requires
                        ustack_bottom(res) <= x < ustack_bottom(res) + 8192,
                ;
                assert(st.has_vpn(v as int));
                assert(pt.mappings().contains_key(v));
                assert(fr.contains_key(v));
            }
            assert forall|x: int, y: int|
                #![trigger phys_of(pt, x), phys_of(pt, y)]
                lo <= x < top && lo <= y < top && x != y implies phys_of(pt, x) != phys_of(pt, y) by {
                assert(readable(pt, m1, x));
                assert(readable(pt, m1, y));
                let vx = (x / 4096) as usize;
                let vy = (y / 4096) as usize;
                assert(fr.contains_key(vx) && fr.contains_key(vy)) by {
                    assert(st.has_vpn(vx as int) && st.has_vpn(vy as int));
                    assert(pt.mappings().contains_key(vx) && pt.mappings().contains_key(vy));
                }
                if vx == vy {
                    assert(x % 4096 != y % 4096) by (nonlinear_arith)
                        requires
                            x / 4096 == y / 4096,
                            x != y,
                    ;
                } else {
                    assert(fr[vx] != fr[vy]);
                }
            }
            assert(injective_on(pt, lo, top as int));
        }
        let r = push_args(pcb.inner.memory_set.page_table(), mem, top, args);
        let ghost m2 = *mem;
        let ghost tv = trap_cx_vpn(res.tid as int) as usize;
        let ghost tc = ms.areas()[n + 1];
        proof {
            assert(tc.has_vpn(tv as int));
            assert(ms.frames().contains_key(tv));
            ms.lemma_frames();
            assert(trap_cx_ppn.0 == ms.frames()[tv]);
            assert(m1.has(trap_cx_ppn.0 as int));
        }
        exec_init_context(
            mem,
            trap_cx_ppn.0,
            entry as u64,
            r.0 as u64,
            kernel.sstatus as u64,
            kernel.satp as u64,
            kernel.kernel_sp as u64,
            kernel.trap_handler as u64,
            args.len() as u64,
            r.1 as u64,
        );
        processes.insert(pid, pcb);
        proof {
            let fr = ms.frames();
            let argc = args@.len() as int;
            assert(processes@.dom() =~= old(processes)@.dom());
            // no stack byte lies in the trap context page
            assert forall|x: int| r.0 <= x < top implies #[trigger] byte_at(pt, *mem, x) == byte_at(pt, m2, x) by {
                let v = (x / 4096) as usize;
                assert(lo == r.0);
                assert(readable(pt, m1, x));
                assert(ustack_bottom(res) / 4096 <= x / 4096 < ustack_end_vpn(res)) by (nonlinear_arith)
                    requires
                        ustack_bottom(res) <= x < ustack_bottom(res) + 8192,
                ;
                assert(st.has_vpn(v as int));
                assert(pt.mappings().contains_key(v));
                assert(fr.contains_key(v));
                assert(v != tv);
                assert(phys_of(pt, x).0 != trap_cx_ppn.0);
                assert(m1.has(phys_of(pt, x).0 as int));
            }
            lemma_args_span_mono(args@, 0, argc);
            assert forall|i: int| 0 <= i < argc implies #[trigger] holds_u64(pt, *mem, r.1 + 8 * i, arg_addr(top as int, args@, i) as u64) by {
                assert(holds_u64(pt, m2, r.1 + 8 * i, arg_addr(top as int, args@, i) as u64));
                assert forall|j: int| 0 <= j < 8 implies #[trigger] byte_at(pt, *mem, r.1 + 8 * i + j)
                    == byte_at(pt, m2, r.1 + 8 * i + j) by {
                    assert(r.0 <= r.1 + 8 * i + j < top);
                }
            }
            assert(holds_u64(pt, *mem, r.1 + 8 * argc, 0)) by {
                assert(holds_u64(pt, m2, r.1 + 8 * argc, 0));
                assert forall|j: int| 0 <= j < 8 implies #[trigger] byte_at(pt, *mem, r.1 + 8 * argc + j)
                    == byte_at(pt, m2, r.1 + 8 * argc + j) by {
                    assert(r.0 <= r.1 + 8 * argc + j < top);
                }
            }
            assert forall|i: int| 0 <= i < argc implies #[trigger] holds_str(pt, *mem, arg_addr(top as int, args@, i), args@[i]@) by {
                lemma_args_span_mono(args@, i + 1, argc);
                lemma_args_span_mono(args@, i, i + 1);
                let a = arg_addr(top as int, args@, i);
                assert(holds_str(pt, m2, a, args@[i]@));
                assert forall|j: int| 0 <= j <= args@[i]@.len() implies #[trigger] byte_at(pt, *mem, a + j)
                    == byte_at(pt, m2, a + j) by {
                    assert(r.0 <= a + j < top);
                }
                assert(byte_at(pt, *mem, a + args@[i]@.len()) == byte_at(pt, m2, a + args@[i]@.len()));
            }
            assert forall|p: int| mem.has(p) && !newly_allocated(a0, *allocator, p) implies #[trigger] mem.page(p) == m0.page(p) by {
                if touches_page(pt, r.0 as int, top as int, p) {
                    let x = choose|x: int| r.0 <= x < top && #[trigger] phys_of(pt, x).0 == p;
                    assert(readable(pt, m1, x));
                }
                assert(m2.page(p) == m1.page(p));
                assert(p != trap_cx_ppn.0);
            }
        }
        r
    }
}

} // verus!
