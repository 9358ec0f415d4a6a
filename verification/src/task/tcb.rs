//! Thread control blocks.

use vstd::prelude::*;
use crate::mm::address::{PhysMem, PhysPageNum, VirtAddr, VirtPageNum, PAGE_SIZE, TRAMPOLINE};
use crate::mm::frame_allocator::StackFrameAllocator;
use crate::mm::memory_set::{newly_allocated, MapPermission, MapType, MemorySet};
use super::pcb::ProcessControlBlock;
use std::collections::BTreeMap;

verus! {

broadcast use vstd::std_specs::btree::group_btree_axioms;

/// Bytes of a user stack
pub const USER_STACK_SIZE: usize = 8192;

/// The lowest address of the trap context of thread 0; the trap context of
/// thread `tid` lies `tid` pages below it
pub const TRAP_CONTEXT_BASE: usize = TRAMPOLINE - PAGE_SIZE;

/// The virtual page of the trap context of thread `tid`
pub open spec fn trap_cx_vpn(tid: int) -> int {
    ((TRAP_CONTEXT_BASE - tid * PAGE_SIZE) % 0x80_0000_0000int) / PAGE_SIZE as int
}

/// Below the last SV39 page, the trap context page of thread `tid` starts
/// on a page boundary and the page after it is where its end maps to.
proof fn lemma_trap_page(tid: int)
    requires
        0 <= tid,
        tid * PAGE_SIZE <= TRAP_CONTEXT_BASE,
        trap_cx_vpn(tid) + 1 < 0x800_0000,
    ensures
        (TRAP_CONTEXT_BASE - tid * PAGE_SIZE) % 0x80_0000_0000int / PAGE_SIZE as int == trap_cx_vpn(tid),
        ((TRAP_CONTEXT_BASE - tid * PAGE_SIZE + PAGE_SIZE) % 0x80_0000_0000int + PAGE_SIZE - 1) / PAGE_SIZE as int
            == trap_cx_vpn(tid) + 1,
{
    let a = TRAP_CONTEXT_BASE - tid * PAGE_SIZE;
    assert(usize::MAX == 0xffff_ffff || usize::MAX == 0xffff_ffff_ffff_ffff);
    let k: int = if usize::MAX == 0xffff_ffff { 0x10_0000int - 2 } else { 0x10_0000_0000_0000int - 2 };
    assert(TRAP_CONTEXT_BASE == 4096 * k);
    let q = k - tid;
    assert(a == 4096 * q) by (nonlinear_arith)
        requires
            a == 4096 * k - tid * 4096,
            q == k - tid,
    ;
    let r = a % 0x80_0000_0000int;
    let t = a / 0x80_0000_0000int;
    assert(a == 0x80_0000_0000int * t + r && 0 <= r < 0x80_0000_0000int) by (nonlinear_arith)
        requires
            r == a % 0x80_0000_0000int,
            t == a / 0x80_0000_0000int,
    ;
    assert(r % 4096 == 0) by (nonlinear_arith)
        requires
            a == 0x80_0000_0000int * t + r,
            a == 4096 * q,
            0 <= r,
    ;
    assert(r / 4096 == trap_cx_vpn(tid));
    assert(r + 4096 < 0x80_0000_0000int) by (nonlinear_arith)
        requires
            r / 4096 + 1 < 0x800_0000,
            r % 4096 == 0,
            0 <= r,
    ;
    assert((a + 4096) % 0x80_0000_0000int == r + 4096) by (nonlinear_arith)
        requires
            a == 0x80_0000_0000int * t + r,
            0 <= r,
            r + 4096 < 0x80_0000_0000int,
    ;
    assert((r + 4096 + 4095) / 4096 == r / 4096 + 1) by (nonlinear_arith)
        requires
            r % 4096 == 0,
            0 <= r,
    ;
}

/// Where the user stack of a thread with resources `res` starts
pub open spec fn ustack_bottom(res: TaskUserRes) -> int {
    res.ustack_base + res.tid * (PAGE_SIZE + USER_STACK_SIZE)
}

/// The page after the last page of the user stack of a thread with
/// resources `res`
pub open spec fn ustack_end_vpn(res: TaskUserRes) -> int {
    (ustack_bottom(res) + USER_STACK_SIZE + PAGE_SIZE - 1) / PAGE_SIZE as int
}

/// Whether the user stack and the trap context page of a thread with
/// resources `res` can be mapped in `ms`: the stack lies in SV39 space, the
/// trap context page is not the last SV39 page, and none of their pages is
/// mapped yet.
pub open spec fn user_res_fit(res: TaskUserRes, ms: MemorySet) -> bool {
    let first = ustack_bottom(res) / PAGE_SIZE as int;
    let end = ustack_end_vpn(res);
    &&& ustack_bottom(res) + USER_STACK_SIZE < 0x80_0000_0000
    &&& ustack_bottom(res) + USER_STACK_SIZE <= usize::MAX
    &&& res.tid * PAGE_SIZE <= TRAP_CONTEXT_BASE
    &&& trap_cx_vpn(res.tid as int) + 1 < 0x800_0000
    &&& forall|v: usize| first <= v < end ==> !#[trigger] ms.mappings().contains_key(v)
    &&& !ms.mappings().contains_key(trap_cx_vpn(res.tid as int) as usize)
    &&& !(first <= trap_cx_vpn(res.tid as int) < end)
}

/// Whether the user stack and the trap context page of a thread with
/// resources `res` can be mapped in `ms` (see [`user_res_fit`])
pub fn user_res_fits(res: &TaskUserRes, ms: &MemorySet) -> (b: bool)
    ensures
        b == user_res_fit(*res, *ms),
{
    let span = match res.tid.checked_mul(PAGE_SIZE + USER_STACK_SIZE) {
        Some(x) => x,
        None => return false,
    };
    let bottom = match res.ustack_base.checked_add(span) {
        Some(x) => x,
        None => return false,
    };
    let top = match bottom.checked_add(USER_STACK_SIZE) {
        Some(x) => x,
        None => return false,
    };
    if top as u64 >= 0x80_0000_0000u64 {
        return false;
    }
    let tpage = match res.tid.checked_mul(PAGE_SIZE) {
        Some(x) => x,
        None => return false,
    };
    if tpage > TRAP_CONTEXT_BASE {
        return false;
    }
    let tv = VirtAddr::from_usize(TRAP_CONTEXT_BASE - tpage).as_vpn_by_floor().0;
    if tv + 1 >= 0x800_0000 {
        return false;
    }
    let first = bottom / PAGE_SIZE;
    let end = VirtAddr::from_usize(top).as_vpn_by_ceil().0;
    assert(end == ustack_end_vpn(*res));
    if first <= tv && tv < end {
        return false;
    }
    if ms.translate(VirtPageNum(tv)).is_some() {
        return false;
    }
    let mut v = first;
    while v < end
        invariant
            first <= v,
            first == ustack_bottom(*res) / PAGE_SIZE as int,
            end == ustack_end_vpn(*res),
            forall|u: usize| first <= u < v ==> !#[trigger] ms.mappings().contains_key(u),
        decreases end - v,
    {
        if ms.translate(VirtPageNum(v)).is_some() {
            return false;
        }
        v = v + 1;
    }
    true
}

/// A thread, named by its process and its thread id
#[derive(Clone, Copy, Debug, PartialEq, Eq, Structural)]
pub struct TaskRef {
    pub pid: usize,
    pub tid: usize,
}

/// Scheduling state of a thread
#[derive(Clone, Copy, Debug, PartialEq, Eq, Structural)]
pub enum Status {
    Ready,
    Running,
    Blocked,
}

/// The user resources of a thread: its id and where its stacks start
#[derive(Clone, Copy, Debug, PartialEq, Eq, Structural)]
pub struct TaskUserRes {
    pub tid: usize,
    pub ustack_base: usize,
}

impl TaskUserRes {
    /// The virtual address of the thread's trap context
    pub fn trap_cx_user_va(&self) -> (va: usize)
        requires
            self.tid * PAGE_SIZE <= TRAP_CONTEXT_BASE,
        ensures
            va == TRAP_CONTEXT_BASE - self.tid * PAGE_SIZE,
    {
        TRAP_CONTEXT_BASE - self.tid * PAGE_SIZE
    }

    /// Map the thread's user stack, readable, writable and accessible from
    /// user mode, and then its trap context page, readable and writable, in
    /// `memory_set`, each as a framed area of fresh zeroed frames
    pub fn alloc_user_res(&self, memory_set: &mut MemorySet, allocator: &mut StackFrameAllocator, mem: &mut PhysMem)
        requires
            user_res_fit(*self, *old(memory_set)),
            old(memory_set).wf(),
            old(memory_set).frames_allocated(*old(allocator)),
            old(allocator).wf(),
            old(mem).wf(),
            old(allocator).end() <= old(mem).npages(),
            old(allocator).available() >= ustack_end_vpn(*self) - ustack_bottom(*self) / PAGE_SIZE as int + 1,
        ensures
            final(memory_set).wf(),
            final(memory_set).frames_allocated(*final(allocator)),
            final(memory_set).pt().root() == old(memory_set).pt().root(),
            ({
                let n = old(memory_set).areas().len() as int;
                let st = final(memory_set).areas()[n];
                let tc = final(memory_set).areas()[n + 1];
                let mp = final(memory_set).mappings();
                let fr = final(memory_set).frames();
                &&& final(memory_set).areas() == old(memory_set).areas().push(st).push(tc)
                &&& st.vpn_range.start.0 == ustack_bottom(*self) / PAGE_SIZE as int
                &&& st.vpn_range.end.0 == ustack_end_vpn(*self)
                &&& st.map_type == MapType::Framed
                &&& st.map_perm.value() == 22
                &&& tc.vpn_range.start.0 == trap_cx_vpn(self.tid as int)
                &&& tc.vpn_range.end.0 == trap_cx_vpn(self.tid as int) + 1
                &&& tc.map_type == MapType::Framed
                &&& tc.map_perm.value() == 6
                &&& st.mapped_in(mp, fr)
                &&& tc.mapped_in(mp, fr)
                &&& forall|v: usize| #[trigger] st.has_vpn(v as int) ==> {
                    &&& newly_allocated(*old(allocator), *final(allocator), fr[v] as int)
                    &&& final(mem).has(fr[v] as int)
                }
                &&& forall|v: usize| #[trigger] tc.has_vpn(v as int) ==> {
                    &&& newly_allocated(*old(allocator), *final(allocator), fr[v] as int)
                    &&& final(mem).has(fr[v] as int)
                }
                &&& forall|v: usize| !st.has_vpn(v as int) && !tc.has_vpn(v as int) ==> {
                    &&& #[trigger] mp.contains_key(v) == old(memory_set).mappings().contains_key(v)
                    &&& mp.contains_key(v) ==> mp[v] == old(memory_set).mappings()[v]
                    &&& fr.contains_key(v) == old(memory_set).frames().contains_key(v)
                    &&& fr.contains_key(v) ==> fr[v] == old(memory_set).frames()[v]
                }
                &&& final(allocator).available() == old(allocator).available() - st.npages() - 1
            }),
            forall|q: int| #[trigger] old(allocator).is_allocated(q) ==> final(allocator).is_allocated(q),
            final(allocator).wf(),
            final(allocator).end() == old(allocator).end(),
            final(mem).wf(),
            final(mem).npages() == old(mem).npages(),
            forall|r: int| final(mem).has(r) && !newly_allocated(*old(allocator), *final(allocator), r)
                ==> #[trigger] final(mem).page(r) == old(mem).page(r),
    {
        let ghost ms0 = *old(memory_set);
        let ghost a0 = *old(allocator);
        let ghost m0 = *old(mem);
        let bottom = self.ustack_base + self.tid * (PAGE_SIZE + USER_STACK_SIZE);
        let top = bottom + USER_STACK_SIZE;
        assert((2u8 | 4u8) | 16u8 == 22u8 && 2u8 | 4u8 == 6u8) by (bit_vector);
        let stack_perm = MapPermission::r().union(MapPermission::w()).union(MapPermission::u());
        let start_va = VirtAddr::from_usize(bottom);
        let end_va = VirtAddr::from_usize(top);
        proof {
            assert(start_va.0 == bottom && end_va.0 == top);
        }
        memory_set.insert_framed_area(start_va, end_va, stack_perm, allocator, mem);
        let ghost ms1 = *memory_set;
        let ghost a1 = *allocator;
        let ghost m1 = *mem;
        let ghost st = ms1.areas()[ms0.areas().len() as int];
        let trap_bottom = self.trap_cx_user_va();
        let trap_start = VirtAddr::from_usize(trap_bottom);
        let trap_end = VirtAddr::from_usize(trap_bottom + PAGE_SIZE);
        proof {
            lemma_trap_page(self.tid as int);
            let tv = trap_cx_vpn(self.tid as int);
            assert(trap_start.0 / 4096 == tv);
            assert((trap_end.0 + 4095) / 4096 == tv + 1);
            assert(!st.has_vpn(tv));
            assert(!st.vpn_set().contains(tv as usize));
            assert(!ms1.mappings().remove_keys(st.vpn_set()).contains_key(tv as usize));
            assert forall|v: usize| trap_start.0 / PAGE_SIZE <= v < (trap_end.0 + PAGE_SIZE - 1) / PAGE_SIZE as int
                implies !#[trigger] ms1.mappings().contains_key(v) by {
                assert(v == tv);
            }
        }
        memory_set.insert_framed_area(trap_start, trap_end, MapPermission::r().union(MapPermission::w()), allocator, mem);
        proof {
            let n = ms0.areas().len() as int;
            let tc = memory_set.areas()[n + 1];
            let mp = memory_set.mappings();
            let fr = memory_set.frames();
            assert(memory_set.areas()[n] == st);
            assert forall|v: usize| #[trigger] st.has_vpn(v as int) implies {
                &&& newly_allocated(a0, *allocator, fr[v] as int)
                &&& mem.has(fr[v] as int)
            } by {
                assert(!tc.has_vpn(v as int));
                assert(!tc.vpn_set().contains(v));
                assert(ms1.mappings().contains_key(v));
                assert(ms1.frames().contains_key(v));
                assert(fr.remove_keys(tc.vpn_set()).contains_key(v));
                assert(fr.remove_keys(tc.vpn_set())[v] == ms1.frames().remove_keys(tc.vpn_set())[v]);
            }
            assert(st.mapped_in(mp, fr)) by {
                assert forall|v: usize| #![trigger mp.contains_key(v)] #![trigger mp[v]] st.has_vpn(v as int) implies {
                    &&& mp.contains_key(v)
                    &&& mp[v] == st.entry_for(v, fr)
                    &&& (st.map_type is Framed ==> fr.contains_key(v))
                } by {
                    assert(!tc.vpn_set().contains(v));
                    assert(ms1.mappings().contains_key(v));
                    assert(ms1.frames().contains_key(v));
                    assert(mp.remove_keys(tc.vpn_set()).contains_key(v));
                    assert(mp.remove_keys(tc.vpn_set())[v] == ms1.mappings().remove_keys(tc.vpn_set())[v]);
                    assert(fr.remove_keys(tc.vpn_set()).contains_key(v));
                    assert(fr.remove_keys(tc.vpn_set())[v] == ms1.frames().remove_keys(tc.vpn_set())[v]);
                }
            }
            assert forall|v: usize| !st.has_vpn(v as int) && !tc.has_vpn(v as int) implies {
                &&& #[trigger] mp.contains_key(v) == ms0.mappings().contains_key(v)
                &&& mp.contains_key(v) ==> mp[v] == ms0.mappings()[v]
                &&& fr.contains_key(v) == ms0.frames().contains_key(v)
                &&& fr.contains_key(v) ==> fr[v] == ms0.frames()[v]
            } by {
                assert(!tc.vpn_set().contains(v));
                assert(!st.vpn_set().contains(v));
                assert(mp.remove_keys(tc.vpn_set()).contains_key(v) == ms1.mappings().remove_keys(tc.vpn_set()).contains_key(v));
                assert(ms1.mappings().remove_keys(st.vpn_set()).contains_key(v) == ms0.mappings().remove_keys(st.vpn_set()).contains_key(v));
                assert(fr.remove_keys(tc.vpn_set()).contains_key(v) == ms1.frames().remove_keys(tc.vpn_set()).contains_key(v));
                assert(ms1.frames().remove_keys(st.vpn_set()).contains_key(v) == ms0.frames().remove_keys(st.vpn_set()).contains_key(v));
                if mp.contains_key(v) {
                    assert(mp.remove_keys(tc.vpn_set())[v] == ms1.mappings().remove_keys(tc.vpn_set())[v]);
                    assert(ms1.mappings().remove_keys(st.vpn_set())[v] == ms0.mappings().remove_keys(st.vpn_set())[v]);
                }
                if fr.contains_key(v) {
                    assert(fr.remove_keys(tc.vpn_set())[v] == ms1.frames().remove_keys(tc.vpn_set())[v]);
                    assert(ms1.frames().remove_keys(st.vpn_set())[v] == ms0.frames().remove_keys(st.vpn_set())[v]);
                }
            }
            assert forall|r: int| mem.has(r) && !newly_allocated(a0, *allocator, r) implies #[trigger] mem.page(r) == m0.page(r) by {
                assert(!newly_allocated(a1, *allocator, r));
                assert(!newly_allocated(a0, a1, r));
            }
        }
    }

    /// The top of the thread's user stack: each thread has a guard page and
    /// a stack above the previous one
    pub fn ustack_top(&self) -> (top: usize)
        requires
            ustack_bottom(*self) + USER_STACK_SIZE <= usize::MAX,
        ensures
            top == ustack_bottom(*self) + USER_STACK_SIZE,
    {
        assert(0 <= self.tid * (PAGE_SIZE + USER_STACK_SIZE)) by (nonlinear_arith);
        self.ustack_base + self.tid * (PAGE_SIZE + USER_STACK_SIZE) + USER_STACK_SIZE
    }
}

/// The mutable part of a thread control block
#[derive(Clone, Copy, Debug)]
pub struct TaskControlBlockInner {
    pub res: Option<TaskUserRes>,
    pub trap_cx_ppn: PhysPageNum,
    pub task_status: Status,
    pub exit_code: Option<i32>,
}

impl TaskControlBlockInner {
    /// The physical page holding the thread's trap context
    pub fn trap_cx(&self) -> (p: PhysPageNum)
        ensures
            p == self.trap_cx_ppn,
    {
        self.trap_cx_ppn
    }
}

/// A thread: the process it belongs to, its kernel stack and its state
#[derive(Clone, Copy, Debug)]
pub struct TaskControlBlock {
    pub process: usize,
    pub kstack: usize,
    pub inner: TaskControlBlockInner,
}

impl TaskControlBlock {
    /// A ready thread of process `process` with the given resources.
    pub open spec fn new_spec(process: usize, kstack: usize, res: TaskUserRes, trap_cx_ppn: PhysPageNum) -> Self {
        TaskControlBlock {
            process,
            kstack,
            inner: TaskControlBlockInner { res: Some(res), trap_cx_ppn, task_status: Status::Ready, exit_code: None },
        }
    }

    /// A ready thread of process `process` with the given resources
    pub fn new(process: usize, kstack: usize, res: TaskUserRes, trap_cx_ppn: PhysPageNum) -> (t: Self)
        ensures
            t == Self::new_spec(process, kstack, res, trap_cx_ppn),
            t.process == process,
            t.kstack == kstack,
            t.inner.res == Some(res),
            t.inner.trap_cx_ppn == trap_cx_ppn,
            t.inner.task_status == Status::Ready,
            t.inner.exit_code == None::<i32>,
    {
        TaskControlBlock {
            process,
            kstack,
            inner: TaskControlBlockInner { res: Some(res), trap_cx_ppn, task_status: Status::Ready, exit_code: None },
        }
    }

    /// The `satp` value of the address space of the thread's process
    pub fn user_token(&self, processes: &BTreeMap<usize, ProcessControlBlock>) -> (t: usize)
        requires
            processes@.contains_key(self.process),
            processes@[self.process].inner.memory_set.pt().root() < 0x1000_0000_0000,
        ensures
            usize::BITS == 64 ==> t as int == 0x8000_0000_0000_0000int
                + processes@[self.process].inner.memory_set.pt().root(),
    {
        processes.get(&self.process).unwrap().inner.memory_set.token()
    }

    /// The mutable state of the thread
    pub fn inner_exclusive_access(&self) -> (i: &TaskControlBlockInner)
        ensures
            *i == self.inner,
    {
        &self.inner
    }
}

} // verus!
