//! The round-robin scheduler of kernel threads: the thread table, thread
//! creation (with the initial stack frame a new thread starts from), the
//! choice of the next thread to run, and thread exit.  The stack switch
//! itself, and allocating and freeing stacks, are the caller's.

use vstd::prelude::*;

verus! {

pub const MAX_THREADS: usize = 32;
pub const THREAD_STACK_SIZE: u64 = 4096;
/// Words of the initial stack frame: six saved registers, the entry point
/// and the exit routine.
pub const FRAME_WORDS: u64 = 8;

#[derive(Clone, Copy, PartialEq, Eq, Structural)]
pub enum ThreadState {
    Ready,
    Running,
    Blocked,
    Dead,
}

/// Per-thread control block.
#[derive(Clone, Copy)]
pub struct Thread {
    pub id: u32,
    pub rsp: u64,
    pub state: ThreadState,
    /// Base of the thread's stack (0 for the boot thread).
    pub stack_base: u64,
}

pub struct Scheduler {
    pub threads: Vec<Thread>,
    pub current: usize,
    pub next_id: u32,
    /// A stack to free once execution has left it.
    pub pending_free: u64,
}

/// What the caller does to schedule: free the stack, then switch from the
/// first thread to the second.
pub struct Switch {
    pub free_stack: Option<u64>,
    pub switch: Option<(usize, usize)>,
}

pub open spec fn dead_thread() -> Thread {
    Thread { id: 0, rsp: 0, state: ThreadState::Dead, stack_base: 0 }
}

/// The first of slots `old + i, old + i + 1, ...` (mod 32), up to
/// `old + 32`, that is ready; `old` when none is.
pub open spec fn rr_next(ts: Seq<Thread>, old: int, i: int) -> int
    decreases MAX_THREADS + 1 - i,
{
    if i > MAX_THREADS || i < 1 {
        old
    } else if ts[(old + i) % MAX_THREADS as int].state == ThreadState::Ready {
        (old + i) % MAX_THREADS as int
    } else {
        rr_next(ts, old, i + 1)
    }
}

/// The first dead slot from `i` on.
pub open spec fn first_dead(ts: Seq<Thread>, i: int) -> Option<int>
    decreases MAX_THREADS - i,
{
    if i < 0 || i >= MAX_THREADS {
        None
    } else if ts[i].state == ThreadState::Dead {
        Some(i)
    } else {
        first_dead(ts, i + 1)
    }
}

/// The number of live (not dead) slots among the first `n`.
pub open spec fn live_count(ts: Seq<Thread>, n: int) -> int
    decreases n,
{
    if n <= 0 {
        0
    } else {
        live_count(ts, n - 1) + if ts[n - 1].state != ThreadState::Dead { 1int } else { 0 }
    }
}

/// The first live slot, among the first `n`, whose thread has id `id`.
pub open spec fn slot_of(ts: Seq<Thread>, id: u32, n: int) -> Option<int>
    decreases n,
{
    if n <= 0 {
        None
    } else {
        match slot_of(ts, id, n - 1) {
            Some(i) => Some(i),
            None => if ts[n - 1].state != ThreadState::Dead && ts[n - 1].id == id { Some(n - 1) } else { None },
        }
    }
}

/// The initial stack frame of a new thread, from its lowest word up: the
/// six callee-saved registers (zero), the entry point that the switch
/// returns to, and the exit routine that the entry point returns to.
pub open spec fn initial_frame(entry: u64, exit_fn: u64) -> Seq<u64> {
    seq![0u64, 0, 0, 0, 0, 0, entry, exit_fn]
}

/// The scheduling decision: the next ready slot after the current one,
/// round robin; the current thread, if running, becomes ready.
pub open spec fn schedule_spec(s: SchedView) -> SchedView {
    let old = s.current as int;
    let next = rr_next(s.threads, old, 1);
    if next == old {
        SchedView { pending_free: 0, ..s }
    } else {
        let t1 = if s.threads[old].state == ThreadState::Running {
            s.threads.update(old, Thread { state: ThreadState::Ready, ..s.threads[old] })
        } else {
            s.threads
        };
        let t2 = t1.update(next, Thread { state: ThreadState::Running, ..t1[next] });
        SchedView { threads: t2, current: next as usize, pending_free: 0, ..s }
    }
}

pub struct SchedView {
    pub threads: Seq<Thread>,
    pub current: usize,
    pub next_id: u32,
    pub pending_free: u64,
}

impl Scheduler {
    pub open spec fn view(&self) -> SchedView {
        SchedView { threads: self.threads@, current: self.current, next_id: self.next_id, pending_free: self.pending_free }
    }

    pub open spec fn wf(&self) -> bool {
        &&& self.threads@.len() == MAX_THREADS
        &&& self.current < MAX_THREADS
    }

    /// Thread 0 (the boot thread, on the boot stack) running, every other
    /// slot dead, the next id 1.
    pub fn init() -> (r: Scheduler)
        ensures
            r.wf(),
            r.current == 0,
            r.next_id == 1,
            r.pending_free == 0,
            r.threads@[0] == (Thread { id: 0, rsp: 0, state: ThreadState::Running, stack_base: 0 }),
            forall|i: int| 1 <= i < MAX_THREADS ==> r.threads@[i] == dead_thread(),
    {
        let mut threads: Vec<Thread> = Vec::new();
        threads.push(Thread { id: 0, rsp: 0, state: ThreadState::Running, stack_base: 0 });
        let mut i: usize = 1;
        while i < MAX_THREADS
            invariant
                1 <= i <= MAX_THREADS,
                threads@.len() == i,
                threads@[0] == (Thread { id: 0, rsp: 0, state: ThreadState::Running, stack_base: 0 }),
                forall|j: int| 1 <= j < i ==> threads@[j] == dead_thread(),
            decreases MAX_THREADS - i,
        {
            threads.push(Thread { id: 0, rsp: 0, state: ThreadState::Dead, stack_base: 0 });
            i = i + 1;
        }
        Scheduler { threads, current: 0, next_id: 1, pending_free: 0 }
    }

    /// Whether a slot is free for a new thread.
    pub fn has_free_slot(&self) -> (r: bool)
        requires
            self.wf(),
        ensures
            r == (first_dead(self.threads@, 0) is Some),
    {
        let mut i: usize = 0;
        while i < MAX_THREADS
            invariant
                i <= MAX_THREADS,
                self.wf(),
                first_dead(self.threads@, i as int) == first_dead(self.threads@, 0),
            decreases MAX_THREADS - i,
        {
            if self.threads[i].state == ThreadState::Dead {
                return true;
            }
            i = i + 1;
        }
        false
    }

    /// Take the first dead slot for a new thread whose 4 KiB stack starts
    /// at `stack`: it is ready, with the next id and its stack pointer at
    /// the initial frame (returned, lowest word first) at the stack's top.
    /// Returns the id, or -1 when every slot is taken.
    pub fn create(&mut self, stack: u64, entry: u64, exit_fn: u64) -> (r: (i32, Vec<u64>))
        requires
            old(self).wf(),
            stack as int + THREAD_STACK_SIZE <= u64::MAX,
        ensures
            final(self).wf(),
            match first_dead(old(self).threads@, 0) {
                None => r.0 == -1 && final(self).view() == old(self).view(),
                Some(slot) => {
                    &&& r.0 == old(self).next_id as i32
                    &&& r.1@ == initial_frame(entry, exit_fn)
                    &&& final(self).view() == (SchedView {
                        threads: old(self).threads@.update(slot, Thread {
                            id: old(self).next_id,
                            rsp: (stack + THREAD_STACK_SIZE - FRAME_WORDS * 8) as u64,
                            state: ThreadState::Ready,
                            stack_base: stack,
                        }),
                        next_id: vstd::wrapping::u32_specs::wrapping_add(old(self).next_id, 1),
                        ..old(self).view()
                    })
                },
            },
    {
        let mut i: usize = 0;
        while i < MAX_THREADS
            invariant
                i <= MAX_THREADS,
                self.wf(),
                *self == *old(self),
                stack as int + THREAD_STACK_SIZE <= u64::MAX,
                first_dead(self.threads@, i as int) == first_dead(self.threads@, 0),
            decreases MAX_THREADS - i,
        {
            if self.threads[i].state == ThreadState::Dead {
                let tid = self.next_id;
                self.next_id = self.next_id.wrapping_add(1);
                let rsp = stack + THREAD_STACK_SIZE - FRAME_WORDS * 8;
                self.threads.set(i, Thread { id: tid, rsp, state: ThreadState::Ready, stack_base: stack });
                let frame = vec![0u64, 0, 0, 0, 0, 0, entry, exit_fn];
                return (tid as i32, frame);
            }
            i = i + 1;
        }
        (-1, Vec::new())
    }

    /// Choose the next thread (see `schedule_spec`); the stack left by an
    /// exited thread is handed back to be freed.
    pub fn schedule(&mut self) -> (r: Switch)
        requires
            old(self).wf(),
        ensures
            final(self).wf(),
            final(self).view() == schedule_spec(old(self).view()),
            r.free_stack == (if old(self).pending_free != 0 { Some(old(self).pending_free) } else { None }),
            r.switch == (if rr_next(old(self).threads@, old(self).current as int, 1) == old(self).current as int {
                None
            } else {
                Some((old(self).current, rr_next(old(self).threads@, old(self).current as int, 1) as usize))
            }),
    {
        let free_stack = if self.pending_free != 0 { Some(self.pending_free) } else { None };
        self.pending_free = 0;
        let old_slot = self.current;
        let next = self.rr_pick();
        if next == old_slot {
            return Switch { free_stack, switch: None };
        }
        let t = self.threads[old_slot];
        if t.state == ThreadState::Running {
            self.threads.set(old_slot, Thread { state: ThreadState::Ready, ..t });
        }
        let n = self.threads[next];
        self.threads.set(next, Thread { state: ThreadState::Running, ..n });
        self.current = next;
        Switch { free_stack, switch: Some((old_slot, next)) }
    }

    fn rr_pick(&self) -> (r: usize)
        requires
            self.wf(),
        ensures
            r == rr_next(self.threads@, self.current as int, 1),
            r < MAX_THREADS,
    {
        let old_slot = self.current;
        let mut i: usize = 1;
        while i <= MAX_THREADS
            invariant
                1 <= i <= MAX_THREADS + 1,
                self.wf(),
                old_slot == self.current,
                rr_next(self.threads@, old_slot as int, i as int) == rr_next(self.threads@, old_slot as int, 1),
            decreases MAX_THREADS + 1 - i,
        {
            let cand = (old_slot + i) % MAX_THREADS;
            if self.threads[cand].state == ThreadState::Ready {
                return cand;
            }
            i = i + 1;
        }
        old_slot
    }

    /// End the current thread: it is marked dead, its stack (if it has
    /// one) is set aside to be freed, and the next thread is chosen.
    pub fn exit(&mut self) -> (r: Switch)
        requires
            old(self).wf(),
        ensures
            final(self).wf(),
            ({
                let cur = old(self).current as int;
                let t = old(self).threads@[cur];
                let s1 = SchedView {
                    threads: old(self).threads@.update(cur, Thread { state: ThreadState::Dead, stack_base: 0, ..t }),
                    pending_free: if t.stack_base != 0 { t.stack_base } else { old(self).pending_free },
                    ..old(self).view()
                };
                &&& final(self).view() == schedule_spec(s1)
                &&& r.free_stack == (if s1.pending_free != 0 { Some(s1.pending_free) } else { None })
            }),
    {
        let cur = self.current;
        let t = self.threads[cur];
        if t.stack_base != 0 {
            self.pending_free = t.stack_base;
        }
        self.threads.set(cur, Thread { state: ThreadState::Dead, stack_base: 0, ..t });
        self.schedule()
    }

    /// The id of the running thread.
    pub fn get_current(&self) -> (r: i32)
        requires
            self.wf(),
        ensures
            r == self.threads@[self.current as int].id as i32,
    {
        self.threads[self.current].id as i32
    }

    /// Whether a live thread has id `id`.
    pub fn is_alive(&self, id: i32) -> (r: bool)
        requires
            self.wf(),
        ensures
            r == (slot_of(self.threads@, id as u32, MAX_THREADS as int) is Some),
    {
        match self.get_by_id(id) {
            Some(_) => true,
            None => false,
        }
    }

    /// The number of live threads.
    pub fn get_count(&self) -> (r: i32)
        requires
            self.wf(),
        ensures
            r == live_count(self.threads@, MAX_THREADS as int),
    {
        let mut count: i32 = 0;
        let mut i: usize = 0;
        while i < MAX_THREADS
            invariant
                i <= MAX_THREADS,
                self.wf(),
                count == live_count(self.threads@, i as int),
                0 <= count <= i,
            decreases MAX_THREADS - i,
        {
            if self.threads[i].state != ThreadState::Dead {
                count = count + 1;
            }
            i = i + 1;
        }
        count
    }

    /// The thread in slot `index`.
    pub fn get(&self, index: i32) -> (r: Option<&Thread>)
        requires
            self.wf(),
        ensures
            0 <= index < MAX_THREADS ==> r == Some(&self.threads@[index as int]),
            !(0 <= index < MAX_THREADS) ==> r is None,
    {
        if index < 0 || index >= MAX_THREADS as i32 {
            return None;
        }
        Some(&self.threads[index as usize])
    }

    /// The first live thread with id `id`.
    pub fn get_by_id(&self, id: i32) -> (r: Option<&Thread>)
        requires
            self.wf(),
        ensures
            match slot_of(self.threads@, id as u32, MAX_THREADS as int) {
                Some(i) => r == Some(&self.threads@[i]),
                None => r is None,
            },
    {
        let mut i: usize = 0;
        while i < MAX_THREADS
            invariant
                i <= MAX_THREADS,
                self.wf(),
                slot_of(self.threads@, id as u32, i as int) is None,
            decreases MAX_THREADS - i,
        {
            if self.threads[i].state != ThreadState::Dead && self.threads[i].id == id as u32 {
                proof { lemma_slot_of_stays(self.threads@, id as u32, i as int + 1, MAX_THREADS as int); }
                return Some(&self.threads[i]);
            }
            i = i + 1;
        }
        None
    }
}

proof fn lemma_slot_of_stays(ts: Seq<Thread>, id: u32, i: int, n: int)
    requires
        0 <= i <= n,
        slot_of(ts, id, i) is Some,
    ensures
        slot_of(ts, id, n) == slot_of(ts, id, i),
    decreases n - i,
{
    if n > i {
        lemma_slot_of_stays(ts, id, i, n - 1);
    }
}

// ---- What creating a thread leaves ----------------------------------------

proof fn lemma_first_dead_found(ts: Seq<Thread>, i: int)
    requires
        0 <= i,
    ensures
        first_dead(ts, i) matches Some(k) ==> i <= k < MAX_THREADS && ts[k].state == ThreadState::Dead,
    decreases MAX_THREADS - i,
{
    if i < MAX_THREADS && ts[i].state != ThreadState::Dead {
        lemma_first_dead_found(ts, i + 1);
    }
}

/// Making dead slot `k` live adds one to the live count of every prefix
/// that holds it.
proof fn lemma_live_count_revive(ts: Seq<Thread>, k: int, t: Thread, n: int)
    requires
        0 <= k < ts.len(),
        ts[k].state == ThreadState::Dead,
        t.state != ThreadState::Dead,
        n <= ts.len(),
    ensures
        live_count(ts.update(k, t), n) == live_count(ts, n) + if k < n { 1int } else { 0 },
    decreases n,
{
    if n > 0 {
        lemma_live_count_revive(ts, k, t, n - 1);
    }
}

proof fn lemma_slot_of_found(ts: Seq<Thread>, id: u32, k: int, n: int)
    requires
        0 <= k < n <= ts.len(),
        ts[k].state != ThreadState::Dead,
        ts[k].id == id,
    ensures
        slot_of(ts, id, n) is Some,
    decreases n,
{
    if n - 1 > k {
        lemma_slot_of_found(ts, id, k, n - 1);
    } else if slot_of(ts, id, n - 1) is None {
        assert(ts[n - 1].id == id);
    }
}

/// A thread that `create` made is alive under the id it returned, and the
/// live count grows by one; when no slot is free nothing changes.
pub proof fn lemma_create_then_alive(s: SchedView, stack: u64)
    requires
        s.threads.len() == MAX_THREADS,
    ensures
        first_dead(s.threads, 0) matches Some(slot) ==> ({
            let t2 = s.threads.update(slot, Thread {
                id: s.next_id,
                rsp: (stack + THREAD_STACK_SIZE - FRAME_WORDS * 8) as u64,
                state: ThreadState::Ready,
                stack_base: stack,
            });
            &&& slot_of(t2, s.next_id, MAX_THREADS as int) is Some
            &&& live_count(t2, MAX_THREADS as int) == live_count(s.threads, MAX_THREADS as int) + 1
        }),
{
    lemma_first_dead_found(s.threads, 0);
    match first_dead(s.threads, 0) {
        None => {},
        Some(slot) => {
            let t = Thread {
                id: s.next_id,
                rsp: (stack + THREAD_STACK_SIZE - FRAME_WORDS * 8) as u64,
                state: ThreadState::Ready,
                stack_base: stack,
            };
            let t2 = s.threads.update(slot, t);
            lemma_live_count_revive(s.threads, slot, t, MAX_THREADS as int);
            lemma_slot_of_found(t2, s.next_id, slot, MAX_THREADS as int);
        },
    }
}


/// Slot `old + e` (cyclically) holds a ready thread.
pub open spec fn ready_after(ts: Seq<Thread>, old: int, e: int) -> bool {
    ts[(old + e) % (MAX_THREADS as int)].state == ThreadState::Ready
}

/// Slots `old + i`, ..., `old + d - 1` (cyclically) are not ready, and slot
/// `old + d` is: the scan from `i` stops there.
proof fn lemma_rr_first(ts: Seq<Thread>, old: int, i: int, last: int) -> (d: int)
    requires
        ts.len() == MAX_THREADS,
        0 <= old < MAX_THREADS,
        1 <= i <= last <= MAX_THREADS,
        ts[(old + last) % (MAX_THREADS as int)].state == ThreadState::Ready,
    ensures
        i <= d <= last,
        rr_next(ts, old, i) == (old + d) % (MAX_THREADS as int),
        ts[(old + d) % (MAX_THREADS as int)].state == ThreadState::Ready,
        forall|e: int| i <= e < d ==> !#[trigger] ready_after(ts, old, e),
    decreases last - i,
{
    if ts[(old + i) % (MAX_THREADS as int)].state == ThreadState::Ready {
        i
    } else {
        lemma_rr_first(ts, old, i + 1, last)
    }
}

/// Cyclic distance from slot `from` to slot `to`, in `0 .. MAX_THREADS`.
pub open spec fn cyc(from: int, to: int) -> int {
    (to - from + MAX_THREADS as int) % (MAX_THREADS as int)
}

/// Round robin is fair: when some slot other than the current one holds a
/// ready thread, scheduling switches away from the current slot to a ready
/// thread, which then runs, and that thread is the first ready one after
/// the current slot in cyclic order; so no ready slot (`j` among them) is
/// passed over, and every ready thread runs within `MAX_THREADS`
/// schedules.
pub proof fn lemma_schedule_fair(s: SchedView, j: int)
    requires
        s.threads.len() == MAX_THREADS,
        s.current < MAX_THREADS,
        0 <= j < MAX_THREADS,
        j != s.current,
        s.threads[j].state == ThreadState::Ready,
    ensures
        ({
            let s2 = schedule_spec(s);
            let cur = s.current as int;
            let n = s2.current as int;
            &&& n != cur
            &&& n == rr_next(s.threads, cur, 1)
            &&& 0 <= n < MAX_THREADS
            &&& s.threads[n].state == ThreadState::Ready
            &&& s2.threads[n].state == ThreadState::Running
            &&& cyc(cur, n) <= cyc(cur, j)
            &&& forall|k: int| 0 <= k < MAX_THREADS && 0 < #[trigger] cyc(cur, k) < cyc(cur, n) ==> s.threads[k].state
                != ThreadState::Ready
        }),
{
    let cur = s.current as int;
    let m = MAX_THREADS as int;
    let dj = cyc(cur, j);
    assert(1 <= dj < m);
    assert((cur + dj) % m == j);
    let d = lemma_rr_first(s.threads, cur, 1, dj);
    let n = (cur + d) % m;
    assert(0 <= n < m);
    assert(n != cur);
    assert(cyc(cur, n) == d);
    assert forall|k: int| 0 <= k < MAX_THREADS && 0 < #[trigger] cyc(cur, k) < cyc(cur, n) implies s.threads[k].state
        != ThreadState::Ready by {
        let e = cyc(cur, k);
        assert((cur + e) % m == k);
        assert(!ready_after(s.threads, cur, e));
    }
}

} // verus!
