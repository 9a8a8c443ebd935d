//! A node: a fixed array of worker slots, its idle queue and its run queue.
use vstd::prelude::*;
use crate::idle::{next_aba, pack, state_code, word_aba, word_index, word_state, IdleState, MAX_WORKERS};

verus! {

/// What a worker slot holds.
#[derive(Clone, Copy, Debug, PartialEq, Eq, Structural)]
pub enum WorkerRef {
    /// Idle or never started; carries the 1-based index of the next idle slot (0: none).
    Worker(u64),
    /// Claimed for a spawn; carries the index of the node that owns the slot.
    Node(usize),
    /// Backs a live thread; carries the thread's handle.
    Thread(usize),
    /// Shut down; carries the id of the thread that last ran in it.
    ThreadId(u64),
}

/// Run state of a thread.
#[derive(Clone, Copy, Debug, PartialEq, Eq, Structural)]
pub enum ThreadState {
    Running,
    Waking,
    Suspended,
    Shutdown,
}

/// The fields of a thread that the node protocol reads and writes.
#[derive(Clone, Copy, Debug)]
pub struct Thread {
    pub state: ThreadState,
    /// 1-based index of the next idle slot below this one on the idle stack (0: none).
    pub next_index: u64,
    /// 1-based index of the slot that this thread runs in.
    pub worker: u64,
    /// Index of the node that owns the slot.
    pub node: usize,
    pub id: u64,
}

/// Outcome of a successful resume.
#[derive(Clone, Copy, Debug, PartialEq, Eq, Structural)]
pub enum ResumeResult {
    /// No idle worker: the wake signal is recorded in the idle queue.
    Notified,
    /// A never-started slot (1-based index) was claimed; the caller starts a thread in it.
    Spawn(u64),
    /// A suspended thread (handle) was chosen and is now waking.
    Resume(usize),
}

/// A locality domain: worker slots, the idle queue over them and a run queue.
/// Slots and threads are named by index; a node knows itself by its index in
/// the ring.
pub struct Node {
    /// Index of the next node in the ring.
    pub next: usize,
    /// The slots, addressed 1-based on the idle stack.
    pub workers: Vec<WorkerRef>,
    /// Slots counted as backing a spawning, running or waking thread.
    pub workers_active: usize,
    /// The packed idle word: top of the idle stack, wake state and ABA tag.
    pub idle_queue: u64,
    /// Every task ever pushed, in the order the run queue delivers them.
    pub runq: Vec<u64>,
    /// How many of `runq` the consumer has taken.
    pub runq_tail: usize,
    /// The polling token: set while a consumer holds the run queue.
    pub runq_polling: bool,
    /// The idle stack, top first, as 1-based slot indices.
    pub idle: Ghost<Seq<u64>>,
}

/// The slot below `w` on the idle stack.
pub open spec fn link(w: WorkerRef, threads: Seq<Thread>) -> u64 {
    match w {
        WorkerRef::Worker(n) => n,
        WorkerRef::Thread(t) => threads[t as int].next_index,
        _ => 0,
    }
}

/// A slot that belongs on the idle stack: never started, or backing a suspended thread.
pub open spec fn is_free(w: WorkerRef, threads: Seq<Thread>) -> bool {
    match w {
        WorkerRef::Worker(_) => true,
        WorkerRef::Thread(t) => threads[t as int].state == ThreadState::Suspended,
        _ => false,
    }
}

/// A slot that backs a spawning, running or waking thread.
pub open spec fn is_active(w: WorkerRef, threads: Seq<Thread>) -> bool {
    match w {
        WorkerRef::Node(_) => true,
        WorkerRef::Thread(t) => threads[t as int].state == ThreadState::Running
            || threads[t as int].state == ThreadState::Waking,
        _ => false,
    }
}

/// Number of active slots among the first `n`.
pub open spec fn count_active(ws: Seq<WorkerRef>, threads: Seq<Thread>, n: nat) -> nat
    decreases n,
{
    if n == 0 {
        0
    } else {
        count_active(ws, threads, (n - 1) as nat) + if is_active(ws[n - 1], threads) {
            1nat
        } else {
            0nat
        }
    }
}

/// What a slot may hold in the node `id` with 1-based index `index`.
pub open spec fn slot_ok(w: WorkerRef, index: u64, id: usize, wl: nat, threads: Seq<Thread>) -> bool {
    match w {
        WorkerRef::Worker(n) => n <= wl,
        WorkerRef::Node(x) => x == id,
        WorkerRef::Thread(t) => t < threads.len() && threads[t as int].worker == index
            && threads[t as int].node == id && threads[t as int].next_index <= wl,
        WorkerRef::ThreadId(_) => true,
    }
}

/// The entry below position `k` of an idle stack.
pub open spec fn below(idle: Seq<u64>, k: int) -> u64 {
    if k + 1 < idle.len() {
        idle[k + 1]
    } else {
        0
    }
}

/// The value on top of an idle stack (0: empty).
pub open spec fn top(idle: Seq<u64>) -> u64 {
    if idle.len() == 0 {
        0
    } else {
        idle[0]
    }
}

pub proof fn lemma_count_bound(ws: Seq<WorkerRef>, threads: Seq<Thread>, n: nat)
    ensures
        count_active(ws, threads, n) <= n,
    decreases n,
{
    if n > 0 {
        lemma_count_bound(ws, threads, (n - 1) as nat);
    }
}

proof fn lemma_take_contains(idle: Seq<u64>, k: int)
    requires
        0 <= k < idle.len(),
    ensures
        forall|v: u64| #[trigger] idle.take(k + 1).contains(v) <==> (idle.take(k).contains(v) || v == idle[k]),
{
    let tk = idle.take(k + 1);
    assert forall|v: u64| tk.contains(v) <==> (idle.take(k).contains(v) || v == idle[k]) by {
        if tk.contains(v) {
            let j = choose|j: int| 0 <= j < tk.len() && tk[j] == v;
            if j < k {
                assert(idle.take(k)[j] == v);
            }
        }
        if idle.take(k).contains(v) {
            let j = choose|j: int| 0 <= j < k && idle.take(k)[j] == v;
            assert(tk[j] == v);
        }
        if v == idle[k] {
            assert(tk[k] == v);
        }
    }
}

/// A node's invariant survives changes to threads of other nodes and new threads.
pub proof fn lemma_inv_frame(n: &Node, id: usize, th1: Seq<Thread>, th2: Seq<Thread>)
    requires
        n.inv(id, th1),
        th1.len() <= th2.len(),
        forall|t: int| 0 <= t < th1.len() && th1[t].node == id ==> #[trigger] th2[t] == th1[t],
    ensures
        n.inv(id, th2),
{
    let ws = n.workers@;
    let wl = ws.len();
    assert forall|j: int| 0 <= j < wl implies is_active(ws[j], th1) == is_active(ws[j], th2)
        && is_free(ws[j], th1) == is_free(ws[j], th2) && link(ws[j], th1) == link(ws[j], th2)
        && slot_ok(#[trigger] ws[j], (j + 1) as u64, id, wl, th2) by {
        assert(slot_ok(ws[j], (j + 1) as u64, id, wl, th1));
    }
    lemma_count_same(ws, th1, ws, th2, wl);
    let idle = n.idle@;
    assert forall|k: int| 0 <= k < idle.len() implies {
        &&& 1 <= #[trigger] idle[k] <= wl
        &&& is_free(ws[idle[k] - 1], th2)
        &&& link(ws[idle[k] - 1], th2) == below(idle, k)
    } by {
        assert(1 <= idle[k] <= wl);
    }
}

/// Slots that are active alike give the same count.
pub proof fn lemma_count_same(ws1: Seq<WorkerRef>, th1: Seq<Thread>, ws2: Seq<WorkerRef>, th2: Seq<Thread>, n: nat)
    requires
        forall|j: int| 0 <= j < n ==> is_active(ws1[j], th1) == is_active(ws2[j], th2),
    ensures
        count_active(ws2, th2, n) == count_active(ws1, th1, n),
    decreases n,
{
    if n > 0 {
        lemma_count_same(ws1, th1, ws2, th2, (n - 1) as nat);
    }
}

/// Changing one slot (or what it refers to) changes the count by that slot alone.
pub proof fn lemma_count_frame(
    ws1: Seq<WorkerRef>,
    th1: Seq<Thread>,
    ws2: Seq<WorkerRef>,
    th2: Seq<Thread>,
    n: nat,
    i: int,
)
    requires
        forall|j: int|
            0 <= j < n && j != i ==> is_active(ws1[j], th1) == is_active(ws2[j], th2),
    ensures
        0 <= i < n ==> count_active(ws2, th2, n) + (if is_active(ws1[i], th1) { 1int } else { 0int })
            == count_active(ws1, th1, n) + (if is_active(ws2[i], th2) { 1int } else { 0int }),
        !(0 <= i < n) ==> count_active(ws2, th2, n) == count_active(ws1, th1, n),
    decreases n,
{
    if n > 0 {
        lemma_count_frame(ws1, th1, ws2, th2, (n - 1) as nat, i);
    }
}

impl Node {
    /// Well-formedness of node `id` against the thread table.
    pub open spec fn inv(&self, id: usize, threads: Seq<Thread>) -> bool {
        let ws = self.workers@;
        let wl = ws.len();
        let idle = self.idle@;
        &&& wl <= MAX_WORKERS
        &&& self.workers_active <= count_active(ws, threads, wl)
        &&& self.runq_tail <= self.runq@.len()
        &&& forall|i: int| 0 <= i < wl ==> slot_ok(#[trigger] ws[i], (i + 1) as u64, id, wl, threads)
        &&& word_index(self.idle_queue) == top(idle)
        &&& idle.no_duplicates()
        &&& forall|k: int|
            0 <= k < idle.len() ==> {
                &&& 1 <= #[trigger] idle[k] <= wl
                &&& is_free(ws[idle[k] - 1], threads)
                &&& link(ws[idle[k] - 1], threads) == below(idle, k)
            }
        &&& word_state(self.idle_queue) != IdleState::Shutdown ==> forall|i: int|
            0 <= i < wl && is_free(#[trigger] ws[i], threads) ==> idle.contains((i + 1) as u64)
        &&& word_state(self.idle_queue) == IdleState::Shutdown ==> idle.len() == 0
    }

    /// Ring link and run queue are the same in `a` and `b`.
    pub open spec fn same_runq(a: &Node, b: &Node) -> bool {
        &&& b.next == a.next
        &&& b.runq@ == a.runq@
        &&& b.runq_tail == a.runq_tail
        &&& b.runq_polling == a.runq_polling
    }

    /// Resumes one idle worker of node `id`: the idle-queue step of a wake-up.
    ///
    /// In state Notified, or Waking without `was_waking`, nothing changes and the
    /// result is `None`. Otherwise the state becomes Waking and the top of the idle
    /// stack is popped: a suspended thread is resumed (`Resume`, its state becomes
    /// Waking) or a never-started slot is claimed (`Spawn`, the slot becomes
    /// `Node(id)`); either adds an active worker. With an empty stack the state
    /// becomes Notified instead and the result is `Notified`. The tag is kept.
    pub fn resume_worker(&mut self, id: usize, threads: &mut Vec<Thread>, was_waking: bool) -> (r:
        Option<ResumeResult>)
        requires
            old(self).inv(id, old(threads)@),
            word_state(old(self).idle_queue) != IdleState::Shutdown,
        ensures
            final(self).inv(id, final(threads)@),
            threads_framed(old(threads)@, final(threads)@, id),
            Node::same_runq(old(self), final(self)),
            resume_step(*old(self), *final(self), old(threads)@, final(threads)@, id, was_waking, r),
    {
        let (state, head, aba) = IdleState::decode(self.idle_queue);
        if state == IdleState::Notified || (state == IdleState::Waking && !was_waking) {
            return None;
        }
        let ghost ws = self.workers@;
        let ghost th = threads@;
        let ghost idle = self.idle@;
        let ghost wl = ws.len();
        if head == 0 {
            proof {
                if idle.len() > 0 {
                    assert(1 <= idle[0]);
                }
            }
            self.idle_queue = IdleState::Notified.encode(0, aba);
            return Some(ResumeResult::Notified);
        }
        assert(idle.len() > 0 && idle[0] == head);
        assert(1 <= idle[0] <= wl);
        let wlen: usize = self.workers.len();
        assert(head <= wlen);
        let slot = self.workers[(head - 1) as usize];
        assert(slot == ws[head - 1]);
        assert(slot_ok(slot, head, id, wl, th));
        assert(is_free(slot, th));
        proof {
            lemma_count_bound(ws, th, wl);
        }
        let result = match slot {
            WorkerRef::Thread(t) => {
                let nxt = threads[t].next_index;
                self.idle_queue = IdleState::Waking.encode(nxt, aba);
                let mut thread = threads[t];
                thread.state = ThreadState::Waking;
                threads.set(t, thread);
                ResumeResult::Resume(t)
            },
            WorkerRef::Worker(nxt) => {
                self.idle_queue = IdleState::Waking.encode(nxt, aba);
                self.workers.set((head - 1) as usize, WorkerRef::Node(id));
                ResumeResult::Spawn(head)
            },
            _ => {
                assert(false);
                return None;
            },
        };
        self.idle = Ghost(idle.drop_first());
        proof {
            let ws2 = self.workers@;
            let th2 = threads@;
            let i0 = head - 1;
            assert forall|j: int| 0 <= j < wl && j != i0 implies
                is_active(ws[j], th) == is_active(ws2[j], th2) && is_free(ws[j], th) == is_free(ws2[j], th2)
                && link(ws[j], th) == link(ws2[j], th2) by {
                assert(slot_ok(ws[j], (j + 1) as u64, id, wl, th));
            }
            lemma_count_frame(ws, th, ws2, th2, wl, i0);
            assert(!is_active(ws[i0], th));
            assert(is_active(ws2[i0], th2));
            lemma_count_bound(ws2, th2, wl);
            assert forall|i: int| 0 <= i < wl implies slot_ok(#[trigger] ws2[i], (i + 1) as u64, id, wl, th2) by {
                assert(slot_ok(ws[i], (i + 1) as u64, id, wl, th));
            }
            let idle2 = idle.drop_first();
            assert forall|k: int| 0 <= k < idle2.len() implies {
                &&& 1 <= #[trigger] idle2[k] <= wl
                &&& is_free(ws2[idle2[k] - 1], th2)
                &&& link(ws2[idle2[k] - 1], th2) == below(idle2, k)
            } by {
                assert(idle2[k] == idle[k + 1]);
                assert(idle[k + 1] != idle[0]);
            }
            assert forall|i: int| 0 <= i < wl && is_free(#[trigger] ws2[i], th2) implies idle2.contains((i + 1) as u64) by {
                assert(i != i0);
                assert(idle.contains((i + 1) as u64));
                let k = choose|k: int| 0 <= k < idle.len() && idle[k] == (i + 1) as u64;
                assert(k != 0);
                assert(idle2[k - 1] == (i + 1) as u64);
            }
        }
        self.workers_active = self.workers_active + 1;
        Some(result)
    }

    /// Suspends thread `t`, which runs in a slot of node `id`, and returns whether it
    /// was the node's last active worker.
    ///
    /// The thread links to the current top of the idle stack. Unless the state is
    /// Notified it is pushed and its state becomes Suspended; in Notified it is
    /// not pushed and keeps its state (it stays awake). A Waking thread hands the
    /// baton back: the state becomes Ready. The tag is bumped, and the count of
    /// active workers drops by one.
    pub fn suspend_worker(&mut self, id: usize, threads: &mut Vec<Thread>, t: usize) -> (last: bool)
        requires
            old(self).inv(id, old(threads)@),
            word_state(old(self).idle_queue) != IdleState::Shutdown,
            t < old(threads)@.len(),
            old(threads)@[t as int].node == id,
            1 <= old(threads)@[t as int].worker <= old(self).workers@.len(),
            old(self).workers@[old(threads)@[t as int].worker - 1] == WorkerRef::Thread(t),
            old(threads)@[t as int].state == ThreadState::Running || old(threads)@[t as int].state
                == ThreadState::Waking,
            old(self).workers_active > 0,
        ensures
            final(self).inv(id, final(threads)@),
            threads_framed(old(threads)@, final(threads)@, id),
            Node::same_runq(old(self), final(self)),
            final(self).workers@ == old(self).workers@,
            word_state(final(self).idle_queue) != IdleState::Shutdown,
            final(self).workers_active == old(self).workers_active - 1,
            last == (old(self).workers_active == 1),
            suspend_step(*old(self), *final(self), old(threads)@, final(threads)@, t),
    {
        let ghost ws = self.workers@;
        let ghost th = threads@;
        let ghost idle = self.idle@;
        let ghost wl = ws.len();
        let mut thread = threads[t];
        let old_thread_state = thread.state;
        let (state, head, aba) = IdleState::decode(self.idle_queue);
        let new_state = if old_thread_state == ThreadState::Waking {
            IdleState::Ready
        } else {
            state
        };
        let new_aba = aba.wrapping_add(1);
        assert(new_aba == next_aba(aba));
        proof {
            if idle.len() > 0 {
                assert(1 <= idle[0] <= wl);
            }
        }
        thread.next_index = head;
        let i0 = thread.worker;
        if state == IdleState::Notified {
            self.idle_queue = new_state.encode(head, new_aba);
        } else {
            thread.state = ThreadState::Suspended;
            self.idle_queue = new_state.encode(i0, new_aba);
            self.idle = Ghost(seq![i0].add(idle));
        }
        threads.set(t, thread);
        proof {
            let th2 = threads@;
            let j0 = i0 - 1;
            assert(!is_free(ws[j0], th));
            assert forall|j: int| 0 <= j < wl && j != j0 implies
                is_active(ws[j], th) == is_active(ws[j], th2) && is_free(ws[j], th) == is_free(ws[j], th2)
                && link(ws[j], th) == link(ws[j], th2) by {
                assert(slot_ok(ws[j], (j + 1) as u64, id, wl, th));
            }
            lemma_count_frame(ws, th, ws, th2, wl, j0);
            assert forall|i: int| 0 <= i < wl implies slot_ok(#[trigger] ws[i], (i + 1) as u64, id, wl, th2) by {
                assert(slot_ok(ws[i], (i + 1) as u64, id, wl, th));
            }
            assert forall|k: int| 0 <= k < idle.len() implies idle[k] != i0 by {
                assert(1 <= #[trigger] idle[k] <= wl);
            }
            if state != IdleState::Notified {
                let idle2 = self.idle@;
                assert forall|k: int| 0 <= k < idle2.len() implies {
                    &&& 1 <= #[trigger] idle2[k] <= wl
                    &&& is_free(ws[idle2[k] - 1], th2)
                    &&& link(ws[idle2[k] - 1], th2) == below(idle2, k)
                } by {
                    if k > 0 {
                        assert(idle2[k] == idle[k - 1]);
                        assert(1 <= idle[k - 1] <= wl);
                    }
                }
                assert forall|i: int| 0 <= i < wl && is_free(#[trigger] ws[i], th2) implies idle2.contains((i + 1) as u64) by {
                    if i != j0 {
                        assert(idle.contains((i + 1) as u64));
                        let k = choose|k: int| 0 <= k < idle.len() && idle[k] == (i + 1) as u64;
                        assert(idle2[k + 1] == (i + 1) as u64);
                    } else {
                        assert(idle2[0] == i0);
                    }
                }
                assert forall|a: int, b: int| 0 <= a < idle2.len() && 0 <= b < idle2.len() && a != b
                    implies idle2[a] != idle2[b] by {
                    if a > 0 && b > 0 {
                        assert(idle2[a] == idle[a - 1]);
                        assert(idle2[b] == idle[b - 1]);
                    }
                }
            } else {
                assert forall|k: int| 0 <= k < idle.len() implies {
                    &&& 1 <= #[trigger] idle[k] <= wl
                    &&& is_free(ws[idle[k] - 1], th2)
                    &&& link(ws[idle[k] - 1], th2) == below(idle, k)
                } by {
                    assert(1 <= idle[k] <= wl);
                }
            }
        }
        self.workers_active = self.workers_active - 1;
        self.workers_active == 0
    }

    /// Shuts node `id` down: the word becomes (Shutdown, no index, tag 0), and the
    /// idle stack is walked from its top. Each thread met there gets state Shutdown
    /// and its slot becomes `ThreadId` of it; never-started slots stay as they are.
    /// Returns the handles of those threads, top of the stack first.
    #[verifier::rlimit(60)]
    pub fn shutdown(&mut self, id: usize, threads: &mut Vec<Thread>) -> (r: Vec<usize>)
        requires
            old(self).inv(id, old(threads)@),
            word_state(old(self).idle_queue) != IdleState::Shutdown,
        ensures
            final(self).inv(id, final(threads)@),
            threads_framed(old(threads)@, final(threads)@, id),
            Node::same_runq(old(self), final(self)),
            final(self).workers_active == old(self).workers_active,
            final(self).idle_queue == pack(0, state_code(IdleState::Shutdown), 0),
            final(self).workers@.len() == old(self).workers@.len(),
            forall|i: int| 0 <= i < old(self).workers@.len() ==> #[trigger] final(self).workers@[i] == shut_slot(
                old(self).workers@[i],
                old(threads)@,
                old(self).idle@.contains((i + 1) as u64),
            ),
            forall|t: int| 0 <= t < old(threads)@.len() ==> #[trigger] final(threads)@[t] == if on_stack(
                old(self).workers@,
                old(threads)@,
                old(self).idle@,
                id,
                t,
            ) {
                with_state(old(threads)@[t], ThreadState::Shutdown)
            } else {
                old(threads)@[t]
            },
            r@ == stack_threads(old(self).workers@, old(self).idle@),
    {
        let ghost ws = self.workers@;
        let ghost th = threads@;
        let ghost idle = self.idle@;
        let ghost wl = ws.len();
        let (_state, head, _aba) = IdleState::decode(self.idle_queue);
        self.idle_queue = IdleState::Shutdown.encode(0, 0);
        self.idle = Ghost(Seq::empty());
        let mut r: Vec<usize> = Vec::new();
        let mut index: u64 = head;
        let ghost mut k: int = 0;
        let wlen: usize = self.workers.len();
        let tlen: usize = threads.len();
        while index != 0
            invariant
                wlen == wl,
                tlen == th.len(),
                wl == ws.len(),
                self.workers@.len() == wl,
                threads@.len() == th.len(),
                0 <= k <= idle.len(),
                index == if k < idle.len() { idle[k] } else { 0 },
                old(self).inv(id, th),
                ws == old(self).workers@,
                idle == old(self).idle@,
                self.idle@.len() == 0,
                self.workers_active == old(self).workers_active,
                Node::same_runq(old(self), self),
                self.idle_queue == pack(0, state_code(IdleState::Shutdown), 0),
                forall|i: int| 0 <= i < wl ==> #[trigger] self.workers@[i] == shut_slot(ws[i], th, idle.take(k).contains((i + 1) as u64)),
                forall|t: int| 0 <= t < th.len() ==> #[trigger] threads@[t] == if on_stack(ws, th, idle.take(k), id, t) {
                    with_state(th[t], ThreadState::Shutdown)
                } else {
                    th[t]
                },
                r@ == stack_threads(ws, idle.take(k)),
            decreases idle.len() - k,
        {
            assert(k < idle.len());
            assert(1 <= idle[k] <= wl);
            assert(is_free(ws[idle[k] - 1], th));
            assert forall|j: int| 0 <= j < k implies idle.take(k)[j] != idle[k] by {
                assert(idle.take(k)[j] == idle[j]);
            }
            assert(!idle.take(k).contains(idle[k]));
            let ghost tk = idle.take(k + 1);
            assert(tk.drop_last() == idle.take(k));
            proof {
                lemma_take_contains(idle, k);
            }
            let ghost th_pre = threads@;
            let slot = self.workers[(index - 1) as usize];
            assert(slot == ws[idle[k] - 1]);
            assert(slot_ok(ws[(idle[k] - 1) as int], (idle[k] - 1 + 1) as u64, id, wl, th));
            match slot {
                WorkerRef::Worker(n) => {
                    index = n;
                },
                WorkerRef::Thread(t) => {
                    let mut thread = threads[t];
                    assert(!on_stack(ws, th, idle.take(k), id, t as int));
                    assert(thread == th[t as int]);
                    let slot_index = index;
                    index = thread.next_index;
                    thread.state = ThreadState::Shutdown;
                    self.workers.set((slot_index - 1) as usize, WorkerRef::ThreadId(thread.id));
                    threads.set(t, thread);
                    assert(threads@ == th_pre.update(t as int, with_state(th[t as int], ThreadState::Shutdown)));
                    r.push(t);
                },
                _ => {
                    assert(false);
                },
            }
            proof {
                assert(link(ws[idle[k] - 1], th) == below(idle, k));
                let kk = k;
                k = k + 1;
                assert(idle.take(k) == tk);
                assert forall|t: int| 0 <= t < th.len() implies #[trigger] threads@[t] == if on_stack(ws, th, idle.take(k), id, t) {
                    with_state(th[t], ThreadState::Shutdown)
                } else {
                    th[t]
                } by {
                    let w = th[t].worker;
                    assert(th_pre[t] == if on_stack(ws, th, idle.take(kk), id, t) {
                        with_state(th[t], ThreadState::Shutdown)
                    } else {
                        th[t]
                    });
                    if slot == WorkerRef::Thread(t as usize) {
                        assert(ws[idle[kk] - 1] == slot);
                        assert(slot_ok(slot, idle[kk], id, wl, th));
                        assert(th[t].worker == idle[kk]);
                        assert(w == idle[kk]);
                        assert(on_stack(ws, th, idle.take(k), id, t));
                    } else {
                        if slot is Thread {
                            assert(threads@[t] == th_pre[t]);
                        } else {
                            assert(threads@ == th_pre);
                        }
                        if th[t].node == id && 1 <= w <= wl && ws[w - 1] == WorkerRef::Thread(t as usize) {
                            assert(w != idle[kk]);
                        }
                        assert(on_stack(ws, th, idle.take(k), id, t) == on_stack(ws, th, idle.take(kk), id, t));
                    }
                }
            }
        }
        proof {
            if k < idle.len() {
                assert(1 <= idle[k]);
            }
            assert(idle.take(k) == idle);
            let ws2 = self.workers@;
            let th2 = threads@;
            assert forall|j: int| 0 <= j < wl implies is_active(ws[j], th) == is_active(ws2[j], th2)
                && slot_ok(#[trigger] ws2[j], (j + 1) as u64, id, wl, th2) by {
                assert(slot_ok(ws[j], (j + 1) as u64, id, wl, th));
                if idle.contains((j + 1) as u64) {
                    let m = choose|m: int| 0 <= m < idle.len() && idle[m] == (j + 1) as u64;
                    assert(1 <= idle[m] <= wl);
                    assert(is_free(ws[j], th));
                }
            }
            lemma_count_same(ws, th, ws2, th2, wl);
        }
        r
    }

    /// Installs a new thread with id `thread_id` in slot `slot` (1-based), which a
    /// `Spawn` claimed for node `id`. The thread starts Waking and backs the slot;
    /// its handle is returned.
    pub fn install_thread(&mut self, id: usize, threads: &mut Vec<Thread>, slot: u64, thread_id: u64) -> (t: usize)
        requires
            old(self).inv(id, old(threads)@),
            1 <= slot <= old(self).workers@.len(),
            old(self).workers@[slot - 1] == WorkerRef::Node(id),
            old(threads)@.len() < usize::MAX,
        ensures
            final(self).inv(id, final(threads)@),
            t == old(threads)@.len(),
            final(threads)@ == old(threads)@.push(
                Thread { state: ThreadState::Waking, next_index: 0, worker: slot, node: id, id: thread_id },
            ),
            final(self).workers@ == old(self).workers@.update(slot - 1, WorkerRef::Thread(t)),
            final(self).idle_queue == old(self).idle_queue,
            final(self).workers_active == old(self).workers_active,
            Node::same_runq(old(self), final(self)),
    {
        let ghost ws = self.workers@;
        let ghost th = threads@;
        let ghost wl = ws.len();
        let t = threads.len();
        let wlen: usize = self.workers.len();
        assert(slot <= wlen);
        threads.push(Thread { state: ThreadState::Waking, next_index: 0, worker: slot, node: id, id: thread_id });
        self.workers.set((slot - 1) as usize, WorkerRef::Thread(t));
        proof {
            let ws2 = self.workers@;
            let th2 = threads@;
            let i0 = slot - 1;
            assert forall|j: int| 0 <= j < wl && j != i0 implies
                is_active(ws[j], th) == is_active(ws2[j], th2) && is_free(ws[j], th) == is_free(ws2[j], th2)
                && link(ws[j], th) == link(ws2[j], th2) && slot_ok(ws2[j], (j + 1) as u64, id, wl, th2) by {
                assert(ws2[j] == ws[j]);
                assert(slot_ok(ws[j], (j + 1) as u64, id, wl, th));
                if ws[j] is Thread {
                    assert(th2[ws[j]->Thread_0 as int] == th[ws[j]->Thread_0 as int]);
                }
            }
            lemma_count_frame(ws, th, ws2, th2, wl, i0);
            assert forall|i: int| 0 <= i < wl implies slot_ok(#[trigger] ws2[i], (i + 1) as u64, id, wl, th2) by {
                if i != i0 {
                    assert(slot_ok(ws[i], (i + 1) as u64, id, wl, th));
                }
            }
            let idle = self.idle@;
            assert forall|k: int| 0 <= k < idle.len() implies {
                &&& 1 <= #[trigger] idle[k] <= wl
                &&& is_free(ws2[idle[k] - 1], th2)
                &&& link(ws2[idle[k] - 1], th2) == below(idle, k)
            } by {
                assert(1 <= idle[k] <= wl);
            }
        }
        t
    }

    /// Readies the run queue for use: it starts empty. No consumer may hold it.
    pub fn init(&mut self)
        requires
            !old(self).runq_polling,
        ensures
            final(self).runq@.len() == 0,
            final(self).runq_tail == 0,
            final(self).pending().len() == 0,
            !final(self).runq_polling,
            final(self).next == old(self).next,
            final(self).workers@ == old(self).workers@,
            final(self).workers_active == old(self).workers_active,
            final(self).idle_queue == old(self).idle_queue,
            final(self).idle@ == old(self).idle@,
    {
        self.runq = Vec::new();
        self.runq_tail = 0;
    }

    /// Retires a node: no worker active, shut down, run queue drained, not polled.
    pub fn deinit(self)
        requires
            self.workers_active == 0,
            word_state(self.idle_queue) == IdleState::Shutdown,
            self.pending().len() == 0,
            !self.runq_polling,
    {
    }

    /// Appends a batch of tasks to the run queue; an empty batch changes nothing.
    pub fn push(&mut self, batch: &Vec<u64>)
        requires
            old(self).runq_tail <= old(self).runq@.len(),
            old(self).runq@.len() + batch@.len() <= usize::MAX,
        ensures
            final(self).runq@ == old(self).runq@ + batch@,
            final(self).pending() == old(self).pending() + batch@,
            final(self).runq_tail == old(self).runq_tail,
            final(self).runq_polling == old(self).runq_polling,
            final(self).next == old(self).next,
            final(self).workers@ == old(self).workers@,
            final(self).workers_active == old(self).workers_active,
            final(self).idle_queue == old(self).idle_queue,
            final(self).idle@ == old(self).idle@,
    {
        let mut i: usize = 0;
        while i < batch.len()
            invariant
                i <= batch@.len(),
                self.runq@ == old(self).runq@ + batch@.take(i as int),
                old(self).runq@.len() + batch@.len() <= usize::MAX,
                old(self).runq_tail <= old(self).runq@.len(),
                self.runq_tail == old(self).runq_tail,
                self.runq_polling == old(self).runq_polling,
                self.next == old(self).next,
                self.workers@ == old(self).workers@,
                self.workers_active == old(self).workers_active,
                self.idle_queue == old(self).idle_queue,
                self.idle@ == old(self).idle@,
            decreases batch@.len() - i,
        {
            assert(batch@.take(i + 1) == batch@.take(i as int).push(batch@[i as int]));
            self.runq.push(batch[i]);
            i = i + 1;
        }
        assert(batch@.take(i as int) == batch@);
        assert(self.pending() =~= old(self).pending() + batch@);
    }

    /// Takes the polling token: true when it was free.
    pub fn try_acquire_polling(&mut self) -> (r: bool)
        ensures
            r == !old(self).runq_polling,
            final(self).runq_polling,
            final(self).runq@ == old(self).runq@,
            final(self).runq_tail == old(self).runq_tail,
            final(self).next == old(self).next,
            final(self).workers@ == old(self).workers@,
            final(self).workers_active == old(self).workers_active,
            final(self).idle_queue == old(self).idle_queue,
            final(self).idle@ == old(self).idle@,
    {
        if self.runq_polling {
            false
        } else {
            self.runq_polling = true;
            true
        }
    }

    /// Gives the polling token back.
    pub fn release_polling(&mut self)
        ensures
            !final(self).runq_polling,
            final(self).runq@ == old(self).runq@,
            final(self).runq_tail == old(self).runq_tail,
            final(self).next == old(self).next,
            final(self).workers@ == old(self).workers@,
            final(self).workers_active == old(self).workers_active,
            final(self).idle_queue == old(self).idle_queue,
            final(self).idle@ == old(self).idle@,
    {
        self.runq_polling = false;
    }

    /// Takes the oldest pending task, or `None` when nothing is pending. Only the
    /// holder of the polling token calls this.
    pub fn poll(&mut self) -> (r: Option<u64>)
        requires
            old(self).runq_polling,
            old(self).runq_tail <= old(self).runq@.len(),
        ensures
            poll_step(*old(self), *final(self), r),
    {
        if self.runq_tail < self.runq.len() {
            let task = self.runq[self.runq_tail];
            self.runq_tail = self.runq_tail + 1;
            assert(self.pending() =~= old(self).pending().drop_first());
            Some(task)
        } else {
            None
        }
    }

    /// The tasks pushed and not yet taken, in delivery order.
    pub open spec fn pending(&self) -> Seq<u64> {
        self.runq@.subrange(self.runq_tail as int, self.runq@.len() as int)
    }

    /// A node with `n` slots (at most `MAX_WORKERS` of them are kept), all idle and
    /// threaded into the idle stack in slot order, slot 1 on top; state Ready, tag 0.
    pub fn new(n: usize) -> (r: Node)
        ensures
            r.workers@.len() == if n as u64 <= MAX_WORKERS { n as nat } else { MAX_WORKERS as nat },
            forall|i: int| 0 <= i < r.workers@.len() ==> #[trigger] r.workers@[i] == WorkerRef::Worker(
                if i + 1 < r.workers@.len() { (i + 2) as u64 } else { 0 },
            ),
            r.idle_queue == pack(
                if r.workers@.len() > 0 { 1 } else { 0 },
                state_code(IdleState::Ready),
                0,
            ),
            word_state(r.idle_queue) == IdleState::Ready,
            word_index(r.idle_queue) == if r.workers@.len() > 0 { 1u64 } else { 0u64 },
            word_aba(r.idle_queue) == 0,
            r.workers_active == 0,
            r.runq@.len() == 0,
            r.runq_tail == 0,
            !r.runq_polling,
            r.next == 0,
            forall|id: usize, threads: Seq<Thread>| #[trigger] r.inv(id, threads),
    {
        let len: usize = if n as u64 <= MAX_WORKERS { n } else { MAX_WORKERS as usize };
        let mut workers: Vec<WorkerRef> = Vec::new();
        let mut index: usize = 0;
        while index < len
            invariant
                index <= len,
                len as u64 <= MAX_WORKERS,
                workers@.len() == index,
                forall|i: int| 0 <= i < index ==> #[trigger] workers@[i] == WorkerRef::Worker(
                    if i + 1 < len { (i + 2) as u64 } else { 0 },
                ),
            decreases len - index,
        {
            let next: u64 = if index + 1 < len { (index + 2) as u64 } else { 0 };
            workers.push(WorkerRef::Worker(next));
            index = index + 1;
        }
        let head: u64 = if len > 0 { 1 } else { 0 };
        let idle_queue = IdleState::Ready.encode(head, 0);
        let ghost idle = Seq::new(len as nat, |k: int| (k + 1) as u64);
        let r = Node {
            next: 0,
            workers,
            workers_active: 0,
            idle_queue,
            runq: Vec::new(),
            runq_tail: 0,
            runq_polling: false,
            idle: Ghost(idle),
        };
        proof {
            assert forall|id: usize, threads: Seq<Thread>| #[trigger] r.inv(id, threads) by {
                lemma_count_zero(r.workers@, threads, len as nat);
                assert forall|i: int| 0 <= i < len && is_free(#[trigger] r.workers@[i], threads)
                    implies idle.contains((i + 1) as u64) by {
                    assert(idle[i] == (i + 1) as u64);
                }
                assert forall|k: int| 0 <= k < idle.len() implies {
                    &&& 1 <= #[trigger] idle[k] <= len
                    &&& is_free(r.workers@[idle[k] - 1], threads)
                    &&& link(r.workers@[idle[k] - 1], threads) == below(idle, k)
                } by {
                    assert(r.workers@[k] == WorkerRef::Worker(if k + 1 < len { (k + 2) as u64 } else { 0 }));
                }
                assert(idle.no_duplicates());
            }
        }
        r
    }

    /// Handles of the threads that currently back a slot of this node, in slot order.
    pub fn threads(&self) -> (r: Vec<usize>)
        ensures
            r@ == thread_handles(self.workers@),
    {
        let mut r: Vec<usize> = Vec::new();
        let mut i: usize = 0;
        while i < self.workers.len()
            invariant
                i <= self.workers@.len(),
                r@ == thread_handles(self.workers@.subrange(0, i as int)),
            decreases self.workers@.len() - i,
        {
            assert(self.workers@.subrange(0, i as int) == self.workers@.subrange(0, i + 1).drop_last());
            match self.workers[i] {
                WorkerRef::Thread(t) => r.push(t),
                _ => {},
            }
            i = i + 1;
        }
        assert(self.workers@.subrange(0, i as int) == self.workers@);
        r
    }
}

/// Thread table `b` agrees with `a` on every thread outside node `id`.
pub open spec fn threads_framed(a: Seq<Thread>, b: Seq<Thread>, id: usize) -> bool {
    &&& b.len() == a.len()
    &&& forall|t: int| 0 <= t < a.len() && a[t].node != id ==> #[trigger] b[t] == a[t]
}

/// `t` with its state replaced.
pub open spec fn with_state(t: Thread, s: ThreadState) -> Thread {
    Thread { state: s, ..t }
}

/// `t` after suspending on a stack whose top was `head`: state `s`, linked to `head`.
pub open spec fn suspended(t: Thread, s: ThreadState, head: u64) -> Thread {
    Thread { state: s, next_index: head, ..t }
}

/// One poll of the run queue from `a` to `b`, returning `r`: the oldest pending task
/// leaves, or `None` when nothing is pending. Nothing else changes.
pub open spec fn poll_step(a: Node, b: Node, r: Option<u64>) -> bool {
    &&& a.pending().len() == 0 ==> r is None && b.pending() == a.pending()
    &&& a.pending().len() > 0 ==> r == Some(a.pending()[0]) && b.pending() == a.pending().drop_first()
    &&& b.runq_tail <= b.runq@.len()
    &&& b.runq_polling
    &&& b.runq@ == a.runq@
    &&& b.next == a.next
    &&& b.workers@ == a.workers@
    &&& b.workers_active == a.workers_active
    &&& b.idle_queue == a.idle_queue
    &&& b.idle@ == a.idle@
}

/// A resume on node `n` changes nothing: the state is Notified, or Waking and the
/// caller does not hold the baton.
pub open spec fn declines(n: Node, was_waking: bool) -> bool {
    let st = word_state(n.idle_queue);
    st == IdleState::Notified || (st == IdleState::Waking && !was_waking)
}

/// The effect of one resume on node `id` (see `Node::resume_worker`).
pub open spec fn resume_step(
    a: Node,
    b: Node,
    th1: Seq<Thread>,
    th2: Seq<Thread>,
    id: usize,
    was_waking: bool,
    r: Option<ResumeResult>,
) -> bool {
    let w = a.idle_queue;
    let st = word_state(w);
    let head = word_index(w);
    let aba = word_aba(w);
    if declines(a, was_waking) {
        &&& r is None
        &&& b == a
        &&& th2 == th1
    } else if head == 0 {
        &&& r == Some(ResumeResult::Notified)
        &&& b.idle_queue == pack(0, state_code(IdleState::Notified), aba as u64)
        &&& b.workers@ == a.workers@
        &&& b.workers_active == a.workers_active
        &&& th2 == th1
    } else {
        let slot = a.workers@[head - 1];
        &&& b.idle_queue == pack(link(slot, th1), state_code(IdleState::Waking), aba as u64)
        &&& b.workers_active == a.workers_active + 1
        &&& match slot {
            WorkerRef::Thread(t) => {
                &&& r == Some(ResumeResult::Resume(t))
                &&& b.workers@ == a.workers@
                &&& th2 == th1.update(t as int, with_state(th1[t as int], ThreadState::Waking))
            },
            _ => {
                &&& r == Some(ResumeResult::Spawn(head))
                &&& b.workers@ == a.workers@.update(head - 1, WorkerRef::Node(id))
                &&& th2 == th1
            },
        }
    }
}

/// The idle-queue and thread effect of suspending thread `t` (see `Node::suspend_worker`).
pub open spec fn suspend_step(a: Node, b: Node, th1: Seq<Thread>, th2: Seq<Thread>, t: usize) -> bool {
    let w = a.idle_queue;
    let st = word_state(w);
    let th = th1[t as int];
    let new_st = if th.state == ThreadState::Waking { IdleState::Ready } else { st };
    &&& b.workers@ == a.workers@
    &&& b.workers_active == a.workers_active - 1
    &&& if st == IdleState::Notified {
        &&& b.idle_queue == pack(word_index(w), state_code(new_st), next_aba(word_aba(w)) as u64)
        &&& th2 == th1.update(t as int, suspended(th, th.state, word_index(w)))
    } else {
        &&& b.idle_queue == pack(th.worker, state_code(new_st), next_aba(word_aba(w)) as u64)
        &&& th2 == th1.update(t as int, suspended(th, ThreadState::Suspended, word_index(w)))
    }
}

/// Handles of the threads in the slots listed by `idle`, in that order.
pub open spec fn stack_threads(ws: Seq<WorkerRef>, idle: Seq<u64>) -> Seq<usize>
    decreases idle.len(),
{
    if idle.len() == 0 {
        Seq::empty()
    } else {
        stack_threads(ws, idle.drop_last()) + match ws[idle.last() - 1] {
            WorkerRef::Thread(t) => seq![t],
            _ => Seq::empty(),
        }
    }
}

/// What slot `w` becomes when a shutdown walk reaches it (`on`) or not.
pub open spec fn shut_slot(w: WorkerRef, threads: Seq<Thread>, on: bool) -> WorkerRef {
    match w {
        WorkerRef::Thread(t) => if on {
            WorkerRef::ThreadId(threads[t as int].id)
        } else {
            w
        },
        _ => w,
    }
}

/// Thread `t` backs a slot of node `id` that `idle` lists.
pub open spec fn on_stack(ws: Seq<WorkerRef>, threads: Seq<Thread>, idle: Seq<u64>, id: usize, t: int) -> bool {
    &&& threads[t].node == id
    &&& 1 <= threads[t].worker <= ws.len()
    &&& ws[threads[t].worker - 1] == WorkerRef::Thread(t as usize)
    &&& idle.contains(threads[t].worker)
}

/// Handles of the threads held by the slots of `ws`, in slot order.
pub open spec fn thread_handles(ws: Seq<WorkerRef>) -> Seq<usize>
    decreases ws.len(),
{
    if ws.len() == 0 {
        Seq::empty()
    } else {
        thread_handles(ws.drop_last()) + match ws.last() {
            WorkerRef::Thread(t) => seq![t],
            _ => Seq::empty(),
        }
    }
}

proof fn lemma_count_zero(ws: Seq<WorkerRef>, threads: Seq<Thread>, n: nat)
    requires
        n <= ws.len(),
        forall|i: int| 0 <= i < n ==> ws[i] is Worker,
    ensures
        count_active(ws, threads, n) == 0,
    decreases n,
{
    if n > 0 {
        lemma_count_zero(ws, threads, (n - 1) as nat);
    }
}

} // verus!
