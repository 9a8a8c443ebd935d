//! Properties of the scheduler core that relate several operations or hold of
//! every reachable state.
use vstd::prelude::*;
use crate::cluster::{cascade_step, count_nodes_active, lemma_nodes_count_bound, Cluster};
use crate::idle::{lemma_decode_encode, next_aba, word_aba, word_index, word_state, IdleState, MAX_WORKERS};
use crate::node::{
    declines, is_free, lemma_count_bound, poll_step, resume_step, suspend_step, Node,
    ResumeResult, Thread, ThreadState, WorkerRef,
};

verus! {

/// A node never counts more active workers than it has slots.
pub proof fn lemma_workers_active_bounded(n: Node, id: usize, threads: Seq<Thread>)
    requires
        n.inv(id, threads),
    ensures
        n.workers_active <= n.workers@.len(),
{
    lemma_count_bound(n.workers@, threads, n.workers@.len());
}

/// The scheduler's count of active nodes is the number of nodes with an active
/// worker, and so never exceeds the number of nodes.
pub proof fn lemma_nodes_active_exact(c: Cluster)
    requires
        c.inv(),
    ensures
        c.nodes_active == count_nodes_active(c.nodes@, c.nodes@.len()),
        c.nodes_active <= c.nodes@.len(),
{
    lemma_nodes_count_bound(c.nodes@, c.nodes@.len());
}

/// Outside shutdown, the idle stack holds exactly the slots that are never started
/// or back a suspended thread, each once.
pub proof fn lemma_idle_stack_exact(n: Node, id: usize, threads: Seq<Thread>, index: u64)
    requires
        n.inv(id, threads),
        word_state(n.idle_queue) != IdleState::Shutdown,
        1 <= index <= n.workers@.len(),
    ensures
        n.idle@.contains(index) <==> is_free(n.workers@[index - 1], threads),
        n.idle@.no_duplicates(),
{
    if n.idle@.contains(index) {
        let k = choose|k: int| 0 <= k < n.idle@.len() && n.idle@[k] == index;
        assert(1 <= n.idle@[k] <= n.workers@.len());
    }
    if is_free(n.workers@[index - 1], threads) {
        let i = index - 1;
        assert(is_free(n.workers@[i], threads));
    }
}

/// A resume without the baton takes it only from a node in state Ready: while a
/// wake-up is in flight (Waking) it changes nothing, so a second waker never starts.
pub proof fn lemma_single_waker(a: Node, b: Node, th1: Seq<Thread>, th2: Seq<Thread>, id: usize, r: Option<ResumeResult>)
    requires
        a.inv(id, th1),
        resume_step(a, b, th1, th2, id, false, r),
    ensures
        word_state(a.idle_queue) == IdleState::Waking ==> r is None && b == a && th2 == th1,
        (r matches Some(ResumeResult::Resume(_)) || r matches Some(ResumeResult::Spawn(_))) ==> word_state(
            a.idle_queue,
        ) == IdleState::Ready && word_state(b.idle_queue) == IdleState::Waking,
{
    if !declines(a, false) && word_index(a.idle_queue) != 0 {
        let head = word_index(a.idle_queue);
        assert(1 <= a.idle@[0] <= a.workers@.len());
        let slot = a.workers@[head - 1];
        let nxt = crate::node::link(slot, th1);
        assert(crate::node::below(a.idle@, 0) == nxt);
        if a.idle@.len() > 1 {
            assert(1 <= a.idle@[1] <= a.workers@.len());
        }
        lemma_decode_encode(IdleState::Waking, nxt, word_aba(a.idle_queue));
    }
}

/// Suspend then resume: right after a thread suspends outside Notified, its slot
/// backs it and tops the idle stack, and when the node is then Ready (the thread
/// held the baton, or none was out) the next resume on the node resumes it.
pub proof fn lemma_suspend_resume_inverse(
    a: Node,
    b: Node,
    c: Node,
    th1: Seq<Thread>,
    th2: Seq<Thread>,
    th3: Seq<Thread>,
    id: usize,
    t: usize,
    r: Option<ResumeResult>,
)
    requires
        a.inv(id, th1),
        t < th1.len(),
        1 <= th1[t as int].worker <= a.workers@.len(),
        a.workers@[th1[t as int].worker - 1] == WorkerRef::Thread(t),
        word_state(a.idle_queue) != IdleState::Notified,
        word_state(a.idle_queue) != IdleState::Shutdown,
        th1[t as int].state == ThreadState::Waking || word_state(a.idle_queue) == IdleState::Ready,
        suspend_step(a, b, th1, th2, t),
        resume_step(b, c, th2, th3, id, false, r),
    ensures
        b.workers@[th1[t as int].worker - 1] == WorkerRef::Thread(t),
        word_index(b.idle_queue) == th1[t as int].worker,
        th2[t as int].state == ThreadState::Suspended,
        r == Some(ResumeResult::Resume(t)),
        th3[t as int].state == ThreadState::Waking,
{
    let w = a.idle_queue;
    lemma_decode_encode(IdleState::Ready, th1[t as int].worker, next_aba(word_aba(w)));
    if th1[t as int].state != ThreadState::Waking {
        lemma_decode_encode(word_state(w), th1[t as int].worker, next_aba(word_aba(w)));
    }
}

/// A resume that finds no idle worker leaves the node Notified, and a second
/// resume before any suspend then does nothing.
pub proof fn lemma_notified_absorbs(
    a: Node,
    b: Node,
    c: Node,
    th1: Seq<Thread>,
    th2: Seq<Thread>,
    th3: Seq<Thread>,
    id: usize,
    was_waking: bool,
    r2: Option<ResumeResult>,
)
    requires
        resume_step(a, b, th1, th2, id, was_waking, Some(ResumeResult::Notified)),
        resume_step(b, c, th2, th3, id, false, r2),
    ensures
        word_state(b.idle_queue) == IdleState::Notified,
        r2 is None,
        c == b,
        th3 == th2,
{
    lemma_decode_encode(IdleState::Notified, 0, word_aba(a.idle_queue));
}

/// Every update of the idle word by a suspend bumps its ABA tag, so two successive
/// words never carry the same tag.
pub proof fn lemma_suspend_bumps_tag(a: Node, b: Node, th1: Seq<Thread>, th2: Seq<Thread>, t: usize)
    requires
        suspend_step(a, b, th1, th2, t),
        word_index(a.idle_queue) <= MAX_WORKERS,
        th1[t as int].worker <= MAX_WORKERS,
    ensures
        word_aba(b.idle_queue) == next_aba(word_aba(a.idle_queue)),
        word_aba(b.idle_queue) != word_aba(a.idle_queue),
{
    let w = a.idle_queue;
    let st = word_state(w);
    let new_st = if th1[t as int].state == ThreadState::Waking { IdleState::Ready } else { st };
    lemma_decode_encode(new_st, word_index(w), next_aba(word_aba(w)));
    lemma_decode_encode(new_st, th1[t as int].worker, next_aba(word_aba(w)));
    crate::idle::lemma_aba_bump(word_aba(w), 1);
}

/// The run queue delivers each pending task exactly once, oldest first: polling
/// as many times as tasks are pending yields them in order and empties the queue,
/// and one more poll yields nothing.
pub proof fn lemma_run_queue_fifo(states: Seq<Node>, out: Seq<Option<u64>>)
    requires
        states.len() == states[0].pending().len() + 2,
        out.len() == states.len() - 1,
        forall|k: int| 0 <= k < out.len() ==> poll_step(#[trigger] states[k], states[k + 1], out[k]),
    ensures
        forall|k: int| 0 <= k < states[0].pending().len() ==> #[trigger] out[k] == Some(states[0].pending()[k]),
        out.last() is None,
        states.last().pending().len() == 0,
{
    let q = states[0].pending();
    let n = q.len();
    let ps = Seq::new(states.len(), |k: int| states[k].pending());
    assert forall|j: int| 1 <= j < ps.len() implies #[trigger] ps[j] == popped(ps[j - 1]) by {
        assert(poll_step(states[j - 1], states[j], out[j - 1]));
    }
    assert forall|k: int| 0 <= k <= n implies #[trigger] ps[k] == q.subrange(k, n as int) by {
        lemma_pending_after(ps, q, k);
    }
    assert forall|k: int| 0 <= k < n implies #[trigger] out[k] == Some(q[k]) by {
        assert(ps[k] == q.subrange(k, n as int));
        assert(poll_step(states[k], states[k + 1], out[k]));
    }
    assert(ps[n as int] == q.subrange(n as int, n as int));
    assert(poll_step(states[n as int], states[n as int + 1], out[n as int]));
}

/// Round trip: a batch pushed onto an empty run queue comes back from as many
/// polls, each task once and in order, and the queue is then empty.
pub proof fn lemma_run_queue_round_trip(a: Node, states: Seq<Node>, out: Seq<Option<u64>>, batch: Seq<u64>)
    requires
        a.pending().len() == 0,
        states.len() == batch.len() + 2,
        states[0].pending() == a.pending() + batch,
        out.len() == states.len() - 1,
        forall|k: int| 0 <= k < out.len() ==> poll_step(#[trigger] states[k], states[k + 1], out[k]),
    ensures
        forall|k: int| 0 <= k < batch.len() ==> #[trigger] out[k] == Some(batch[k]),
        states.last().pending().len() == 0,
{
    assert(states[0].pending() =~= batch);
    lemma_run_queue_fifo(states, out);
}

/// What one poll leaves pending.
spec fn popped(p: Seq<u64>) -> Seq<u64> {
    if p.len() == 0 {
        p
    } else {
        p.drop_first()
    }
}

proof fn lemma_pending_after(ps: Seq<Seq<u64>>, q: Seq<u64>, k: int)
    requires
        q == ps[0],
        ps.len() == q.len() + 2,
        forall|j: int| 1 <= j < ps.len() ==> #[trigger] ps[j] == popped(ps[j - 1]),
        0 <= k <= q.len(),
    ensures
        ps[k] == q.subrange(k, q.len() as int),
    decreases k,
{
    if k > 0 {
        lemma_pending_after(ps, q, k - 1);
        assert(ps[k] == popped(ps[k - 1]));
        assert(q.subrange(k - 1, q.len() as int).drop_first() =~= q.subrange(k, q.len() as int));
    } else {
        assert(q.subrange(0, q.len() as int) =~= q);
    }
}

proof fn lemma_slot_shut(a: Seq<Node>, ta: Seq<Thread>, bj: Node, tb: Seq<Thread>, j: int, s: int)
    requires
        0 <= j < a.len(),
        a.len() <= usize::MAX,
        0 <= s < a[j].workers@.len(),
        a[j].inv(j as usize, ta),
        word_state(a[j].idle_queue) != IdleState::Shutdown,
        crate::cluster::node_shut(a[j], bj, ta),
        is_free(a[j].workers@[s], ta),
        forall|t: int| 0 <= t < ta.len() ==> #[trigger] tb[t] == crate::cluster::thread_shut(a, ta, t),
    ensures
        !(bj.workers@[s] is Thread) && !(bj.workers@[s] is Node),
        a[j].workers@[s] is Thread ==> {
            let t = a[j].workers@[s]->Thread_0 as int;
            &&& bj.workers@[s] == WorkerRef::ThreadId(ta[t].id)
            &&& tb[t].state == ThreadState::Shutdown
        },
{
    lemma_idle_stack_exact(a[j], j as usize, ta, (s + 1) as u64);
    assert(bj.workers@[s] == crate::node::shut_slot(a[j].workers@[s], ta, a[j].idle@.contains((s + 1) as u64)));
    if a[j].workers@[s] is Thread {
        let t = a[j].workers@[s]->Thread_0 as int;
        assert(crate::node::slot_ok(a[j].workers@[s], (s + 1) as u64, j as usize, a[j].workers@.len(), ta));
        assert(a[j].idle@.contains((s + 1) as u64));
        assert(ta[t].node == j);
        assert(ta[t].worker == s + 1);
        assert(crate::node::on_stack(a[j].workers@, ta, a[j].idle@, j as usize, t));
        assert(tb[t] == crate::cluster::thread_shut(a, ta, t));
    }
}

/// After the shutdown cascade over a ring whose idle stacks were complete (every
/// slot idle or backing a suspended thread), no slot backs a thread or a spawn any
/// more: each slot that backed a thread holds that thread's id, and every such
/// thread is shut down.
pub proof fn lemma_shutdown_complete(
    c: Cluster,
    b: Seq<Node>,
    tb: Seq<Thread>,
    start: int,
    r: Seq<usize>,
)
    requires
        c.inv(),
        c.live(),
        forall|j: int, s: int| 0 <= j < c.nodes@.len() && 0 <= s < c.nodes@[j].workers@.len() ==> is_free(
            #[trigger] c.nodes@[j].workers@[s],
            c.threads@,
        ),
        cascade_step(c.nodes@, c.threads@, b, tb, start, r),
    ensures
        forall|j: int, s: int| 0 <= j < b.len() && 0 <= s < b[j].workers@.len() ==> {
            let w = #[trigger] b[j].workers@[s];
            !(w is Thread) && !(w is Node)
        },
        forall|j: int, s: int| 0 <= j < b.len() && 0 <= s < b[j].workers@.len()
            && c.nodes@[j].workers@[s] is Thread ==> {
            let t = c.nodes@[j].workers@[s]->Thread_0 as int;
            &&& #[trigger] b[j].workers@[s] == WorkerRef::ThreadId(c.threads@[t].id)
            &&& tb[t].state == ThreadState::Shutdown
        },
        word_state(b[0].idle_queue) == IdleState::Shutdown || b.len() == 0,
{
    let a = c.nodes@;
    let ta = c.threads@;
    assert forall|j: int, s: int| 0 <= j < b.len() && 0 <= s < b[j].workers@.len() implies {
        let w = #[trigger] b[j].workers@[s];
        &&& !(w is Thread) && !(w is Node)
        &&& a[j].workers@[s] is Thread ==> {
            let t = a[j].workers@[s]->Thread_0 as int;
            &&& w == WorkerRef::ThreadId(ta[t].id)
            &&& tb[t].state == ThreadState::Shutdown
        }
    } by {
        assert(a[j].inv(j as usize, ta));
        assert(crate::cluster::node_shut(a[j], b[j], ta));
        assert(is_free(a[j].workers@[s], ta));
        lemma_slot_shut(a, ta, b[j], tb, j, s);
    }
    if b.len() > 0 {
        assert(crate::cluster::node_shut(a[0], b[0], ta));
        lemma_decode_encode(IdleState::Shutdown, 0, 0);
    }
}

} // verus!
